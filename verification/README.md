# Lexi

Full-text search over directories, with a tabbed window around it. Search terms
are matched literally, with smart case, in the paths and in the contents of
files: plain text, mail in quoted-printable encoding and, on demand, office and
PDF documents.

## Layout

- `src/` is the library, verified with Verus against the contracts of its
  functions.
  - `search`: the configuration of a search, the matcher for its terms, the
    lines that match and the handle of a running search
  - `scan`: what is done with each file of a walk and what is reported of it
  - `snippet`: what is shown of a long line; `boundary`: character boundaries
  - `layout`: a text in parts, with its matches highlighted
  - `order`: stable sorting by time
  - `app`: the tabs, their rows and their state
  - `report`: the text logged for a panic; `text`: trimming, words, decimals
  - `outside`: what is taken on trust from other crates and from std, with the
    claims made of it
- `app/` is the program: the window, the threads that walk the directories, the
  readers for documents, the panic log. The library decides what is searched,
  reported and listed.
- `tests/` runs the library with the real crates linked.
