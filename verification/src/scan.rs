//! What is done with each file that a walk comes upon: whether it is searched,
//! how its content is read, and what is reported of it.

use std::sync::atomic::AtomicBool;
use std::sync::Arc;

use vstd::prelude::*;
use vstd::utf8::*;

use crate::layout;
use crate::outside;
use crate::search;
use crate::search::{SearchEntry, SearchMode, SearchResult, SearchSink, TermMatcher, Timestamp};

verus! {

/// A file with this byte in it is binary and is not searched further.
pub const BINARY_BYTE: u8 = 0;

/// What a walk came upon.
#[derive(Clone, Copy, Debug, PartialEq, Eq, Structural)]
pub enum EntryKind {
    File,
    Directory,
    /// Neither a file nor a directory.
    Other,
    /// Something that could not be read.
    Unreadable,
}

/// What a walk does next.
#[derive(Clone, Copy, Debug, PartialEq, Eq, Structural)]
pub enum EntryStep {
    /// Search the file.
    Search,
    /// Go on with the next entry.
    Skip,
    /// End the walk.
    Quit,
}

/// Decides what is done with an entry: only files are searched, and nothing is
/// once the search was asked to stop.
pub fn entry_step(stopped: bool, kind: EntryKind) -> (r: EntryStep)
    ensures
        r == EntryStep::Quit <==> stopped,
        r == EntryStep::Search <==> !stopped && kind == EntryKind::File,
{
    if stopped {
        EntryStep::Quit
    } else if kind == EntryKind::File {
        EntryStep::Search
    } else {
        EntryStep::Skip
    }
}

/// Decides whether it goes on after a result, with the next page of a document
/// or the next file: the walk ends once the search was asked to stop, or where
/// nobody took the result.
pub fn page_step(stopped: bool, taken: bool) -> (r: EntryStep)
    ensures
        r == EntryStep::Quit <==> stopped || !taken,
        r == EntryStep::Search <==> !stopped && taken,
{
    if stopped || !taken {
        EntryStep::Quit
    } else {
        EntryStep::Search
    }
}

/// How the content of a file is read.
#[derive(Clone, Copy, Debug, PartialEq, Eq, Structural)]
pub enum ContentSource {
    /// Not at all.
    Nothing,
    /// As lines of text.
    Text,
    /// As the text of an office document.
    Office,
    /// As the text of the pages of a PDF document.
    Pdf,
    /// As mail in quoted-printable encoding.
    Mail,
}

/// The extensions of office documents.
pub open spec fn is_office_extension(extension: Seq<char>) -> bool {
    ||| extension == "docx"@
    ||| extension == "xlsx"@
    ||| extension == "pptx"@
    ||| extension == "doc"@
    ||| extension == "ppt"@
    ||| extension == "xls"@
}

/// How the content of a file is read in the given mode. The case of the
/// extension does not matter. Mail is decoded wherever content is searched,
/// documents only where they are asked for.
pub open spec fn source_of(mode: SearchMode, extension: Option<Seq<char>>) -> ContentSource {
    match (mode, extension) {
        (SearchMode::FileNameOnly, _) => ContentSource::Nothing,
        (_, None) => ContentSource::Text,
        (_, Some(extension)) => {
            let lower = extension.map_values(|c: char| outside::ascii_lower(c));
            if lower == "eml"@ {
                ContentSource::Mail
            } else if mode == SearchMode::IncludeDocContent && is_office_extension(lower) {
                ContentSource::Office
            } else if mode == SearchMode::IncludeDocContent && lower == "pdf"@ {
                ContentSource::Pdf
            } else {
                ContentSource::Text
            }
        },
    }
}

/// How content is read follows from the mode and the extension, in whatever case
/// that is written: not at all where names alone are searched; mail is decoded
/// everywhere else, and office and PDF documents are read as such only where
/// documents are asked for; all the rest is read as text.
pub proof fn lemma_source_of(mode: SearchMode, extension: Option<Seq<char>>)
    ensures
        ({
            let source = source_of(mode, extension);
            let lower = match extension {
                Some(extension) => extension.map_values(|c: char| outside::ascii_lower(c)),
                None => seq![],
            };
            let names = mode == SearchMode::FileNameOnly;
            let documents = mode == SearchMode::IncludeDocContent;
            let office = {
                ||| lower == "docx"@
                ||| lower == "xlsx"@
                ||| lower == "pptx"@
                ||| lower == "doc"@
                ||| lower == "ppt"@
                ||| lower == "xls"@
            };
            &&& source == ContentSource::Nothing <==> names
            &&& source == ContentSource::Mail <==> !names && extension is Some && lower == "eml"@
            &&& source == ContentSource::Office <==> documents && extension is Some && office
            &&& source == ContentSource::Pdf <==> documents && extension is Some && lower == "pdf"@
            &&& source == ContentSource::Text <==> !names && !(extension is Some && lower == "eml"@)
                && !(documents && extension is Some && (office || lower == "pdf"@))
        }),
{
    reveal_strlit("eml");
    reveal_strlit("pdf");
    reveal_strlit("docx");
    reveal_strlit("xlsx");
    reveal_strlit("pptx");
    reveal_strlit("doc");
    reveal_strlit("ppt");
    reveal_strlit("xls");
    assert("eml"@[0] == 'e');
    assert("pdf"@[0] == 'p' && "pdf"@[1] == 'd');
    assert("docx"@[0] == 'd' && "xlsx"@[0] == 'x' && "pptx"@[0] == 'p' && "pptx"@[1] == 'p');
    assert("doc"@[0] == 'd' && "ppt"@[0] == 'p' && "ppt"@[1] == 'p' && "xls"@[0] == 'x');
}

fn is_name(text: &String, name: &str) -> (r: bool)
    ensures
        r == (text@ == name@),
{
    *text == name.to_owned()
}

/// Decides how the content of a file is read.
pub fn content_source(mode: SearchMode, extension: Option<&str>) -> (r: ContentSource)
    ensures
        r == source_of(
            mode,
            match extension {
                Some(extension) => Some(extension@),
                None => None,
            },
        ),
{
    if mode == SearchMode::FileNameOnly {
        return ContentSource::Nothing;
    }
    let lower: String = match extension {
        Some(extension) => extension.to_ascii_lowercase(),
        None => {
            return ContentSource::Text;
        },
    };
    let documents: bool = mode == SearchMode::IncludeDocContent;
    if is_name(&lower, "eml") {
        ContentSource::Mail
    } else if documents && (is_name(&lower, "docx") || is_name(&lower, "xlsx") || is_name(
        &lower,
        "pptx",
    ) || is_name(&lower, "doc") || is_name(&lower, "ppt") || is_name(&lower, "xls")) {
        ContentSource::Office
    } else if documents && is_name(&lower, "pdf") {
        ContentSource::Pdf
    } else {
        ContentSource::Text
    }
}

/// The entries for lines, each with its number.
pub open spec fn entries_for(
    patterns: Seq<Seq<char>>,
    flags: (bool, bool),
    lines: Seq<(u64, Seq<u8>)>,
) -> Seq<search::EntryView> {
    lines.map_values(
        |line: (u64, Seq<u8>)| search::entry_for(patterns, flags, Some(line.0), line.1),
    )
}

/// The entries for the lines of the bytes that match.
pub open spec fn entries_in(
    patterns: Seq<Seq<char>>,
    flags: (bool, bool),
    bytes: Seq<u8>,
) -> Seq<search::EntryView> {
    entries_for(
        patterns,
        flags,
        outside::matching_lines(patterns, flags.0, flags.1, BINARY_BYTE, bytes),
    )
}

/// There is one entry for each line, with its number, in order. The lines of
/// bytes are those that match, up to a byte 0.
pub proof fn lemma_entries(
    patterns: Seq<Seq<char>>,
    flags: (bool, bool),
    lines: Seq<(u64, Seq<u8>)>,
    bytes: Seq<u8>,
)
    ensures
        entries_for(patterns, flags, lines).len() == lines.len(),
        forall|i: int|
            0 <= i < lines.len() ==> #[trigger] entries_for(patterns, flags, lines)[i]
                == search::entry_for(patterns, flags, Some(lines[i].0), lines[i].1),
        entries_in(patterns, flags, bytes) == entries_for(
            patterns,
            flags,
            outside::matching_lines(patterns, flags.0, flags.1, 0, bytes),
        ),
{
}

/// Each entry shows its line as it is. The entries are those of the first lines.
pub open spec fn are_faithful(
    patterns: Seq<Seq<char>>,
    flags: (bool, bool),
    entries: Seq<search::EntryView>,
    lines: Seq<(u64, Seq<u8>)>,
) -> bool {
    forall|i: int|
        0 <= i < entries.len() ==> search::lists_faithfully(
            patterns,
            flags,
            #[trigger] entries[i],
            lines[i].1,
        )
}

/// Where entries show their lines as they are, each of them does.
pub proof fn lemma_are_faithful(
    patterns: Seq<Seq<char>>,
    flags: (bool, bool),
    entries: Seq<search::EntryView>,
    lines: Seq<(u64, Seq<u8>)>,
)
    requires
        are_faithful(patterns, flags, entries, lines),
    ensures
        forall|i: int|
            0 <= i < entries.len() ==> search::lists_faithfully(
                patterns,
                flags,
                #[trigger] entries[i],
                lines[i].1,
            ),
{
}

/// Takes lines that match into a sink, and says whether it went through all of
/// them. It stops before a line if and only if the flag was found set there.
pub fn record_lines(sink: &mut SearchSink, lines: &Vec<(u64, Vec<u8>)>) -> (r: bool)
    ensures
        ({
            let before = search::entry_views(old(sink).results@);
            let after = search::entry_views(final(sink).results@);
            let new = entries_for(
                old(sink).matcher.patterns(),
                old(sink).matcher.flags(),
                outside::line_views(lines@),
            );
            &&& before.len() <= after.len() <= before.len() + new.len()
            &&& after == before + new.take(after.len() - before.len())
            &&& r ==> after == before + new
            &&& r <==> after.len() == before.len() + new.len()
            &&& !r ==> search::was_read_as(old(sink).quit, true)
            &&& after.len() > before.len() ==> search::was_read_as(old(sink).quit, false)
            &&& are_faithful(
                old(sink).matcher.patterns(),
                old(sink).matcher.flags(),
                after.skip(before.len() as int),
                outside::line_views(lines@),
            )
        }),
        final(sink).matcher == old(sink).matcher,
        final(sink).quit == old(sink).quit,
{
    let ghost before = search::entry_views(sink.results@);
    let ghost matcher = sink.matcher;
    let ghost new = entries_for(matcher.patterns(), matcher.flags(), outside::line_views(lines@));
    assert(before + new.take(0) =~= before);
    for i in 0..lines.len()
        invariant
            new == entries_for(matcher.patterns(), matcher.flags(), outside::line_views(lines@)),
            new.len() == lines@.len(),
            search::entry_views(sink.results@) == before + new.take(i as int),
            are_faithful(
                matcher.patterns(),
                matcher.flags(),
                search::entry_views(sink.results@).skip(before.len() as int),
                outside::line_views(lines@),
            ),
            i > 0 ==> search::was_read_as(old(sink).quit, false),
            sink.matcher == matcher,
            sink.quit == old(sink).quit,
            before == search::entry_views(old(sink).results@),
            matcher == old(sink).matcher,
    {
        let ghost earlier = sink.results@;
        match sink.matched(Some(lines[i].0), lines[i].1.as_slice()) {
            Ok(true) => {
                proof {
                    let entries = sink.results@;
                    assert(entries =~= earlier.push(entries.last()));
                    assert(search::entry_views(entries) =~= search::entry_views(earlier).push(
                        entries.last()@,
                    ));
                    assert(outside::line_views(lines@)[i as int] == (
                        lines@[i as int].0,
                        lines@[i as int].1@,
                    ));
                    assert(new.take(i + 1) =~= new.take(i as int).push(new[i as int]));
                    assert(before + new.take(i + 1) =~= (before + new.take(i as int)).push(
                        new[i as int],
                    ));
                    let views = search::entry_views(entries).skip(before.len() as int);
                    assert(views =~= search::entry_views(earlier).skip(before.len() as int).push(
                        entries.last()@,
                    ));
                }
            },
            _ => {
                return false;
            },
        }
    }
    assert(new.take(lines@.len() as int) =~= new);
    true
}

/// Lists the lines of the bytes that match, in order. Lines are missing at the
/// end only where the flag was found set before the first of them.
pub fn scan_text(matcher: &TermMatcher, bytes: &[u8], quit: &AtomicBool) -> (r: Vec<SearchEntry>)
    ensures
        ({
            let all = entries_in(matcher.patterns(), matcher.flags(), bytes@);
            &&& r@.len() <= all.len()
            &&& search::entry_views(r@) == all.take(r@.len() as int)
            &&& r@.len() < all.len() ==> search::was_read_as(quit, true)
            &&& r@.len() > 0 ==> search::was_read_as(quit, false)
        }),
        are_faithful(
            matcher.patterns(),
            matcher.flags(),
            search::entry_views(r@),
            outside::matching_lines(
                matcher.patterns(),
                matcher.flags().0,
                matcher.flags().1,
                BINARY_BYTE,
                bytes@,
            ),
        ),
{
    let lines: Vec<(u64, Vec<u8>)> = outside::search_slice(matcher.compiled(), BINARY_BYTE, bytes);
    let mut sink: SearchSink = SearchSink::new(matcher, quit);
    let _ = record_lines(&mut sink, &lines);
    proof {
        let none = search::entry_views(Seq::<SearchEntry>::empty());
        let all = entries_in(matcher.patterns(), matcher.flags(), bytes@);
        assert(none.len() == 0);
        let n = sink.results@.len() as int;
        assert(none + all.take(n) =~= all.take(n));
        assert(search::entry_views(sink.results@).skip(0) =~= search::entry_views(sink.results@));
    }
    sink.results
}

/// Decodes mail, which is in quoted-printable encoding. What the encoding does
/// not allow is passed over.
pub fn decode_mail(content: &[u8]) -> (r: Option<Vec<u8>>)
    ensures
        r matches Some(bytes) && outside::quoted_printable_bytes(content@, true) == Some(bytes@),
{
    outside::decode_quoted_printable(content, true)
}

/// Lists the lines of mail that match, once it is decoded. Lines are missing at
/// the end only where the flag was found set before the first of them.
pub fn scan_mail(matcher: &TermMatcher, content: &[u8], quit: &AtomicBool) -> (r: Vec<SearchEntry>)
    ensures
        outside::quoted_printable_bytes(content@, true) matches Some(bytes) && {
            let all = entries_in(matcher.patterns(), matcher.flags(), bytes);
            &&& r@.len() <= all.len()
            &&& search::entry_views(r@) == all.take(r@.len() as int)
            &&& r@.len() < all.len() ==> search::was_read_as(quit, true)
            &&& r@.len() > 0 ==> search::was_read_as(quit, false)
            &&& are_faithful(
                matcher.patterns(),
                matcher.flags(),
                search::entry_views(r@),
                outside::matching_lines(
                    matcher.patterns(),
                    matcher.flags().0,
                    matcher.flags().1,
                    BINARY_BYTE,
                    bytes,
                ),
            )
        },
{
    match decode_mail(content) {
        Some(bytes) => scan_text(matcher, bytes.as_slice(), quit),
        None => Vec::new(),
    }
}

/// Where the search terms match in a path. A path that is not Unicode has no
/// matches.
pub open spec fn path_matches_of(
    patterns: Seq<Seq<char>>,
    flags: (bool, bool),
    path: Option<Seq<char>>,
) -> Seq<(usize, usize)> {
    match path {
        Some(path) => search::matches_from(patterns, flags, encode_utf8(path), 0),
        None => seq![],
    }
}

/// All matches in a path that is Unicode are found: the first match in its UTF-8
/// bytes, then each time the first behind the one before, until there is none. A
/// path that is not Unicode has none. Here each match lies where it was looked
/// for and is not empty.
pub proof fn lemma_path_matches(patterns: Seq<Seq<char>>, flags: (bool, bool), path: Seq<char>)
    requires
        forall|from: int|
            0 <= from <= encode_utf8(path).len() ==> match #[trigger] outside::first_match(
                patterns,
                flags.0,
                flags.1,
                encode_utf8(path),
                from,
            ) {
                Some(m) => from <= m.0 < m.1 <= encode_utf8(path).len(),
                None => true,
            },
    ensures
        ({
            let found = path_matches_of(patterns, flags, Some(path));
            &&& found.len() == 0 <==> outside::first_match(
                patterns,
                flags.0,
                flags.1,
                encode_utf8(path),
                0,
            ) is None
            &&& found.len() > 0 ==> outside::first_match(
                patterns,
                flags.0,
                flags.1,
                encode_utf8(path),
                0,
            ) == Some(found[0])
            &&& forall|i: int, j: int|
                0 <= i && j == i + 1 && j < found.len() ==> outside::first_match(
                    patterns,
                    flags.0,
                    flags.1,
                    encode_utf8(path),
                    (#[trigger] found[i]).1 as int,
                ) == Some(#[trigger] found[j])
            &&& found.len() > 0 ==> outside::first_match(
                patterns,
                flags.0,
                flags.1,
                encode_utf8(path),
                found.last().1 as int,
            ) is None
        }),
        path_matches_of(patterns, flags, None).len() == 0,
{
    search::lemma_matches_from(patterns, flags, encode_utf8(path), 0);
}

/// What is reported of a file whose content is read, from whatever source: a
/// result if and only if there are lines or matches in the path, and it holds
/// all of them and the time.
pub proof fn lemma_content_reported(
    path: Seq<char>,
    path_matches: Seq<(usize, usize)>,
    source: ContentSource,
    entries: Seq<search::EntryView>,
    modified_at: Option<Timestamp>,
)
    requires
        source != ContentSource::Nothing,
    ensures
        ({
            let report = report_of(path, path_matches, source, entries, modified_at);
            &&& report is Some <==> entries.len() > 0 || path_matches.len() > 0
            &&& report matches Some(result) ==> {
                &&& result.path == path
                &&& result.path_matches == path_matches
                &&& result.entries == entries
                &&& result.modified_at == modified_at
            }
        }),
{
}

/// What is reported of a file: nothing where neither its path nor its content
/// matched. Of a file whose content is not read, neither lines nor the time are
/// reported.
pub open spec fn report_of(
    path: Seq<char>,
    path_matches: Seq<(usize, usize)>,
    source: ContentSource,
    entries: Seq<search::EntryView>,
    modified_at: Option<Timestamp>,
) -> Option<search::ResultView> {
    let (lines, time): (Seq<search::EntryView>, Option<Timestamp>) = if source
        == ContentSource::Nothing {
        (seq![], None)
    } else {
        (entries, modified_at)
    };
    if path_matches.len() == 0 && lines.len() == 0 {
        None
    } else {
        Some(search::ResultView { path, path_matches, entries: lines, modified_at: time })
    }
}

/// A search for names alone reports a file if and only if its path matches, with
/// no lines and no time, whatever the file holds.
pub proof fn lemma_names_only(
    extension: Option<Seq<char>>,
    path: Seq<char>,
    path_matches: Seq<(usize, usize)>,
    entries: Seq<search::EntryView>,
    modified_at: Option<Timestamp>,
    other_entries: Seq<search::EntryView>,
    other_time: Option<Timestamp>,
)
    ensures
        ({
            let source = source_of(SearchMode::FileNameOnly, extension);
            let report = report_of(path, path_matches, source, entries, modified_at);
            &&& report == report_of(path, path_matches, source, other_entries, other_time)
            &&& report is Some <==> path_matches.len() > 0
            &&& report matches Some(result) ==> {
                &&& result.path == path
                &&& result.path_matches == path_matches
                &&& result.entries.len() == 0
                &&& result.modified_at is None
            }
        }),
{
}

/// A file while it is searched.
pub struct FileScan {
    /// The path as it is reported.
    pub path: String,
    /// Where the search terms match in the path.
    pub path_matches: Vec<(usize, usize)>,
    /// How the content is read.
    pub source: ContentSource,
}

impl FileScan {
    /// Looks for the search terms in the path of a file and decides how its
    /// content is read. The path is given where it is Unicode, and as it is
    /// reported.
    pub fn begin(
        matcher: &TermMatcher,
        mode: SearchMode,
        unicode_path: Option<&str>,
        extension: Option<&str>,
        path: String,
    ) -> (r: Self)
        ensures
            r.path == path,
            r.path_matches@ == path_matches_of(
                matcher.patterns(),
                matcher.flags(),
                match unicode_path {
                    Some(unicode_path) => Some(unicode_path@),
                    None => None,
                },
            ),
            unicode_path matches Some(unicode_path) ==> search::are_disjoint_ranges(
                r.path_matches@,
                encode_utf8(unicode_path@).len() as int,
            ),
            unicode_path is None ==> r.path_matches@.len() == 0,
            unicode_path matches Some(unicode_path) ==> {
                &&& r.path_matches@.len() == 0 <==> outside::first_match(
                    matcher.patterns(),
                    matcher.flags().0,
                    matcher.flags().1,
                    encode_utf8(unicode_path@),
                    0,
                ) is None
                &&& r.path_matches@.len() > 0 ==> outside::first_match(
                    matcher.patterns(),
                    matcher.flags().0,
                    matcher.flags().1,
                    encode_utf8(unicode_path@),
                    0,
                ) == Some(r.path_matches@[0])
                &&& forall|i: int, j: int|
                    0 <= i && j == i + 1 && j < r.path_matches@.len() ==> outside::first_match(
                        matcher.patterns(),
                        matcher.flags().0,
                        matcher.flags().1,
                        encode_utf8(unicode_path@),
                        (#[trigger] r.path_matches@[i]).1 as int,
                    ) == Some(#[trigger] r.path_matches@[j])
                &&& r.path_matches@.len() > 0 ==> outside::first_match(
                    matcher.patterns(),
                    matcher.flags().0,
                    matcher.flags().1,
                    encode_utf8(unicode_path@),
                    r.path_matches@.last().1 as int,
                ) is None
            },
            unicode_path matches Some(unicode_path) ==> layout::fits_text(
                unicode_path@,
                r.path_matches@,
            ),
            r.source == source_of(
                mode,
                match extension {
                    Some(extension) => Some(extension@),
                    None => None,
                },
            ),
    {
        let path_matches: Vec<(usize, usize)> = match unicode_path {
            Some(unicode_path) => matcher.find_all(unicode_path.as_bytes()),
            None => Vec::new(),
        };
        proof {
            if let Some(unicode_path) = unicode_path {
                layout::lemma_texts_fit(unicode_path@, path_matches@);
            }
        }
        FileScan { path, path_matches, source: content_source(mode, extension) }
    }

    /// Reports the file, where its path or its content matched. Of a file whose
    /// content is not read, neither lines nor the time are reported.
    pub fn finish(self, entries: Vec<SearchEntry>, modified_at: Option<Timestamp>) -> (r: Option<
        SearchResult,
    >)
        ensures
            ({
                let report = report_of(
                    self.path@,
                    self.path_matches@,
                    self.source,
                    search::entry_views(entries@),
                    modified_at,
                );
                match r {
                    Some(result) => report == Some(result@),
                    None => report is None,
                }
            }),
            r is Some <==> self.path_matches@.len() > 0 || (self.source != ContentSource::Nothing
                && entries@.len() > 0),
            r matches Some(result) ==> {
                &&& (*result.path)@ == self.path@
                &&& (*result.path_matches)@ == self.path_matches@
                &&& self.source != ContentSource::Nothing ==> result.entries@ == entries@
                    && result.modified_at == modified_at
                &&& self.source == ContentSource::Nothing ==> result.entries@.len() == 0
                    && result.modified_at is None
            },
    {
        let (lines, time): (Vec<SearchEntry>, Option<Timestamp>) = if self.source
            == ContentSource::Nothing {
            (Vec::new(), None)
        } else {
            (entries, modified_at)
        };
        assert(self.source == ContentSource::Nothing ==> search::entry_views(lines@) =~= seq![]);
        if lines.is_empty() && self.path_matches.is_empty() {
            return None;
        }
        Some(
            SearchResult {
                path: outside::share_text(self.path),
                path_matches: outside::share_ranges(self.path_matches),
                entries: lines,
                modified_at: time,
            },
        )
    }

    /// Goes on with the pages of a PDF document.
    pub fn into_pages(self, modified_at: Option<Timestamp>) -> (r: PdfReport)
        ensures
            r@ == (PdfView {
                path: self.path@,
                path_matches: self.path_matches@,
                modified_at,
                reported_any: false,
            }),
            (*r.path)@ == self.path@,
            (*r.path_matches)@ == self.path_matches@,
            r.modified_at == modified_at,
            !r.reported_any,
    {
        PdfReport::new(self.path, self.path_matches, modified_at)
    }
}

/// What is known of a PDF document while its pages are searched, apart from how
/// it is stored.
pub ghost struct PdfView {
    pub path: Seq<char>,
    pub path_matches: Seq<(usize, usize)>,
    pub modified_at: Option<Timestamp>,
    pub reported_any: bool,
}

impl PdfView {
    /// The result for the document with these lines.
    pub open spec fn result(self, entries: Seq<search::EntryView>) -> search::ResultView {
        search::ResultView {
            path: self.path,
            path_matches: self.path_matches,
            entries,
            modified_at: self.modified_at,
        }
    }

    /// What is reported of a page.
    pub open spec fn page_result(self, entries: Seq<search::EntryView>) -> Option<search::ResultView> {
        if entries.len() > 0 {
            Some(self.result(entries))
        } else {
            None
        }
    }

    /// What is known after a page.
    pub open spec fn after_page(self, entries: Seq<search::EntryView>) -> PdfView {
        PdfView { reported_any: self.reported_any || entries.len() > 0, ..self }
    }

    /// What is reported after the last page.
    pub open spec fn last_result(self) -> Option<search::ResultView> {
        if !self.reported_any && self.path_matches.len() > 0 {
            Some(self.result(seq![]))
        } else {
            None
        }
    }

    /// All that is reported of a document with these pages, in order.
    pub open spec fn all_results(self, pages: Seq<Seq<search::EntryView>>) -> Seq<search::ResultView>
        decreases pages.len(),
    {
        if pages.len() == 0 {
            match self.last_result() {
                Some(result) => seq![result],
                None => seq![],
            }
        } else {
            let rest = self.after_page(pages[0]).all_results(pages.drop_first());
            match self.page_result(pages[0]) {
                Some(result) => seq![result] + rest,
                None => rest,
            }
        }
    }
}

/// A PDF document while its pages are searched.
pub struct PdfReport {
    pub path: Arc<str>,
    pub path_matches: Arc<[(usize, usize)]>,
    pub modified_at: Option<Timestamp>,
    /// Whether a page was reported.
    pub reported_any: bool,
}

impl View for PdfReport {
    type V = PdfView;

    open spec fn view(&self) -> PdfView {
        PdfView {
            path: (*self.path)@,
            path_matches: (*self.path_matches)@,
            modified_at: self.modified_at,
            reported_any: self.reported_any,
        }
    }
}

impl PdfReport {
    /// A document of which no page was searched yet.
    pub fn new(
        path: String,
        path_matches: Vec<(usize, usize)>,
        modified_at: Option<Timestamp>,
    ) -> (r: Self)
        ensures
            r@ == (PdfView {
                path: path@,
                path_matches: path_matches@,
                modified_at,
                reported_any: false,
            }),
            (*r.path)@ == path@,
            (*r.path_matches)@ == path_matches@,
            r.modified_at == modified_at,
            !r.reported_any,
    {
        PdfReport {
            path: outside::share_text(path),
            path_matches: outside::share_ranges(path_matches),
            modified_at,
            reported_any: false,
        }
    }

    /// Reports a page with the lines that match in it, if there are any.
    pub fn page(&mut self, entries: Vec<SearchEntry>) -> (r: Option<SearchResult>)
        ensures
            final(self)@ == old(self)@.after_page(search::entry_views(entries@)),
            match r {
                Some(result) => old(self)@.page_result(search::entry_views(entries@)) == Some(
                    result@,
                ),
                None => old(self)@.page_result(search::entry_views(entries@)) is None,
            },
            r is Some <==> entries@.len() > 0,
            r matches Some(result) ==> {
                &&& (*result.path)@ == (*old(self).path)@
                &&& (*result.path_matches)@ == (*old(self).path_matches)@
                &&& result.entries@ == entries@
                &&& result.modified_at == old(self).modified_at
            },
            (*final(self).path)@ == (*old(self).path)@,
            (*final(self).path_matches)@ == (*old(self).path_matches)@,
            final(self).modified_at == old(self).modified_at,
            final(self).reported_any == (old(self).reported_any || entries@.len() > 0),
    {
        if entries.is_empty() {
            return None;
        }
        self.reported_any = true;
        Some(
            SearchResult {
                path: Arc::clone(&self.path),
                path_matches: Arc::clone(&self.path_matches),
                entries,
                modified_at: self.modified_at,
            },
        )
    }

    /// Reports the document after its last page, if its path matched and no
    /// page was reported.
    pub fn finish(self) -> (r: Option<SearchResult>)
        ensures
            match r {
                Some(result) => self@.last_result() == Some(result@),
                None => self@.last_result() is None,
            },
            r is Some <==> !self.reported_any && (*self.path_matches)@.len() > 0,
            r matches Some(result) ==> {
                &&& (*result.path)@ == (*self.path)@
                &&& (*result.path_matches)@ == (*self.path_matches)@
                &&& result.entries@.len() == 0
                &&& result.modified_at == self.modified_at
            },
    {
        let has_path_matches: bool = {
            let ranges: &[(usize, usize)] = &self.path_matches;
            ranges.len() > 0
        };
        if self.reported_any || !has_path_matches {
            return None;
        }
        let entries: Vec<SearchEntry> = Vec::new();
        assert(search::entry_views(entries@) =~= seq![]);
        Some(
            SearchResult {
                path: self.path,
                path_matches: self.path_matches,
                entries,
                modified_at: self.modified_at,
            },
        )
    }
}

/// What is reported of a document, page by page: each page with lines, with
/// exactly these, and after the last page the document itself, without lines,
/// where its path matches and no page was reported.
pub proof fn lemma_pages(
    report: PdfView,
    entries: Seq<search::EntryView>,
    pages: Seq<Seq<search::EntryView>>,
)
    ensures
        report.page_result(entries) is Some <==> entries.len() > 0,
        report.page_result(entries) matches Some(result) ==> {
            &&& result.path == report.path
            &&& result.path_matches == report.path_matches
            &&& result.entries == entries
            &&& result.modified_at == report.modified_at
        },
        report.after_page(entries).path == report.path,
        report.after_page(entries).path_matches == report.path_matches,
        report.after_page(entries).modified_at == report.modified_at,
        report.after_page(entries).reported_any == (report.reported_any || entries.len() > 0),
        report.last_result() is Some <==> !report.reported_any && report.path_matches.len() > 0,
        report.last_result() matches Some(result) ==> {
            &&& result.path == report.path
            &&& result.path_matches == report.path_matches
            &&& result.entries.len() == 0
            &&& result.modified_at == report.modified_at
        },
        pages.len() == 0 ==> report.all_results(pages) == match report.last_result() {
            Some(result) => seq![result],
            None => seq![],
        },
        report.all_results(seq![entries] + pages) == match report.page_result(entries) {
            Some(result) => seq![result],
            None => seq![],
        } + report.after_page(entries).all_results(pages),
{
    let all = seq![entries] + pages;
    assert(all.drop_first() =~= pages);
    assert(all[0] == entries);
    let rest = report.after_page(entries).all_results(pages);
    assert(Seq::<search::ResultView>::empty() + rest =~= rest);
}

/// Every result that is reported of a document has lines or a matching path,
/// and a document none of whose pages was reported before is reported if and
/// only if its path matches or one of its pages has lines.
pub proof fn lemma_pdf_results(report: PdfView, pages: Seq<Seq<search::EntryView>>)
    ensures
        forall|i: int|
            #![trigger report.all_results(pages)[i]]
            0 <= i < report.all_results(pages).len() ==> {
                let result = report.all_results(pages)[i];
                result.entries.len() > 0 || result.path_matches.len() > 0
            },
        !report.reported_any ==> (report.all_results(pages).len() > 0 <==> {
            ||| report.path_matches.len() > 0
            ||| exists|i: int| 0 <= i < pages.len() && (#[trigger] pages[i]).len() > 0
        }),
    decreases pages.len(),
{
    let all = report.all_results(pages);
    if pages.len() > 0 {
        let next = report.after_page(pages[0]);
        let rest = next.all_results(pages.drop_first());
        lemma_pdf_results(next, pages.drop_first());
        assert forall|i: int|
            #![trigger all[i]]
            0 <= i < all.len() implies all[i].entries.len() > 0 || all[i].path_matches.len()
            > 0 by {
            if pages[0].len() == 0 {
                assert(all[i] == rest[i]);
            } else if i > 0 {
                assert(all[i] == rest[i - 1]);
            }
        }
        if !report.reported_any && pages[0].len() == 0 {
            if exists|i: int| 0 <= i < pages.len() && (#[trigger] pages[i]).len() > 0 {
                let i = choose|i: int| 0 <= i < pages.len() && (#[trigger] pages[i]).len() > 0;
                assert(pages.drop_first()[i - 1] == pages[i]);
            }
            if exists|i: int|
                0 <= i < pages.drop_first().len() && (#[trigger] pages.drop_first()[i]).len() > 0 {
                let i = choose|i: int|
                    0 <= i < pages.drop_first().len() && (#[trigger] pages.drop_first()[i]).len()
                        > 0;
                assert(pages[i + 1] == pages.drop_first()[i]);
            }
        }
    }
}

} // verus!
