//! The search configuration, the matcher for its terms and the lines that
//! match.

use std::sync::atomic::{AtomicBool, Ordering};
use std::sync::mpsc;
use std::sync::mpsc::TryRecvError;
use std::sync::Arc;
use std::time::{Duration, Instant};

use grep::regex::RegexMatcher;
use ignore::overrides::{Override, OverrideBuilder};
use vstd::prelude::*;

use crate::boundary;
use crate::outside;
use crate::snippet;
use crate::text;

verus! {

/// The number of matches that are looked for in one line.
pub const MAX_LINE_MATCHES: usize = 5;

/// A moment as the seconds since the start of 1970, rounded down, and the
/// nanoseconds on top of them.
#[derive(Clone, Copy, Debug, PartialEq, Eq, Structural)]
pub struct Timestamp {
    pub secs: i64,
    pub nanos: u32,
}

/// The number of nanoseconds in a second.
pub const SECOND_NANOS: u32 = 1_000_000_000;

impl Timestamp {
    /// The moment counts less than a second on top of its seconds.
    pub open spec fn wf(&self) -> bool {
        self.nanos < SECOND_NANOS
    }

    /// The moment in nanoseconds since the start of 1970.
    pub open spec fn total_nanos(&self) -> int {
        self.secs * SECOND_NANOS + self.nanos
    }

    /// The moment so long after the start of 1970.
    pub fn after_epoch(secs: u64, nanos: u32) -> (r: Self)
        requires
            secs <= i64::MAX,
            nanos < SECOND_NANOS,
        ensures
            r.wf(),
            r.total_nanos() == secs * SECOND_NANOS + nanos,
            r.secs == secs,
            r.nanos == nanos,
    {
        Timestamp { secs: secs as i64, nanos }
    }

    /// The moment so long before the start of 1970.
    pub fn before_epoch(secs: u64, nanos: u32) -> (r: Self)
        requires
            secs < i64::MAX,
            nanos < SECOND_NANOS,
        ensures
            r.wf(),
            r.total_nanos() == -(secs * SECOND_NANOS + nanos),
            r.nanos < 1_000_000_000,
            r.secs * 1_000_000_000 + r.nanos == -(secs * 1_000_000_000 + nanos),
    {
        let whole: i64 = secs as i64;
        if nanos == 0 {
            Timestamp { secs: -whole, nanos: 0 }
        } else {
            Timestamp { secs: -whole - 1, nanos: SECOND_NANOS - nanos }
        }
    }
}

/// A moment is so many whole seconds and so many nanoseconds after the start of
/// 1970.
pub proof fn lemma_total_nanos(time: Timestamp)
    ensures
        time.total_nanos() == time.secs * 1_000_000_000 + time.nanos,
        time.wf() <==> time.nanos < 1_000_000_000,
{
}

/// What a line that matched is, apart from how it is stored.
pub ghost struct EntryView {
    pub line_number: u64,
    pub text: Seq<char>,
    pub matches: Seq<(usize, usize)>,
}

/// A single line of a file that matched.
#[derive(Debug)]
pub struct SearchEntry {
    /// The number of the line, counted from 1.
    pub line_number: u64,
    /// The text of the line, possibly cut at its ends.
    pub text: Arc<str>,
    /// Where the search terms match in the text, as ranges of bytes.
    pub matches: Arc<[(usize, usize)]>,
}

impl View for SearchEntry {
    type V = EntryView;

    open spec fn view(&self) -> EntryView {
        EntryView {
            line_number: self.line_number,
            text: (*self.text)@,
            matches: (*self.matches)@,
        }
    }
}

/// The lines apart from how they are stored.
pub open spec fn entry_views(entries: Seq<SearchEntry>) -> Seq<EntryView> {
    entries.map_values(|entry: SearchEntry| entry@)
}

/// What the result for a file is, apart from how it is stored.
pub ghost struct ResultView {
    pub path: Seq<char>,
    pub path_matches: Seq<(usize, usize)>,
    pub entries: Seq<EntryView>,
    pub modified_at: Option<Timestamp>,
}

/// All that was found in a single file.
#[derive(Debug)]
pub struct SearchResult {
    /// The canonical path of the file.
    pub path: Arc<str>,
    /// Where the search terms match in the path, as ranges of bytes.
    pub path_matches: Arc<[(usize, usize)]>,
    /// The lines of the file that matched.
    pub entries: Vec<SearchEntry>,
    /// When the file was last modified.
    pub modified_at: Option<Timestamp>,
}

impl View for SearchResult {
    type V = ResultView;

    open spec fn view(&self) -> ResultView {
        ResultView {
            path: (*self.path)@,
            path_matches: (*self.path_matches)@,
            entries: entry_views(self.entries@),
            modified_at: self.modified_at,
        }
    }
}

/// A line is its number, its text and its matches.
pub proof fn lemma_entry_views(entries: Seq<SearchEntry>)
    ensures
        entry_views(entries).len() == entries.len(),
        forall|i: int|
            0 <= i < entries.len() ==> {
                &&& (#[trigger] entry_views(entries)[i]).line_number == entries[i].line_number
                &&& entry_views(entries)[i].text == (*entries[i].text)@
                &&& entry_views(entries)[i].matches == (*entries[i].matches)@
            },
{
}

/// A result is its path, the matches in it, its lines and its time.
pub proof fn lemma_result_view(result: SearchResult)
    ensures
        result@.path == (*result.path)@,
        result@.path_matches == (*result.path_matches)@,
        result@.entries.len() == result.entries@.len(),
        forall|i: int|
            0 <= i < result.entries@.len() ==> {
                &&& (#[trigger] result@.entries[i]).line_number == result.entries@[i].line_number
                &&& result@.entries[i].text == (*result.entries@[i].text)@
                &&& result@.entries[i].matches == (*result.entries@[i].matches)@
            },
        result@.modified_at == result.modified_at,
{
    lemma_entry_views(result.entries@);
}

/// A scan of a file that failed.
#[derive(Debug)]
pub struct SearchError;

/// Why a search could not be started.
#[derive(Debug)]
pub enum SpawnError {
    /// There is no search term that is not blank.
    NoSearchTerms,
    /// The search terms do not compile into a matcher.
    Matcher(grep::regex::Error),
    /// There is no path to search.
    NoSearchPaths,
}

impl SpawnError {
    /// What is said of the error, but for the terms that do not compile: these
    /// come with an error of their own.
    pub fn text(&self) -> (r: Option<&'static str>)
        ensures
            match (*self, r) {
                (SpawnError::NoSearchTerms, Some(said)) => said@ == "No search terms"@,
                (SpawnError::NoSearchPaths, Some(said)) => said@ == "No search paths provided"@,
                (SpawnError::Matcher(_), None) => true,
                _ => false,
            },
    {
        match self {
            SpawnError::NoSearchTerms => Some("No search terms"),
            SpawnError::NoSearchPaths => Some("No search paths provided"),
            SpawnError::Matcher(_) => None,
        }
    }
}

/// All matches of the patterns in the haystack from the given offset on: the
/// first one, then those from its end on.
pub open spec fn matches_from(
    patterns: Seq<Seq<char>>,
    flags: (bool, bool),
    haystack: Seq<u8>,
    at: int,
) -> Seq<(usize, usize)>
    decreases haystack.len() - at,
{
    match outside::first_match(patterns, flags.0, flags.1, haystack, at) {
        Some(m) if at < m.1 <= haystack.len() => seq![m] + matches_from(
            patterns,
            flags,
            haystack,
            m.1 as int,
        ),
        _ => seq![],
    }
}

/// The first elements of the sequence, as many as there are up to the limit.
pub open spec fn at_most<A>(s: Seq<A>, limit: int) -> Seq<A> {
    if s.len() <= limit {
        s
    } else {
        s.take(limit)
    }
}

/// The ranges are not empty, lie within the length and follow one another
/// without overlap.
pub open spec fn are_disjoint_ranges(ranges: Seq<(usize, usize)>, len: int) -> bool {
    &&& forall|i: int| 0 <= i < ranges.len() ==> (#[trigger] ranges[i]).0 < ranges[i].1 <= len
    &&& forall|i: int, j: int|
        0 <= i < j < ranges.len() ==> (#[trigger] ranges[i]).1 <= (#[trigger] ranges[j]).0
}

/// A matcher for search terms, none of which is empty, by smart case and by
/// Unicode.
pub struct TermMatcher {
    matcher: RegexMatcher,
}

impl TermMatcher {
    #[verifier::type_invariant]
    spec fn has_literals(&self) -> bool {
        outside::are_literals(self.patterns()) && self.flags() == (true, true)
    }

    /// The patterns that it looks for.
    pub closed spec fn patterns(&self) -> Seq<Seq<char>> {
        outside::matcher_patterns(self.matcher)
    }

    /// Whether it goes by smart case and by Unicode.
    pub closed spec fn flags(&self) -> (bool, bool) {
        outside::matcher_flags(self.matcher)
    }

    /// The underlying matcher.
    pub fn compiled(&self) -> (r: &RegexMatcher)
        ensures
            outside::matcher_patterns(*r) == self.patterns(),
            outside::matcher_flags(*r) == self.flags(),
    {
        &self.matcher
    }

    /// Finds matches in the haystack from left to right, up to the limit. Each is
    /// the first match behind the one before it, and where there are fewer than
    /// the limit, there is none behind the last.
    pub fn find_up_to(&self, haystack: &[u8], limit: usize) -> (r: Vec<(usize, usize)>)
        ensures
            r@.len() <= limit,
            r@.len() > 0 ==> outside::first_match(
                self.patterns(),
                self.flags().0,
                self.flags().1,
                haystack@,
                0,
            ) == Some(r@[0]),
            forall|i: int, j: int|
                0 <= i && j == i + 1 && j < r@.len() ==> outside::first_match(
                    self.patterns(),
                    self.flags().0,
                    self.flags().1,
                    haystack@,
                    (#[trigger] r@[i]).1 as int,
                ) == Some(#[trigger] r@[j]),
            r@.len() < limit ==> outside::first_match(
                self.patterns(),
                self.flags().0,
                self.flags().1,
                haystack@,
                if r@.len() == 0 {
                    0
                } else {
                    r@.last().1 as int
                },
            ) is None,
            r@ == at_most(
                matches_from(self.patterns(), self.flags(), haystack@, 0),
                limit as int,
            ),
            are_disjoint_ranges(r@, haystack@.len() as int),
            boundary::are_texts(haystack@, r@),
    {
        let mut r: Vec<(usize, usize)> = Vec::new();
        let mut at: usize = 0;
        let mut done: bool = limit == 0;
        let ghost all = matches_from(self.patterns(), self.flags(), haystack@, 0);
        assert(r@ + all =~= all);
        while !done
            invariant
                at <= haystack@.len(),
                all == matches_from(self.patterns(), self.flags(), haystack@, 0),
                !done ==> r@.len() < limit,
                !done ==> all == r@ + matches_from(
                    self.patterns(),
                    self.flags(),
                    haystack@,
                    at as int,
                ),
                done ==> r@ == at_most(all, limit as int),
                are_disjoint_ranges(r@, haystack@.len() as int),
                boundary::are_texts(haystack@, r@),
                r@.len() <= limit,
                at == if r@.len() == 0 {
                    0
                } else {
                    r@.last().1
                },
                r@.len() > 0 ==> outside::first_match(
                    self.patterns(),
                    self.flags().0,
                    self.flags().1,
                    haystack@,
                    0,
                ) == Some(r@[0]),
                forall|i: int, j: int|
                    0 <= i && j == i + 1 && j < r@.len() ==> outside::first_match(
                        self.patterns(),
                        self.flags().0,
                        self.flags().1,
                        haystack@,
                        (#[trigger] r@[i]).1 as int,
                    ) == Some(#[trigger] r@[j]),
                done && r@.len() < limit ==> outside::first_match(
                    self.patterns(),
                    self.flags().0,
                    self.flags().1,
                    haystack@,
                    at as int,
                ) is None,
                forall|i: int| 0 <= i < r@.len() ==> (#[trigger] r@[i]).1 <= at,
            decreases haystack@.len() - at, (if done { 0int } else { 1int }),
        {
            proof {
                use_type_invariant(self);
            }
            match outside::find_at(&self.matcher, haystack, at) {
                Some(m) => {
                    let ghost before = r@;
                    let ghost rest = matches_from(
                        self.patterns(),
                        self.flags(),
                        haystack@,
                        m.1 as int,
                    );
                    r.push(m);
                    at = m.1;
                    assert forall|i: int, j: int| 0 <= i && j == i + 1 && j < r@.len() implies outside::first_match(
                        self.patterns(),
                        self.flags().0,
                        self.flags().1,
                        haystack@,
                        (#[trigger] r@[i]).1 as int,
                    ) == Some(#[trigger] r@[j]) by {
                        assert(r@[i] == before[i]);
                        if j < before.len() {
                            assert(r@[j] == before[j]);
                        }
                    }
                    assert(before + (seq![m] + rest) =~= r@ + rest);
                    if r.len() >= limit {
                        done = true;
                        assert((r@ + rest).take(limit as int) =~= r@);
                        assert(rest.len() == 0 ==> r@ + rest =~= r@);
                    }
                },
                None => {
                    done = true;
                    assert(r@ + Seq::<(usize, usize)>::empty() =~= r@);
                },
            }
        }
        r
    }

    /// Finds all matches in the haystack from left to right. Each is the first
    /// match behind the one before it, and there is none behind the last.
    pub fn find_all(&self, haystack: &[u8]) -> (r: Vec<(usize, usize)>)
        ensures
            r@.len() > 0 ==> outside::first_match(
                self.patterns(),
                self.flags().0,
                self.flags().1,
                haystack@,
                0,
            ) == Some(r@[0]),
            forall|i: int, j: int|
                0 <= i && j == i + 1 && j < r@.len() ==> outside::first_match(
                    self.patterns(),
                    self.flags().0,
                    self.flags().1,
                    haystack@,
                    (#[trigger] r@[i]).1 as int,
                ) == Some(#[trigger] r@[j]),
            outside::first_match(
                self.patterns(),
                self.flags().0,
                self.flags().1,
                haystack@,
                if r@.len() == 0 {
                    0
                } else {
                    r@.last().1 as int
                },
            ) is None,
            r@ == matches_from(self.patterns(), self.flags(), haystack@, 0),
            are_disjoint_ranges(r@, haystack@.len() as int),
            boundary::are_texts(haystack@, r@),
    {
        proof {
            lemma_match_count(self.patterns(), self.flags(), haystack@, 0);
        }
        let r: Vec<(usize, usize)> = self.find_up_to(haystack, haystack.len());
        if r.len() == haystack.len() {
            proof {
                use_type_invariant(self);
                lemma_ranges_fill(r@, haystack@.len() as int);
            }
            let rest: Option<(usize, usize)> = outside::find_at(
                &self.matcher,
                haystack,
                haystack.len(),
            );
            assert(rest is None);
        }
        r
    }
}

/// Ranges that are not empty and do not overlap take up a byte each.
proof fn lemma_ranges_fill(ranges: Seq<(usize, usize)>, len: int)
    requires
        are_disjoint_ranges(ranges, len),
    ensures
        forall|i: int| 0 <= i < ranges.len() ==> i < (#[trigger] ranges[i]).1 <= len,
    decreases ranges.len(),
{
    if ranges.len() > 0 {
        let rest = ranges.drop_last();
        assert(forall|i: int| 0 <= i < rest.len() ==> rest[i] == ranges[i]);
        lemma_ranges_fill(rest, len);
        let last = ranges.len() - 1;
        assert forall|i: int| 0 <= i < ranges.len() implies i < (#[trigger] ranges[i]).1 <= len by {
            if i < last {
                assert(rest[i] == ranges[i]);
            } else if i > 0 {
                assert(rest[i - 1] == ranges[i - 1]);
                assert(ranges[i - 1].1 <= ranges[i].0);
            }
        }
    }
}

/// The matches from an offset on are all that there are: the first is the first
/// match from there, each next one the first match behind the one before it, and
/// there is none behind the last. Here each match lies where it was looked for
/// and is not empty.
pub proof fn lemma_matches_from(
    patterns: Seq<Seq<char>>,
    flags: (bool, bool),
    haystack: Seq<u8>,
    at: int,
)
    requires
        0 <= at <= haystack.len(),
        forall|from: int|
            0 <= from <= haystack.len() ==> match #[trigger] outside::first_match(
                patterns,
                flags.0,
                flags.1,
                haystack,
                from,
            ) {
                Some(m) => from <= m.0 < m.1 <= haystack.len(),
                None => true,
            },
    ensures
        ({
            let found = matches_from(patterns, flags, haystack, at);
            &&& found.len() > 0 ==> outside::first_match(
                patterns,
                flags.0,
                flags.1,
                haystack,
                at,
            ) == Some(found[0])
            &&& forall|i: int, j: int|
                0 <= i && j == i + 1 && j < found.len() ==> outside::first_match(
                    patterns,
                    flags.0,
                    flags.1,
                    haystack,
                    (#[trigger] found[i]).1 as int,
                ) == Some(#[trigger] found[j])
            &&& outside::first_match(
                patterns,
                flags.0,
                flags.1,
                haystack,
                if found.len() == 0 {
                    at
                } else {
                    found.last().1 as int
                },
            ) is None
        }),
    decreases haystack.len() - at,
{
    let found = matches_from(patterns, flags, haystack, at);
    match outside::first_match(patterns, flags.0, flags.1, haystack, at) {
        Some(m) => {
            let rest = matches_from(patterns, flags, haystack, m.1 as int);
            lemma_matches_from(patterns, flags, haystack, m.1 as int);
            assert(found == seq![m] + rest);
            assert forall|i: int, j: int| 0 <= i && j == i + 1 && j < found.len() implies outside::first_match(
                patterns,
                flags.0,
                flags.1,
                haystack,
                (#[trigger] found[i]).1 as int,
            ) == Some(#[trigger] found[j]) by {
                assert(found[j] == rest[i]);
                if i > 0 {
                    assert(found[i] == rest[i - 1]);
                }
            }
            if rest.len() > 0 {
                assert(found.last() == rest.last());
            }
        },
        None => {},
    }
}

/// As many of the first elements are kept as there are, up to the limit.
pub proof fn lemma_at_most<A>(s: Seq<A>, limit: int)
    requires
        limit >= 0,
    ensures
        at_most(s, limit).len() <= limit,
        at_most(s, limit).len() < limit ==> at_most(s, limit).len() == s.len(),
        at_most(s, limit).len() <= s.len(),
        forall|i: int| 0 <= i < at_most(s, limit).len() ==> #[trigger] at_most(s, limit)[i] == s[i],
{
}

/// There are no more matches than bytes.
proof fn lemma_match_count(patterns: Seq<Seq<char>>, flags: (bool, bool), haystack: Seq<u8>, at: int)
    requires
        0 <= at <= haystack.len(),
    ensures
        matches_from(patterns, flags, haystack, at).len() <= haystack.len() - at,
    decreases haystack.len() - at,
{
    match outside::first_match(patterns, flags.0, flags.1, haystack, at) {
        Some(m) if at < m.1 <= haystack.len() => {
            lemma_match_count(patterns, flags, haystack, m.1 as int);
        },
        _ => {},
    }
}

/// The line as it is listed, with its first matches.
pub open spec fn entry_for(
    patterns: Seq<Seq<char>>,
    flags: (bool, bool),
    line_number: Option<u64>,
    bytes: Seq<u8>,
) -> EntryView {
    listed_line(
        line_number,
        bytes,
        at_most(matches_from(patterns, flags, bytes, 0), MAX_LINE_MATCHES as int),
    )
}

/// The entry shows the line as it is, with its first matches.
pub open spec fn lists_faithfully(
    patterns: Seq<Seq<char>>,
    flags: (bool, bool),
    entry: EntryView,
    bytes: Seq<u8>,
) -> bool {
    snippet::is_faithful(
        entry.text,
        entry.matches,
        bytes,
        at_most(matches_from(patterns, flags, bytes, 0), MAX_LINE_MATCHES as int),
    )
}

/// The line as it is listed with the given matches.
pub open spec fn listed_line(
    line_number: Option<u64>,
    bytes: Seq<u8>,
    matches: Seq<(usize, usize)>,
) -> EntryView {
    EntryView {
        line_number: match line_number {
            Some(n) => n,
            None => 0,
        },
        text: snippet::shown_text(bytes, matches),
        matches: snippet::shown_matches(bytes, matches),
    }
}

/// The entry for a line has its number, 0 where it has none, and shows it with
/// its first five matches: the first match, then each time the first behind the
/// one before, fewer than five only where there is none behind the last. Here
/// each match lies where it was looked for and is not empty.
pub proof fn lemma_entry_for(
    patterns: Seq<Seq<char>>,
    flags: (bool, bool),
    line_number: Option<u64>,
    bytes: Seq<u8>,
) -> (found: Seq<(usize, usize)>)
    requires
        forall|from: int|
            0 <= from <= bytes.len() ==> match #[trigger] outside::first_match(
                patterns,
                flags.0,
                flags.1,
                bytes,
                from,
            ) {
                Some(m) => from <= m.0 < m.1 <= bytes.len(),
                None => true,
            },
    ensures
        ({
            let entry = entry_for(patterns, flags, line_number, bytes);
            &&& entry.line_number == match line_number {
                Some(n) => n,
                None => 0,
            }
            &&& entry.text == snippet::shown_text(bytes, found)
            &&& entry.matches == snippet::shown_matches(bytes, found)
            &&& forall|entry: EntryView| #[trigger]
                lists_faithfully(patterns, flags, entry, bytes) <==> snippet::is_faithful(
                    entry.text,
                    entry.matches,
                    bytes,
                    found,
                )
            &&& found.len() <= 5
            &&& found.len() > 0 ==> outside::first_match(patterns, flags.0, flags.1, bytes, 0)
                == Some(found[0])
            &&& forall|i: int, j: int|
                0 <= i && j == i + 1 && j < found.len() ==> outside::first_match(
                    patterns,
                    flags.0,
                    flags.1,
                    bytes,
                    (#[trigger] found[i]).1 as int,
                ) == Some(#[trigger] found[j])
            &&& found.len() < 5 ==> outside::first_match(
                patterns,
                flags.0,
                flags.1,
                bytes,
                if found.len() == 0 {
                    0
                } else {
                    found.last().1 as int
                },
            ) is None
        }),
{
    let all = matches_from(patterns, flags, bytes, 0);
    lemma_matches_from(patterns, flags, bytes, 0);
    lemma_at_most(all, 5);
    let found = at_most(all, 5);
    assert forall|i: int, j: int| 0 <= i && j == i + 1 && j < found.len() implies outside::first_match(
        patterns,
        flags.0,
        flags.1,
        bytes,
        (#[trigger] found[i]).1 as int,
    ) == Some(#[trigger] found[j]) by {
        assert(found[i] == all[i]);
        assert(found[j] == all[j]);
    }
    if found.len() > 0 {
        assert(found[0] == all[0]);
    }
    if found.len() < 5 {
        assert(found =~= all);
    }
    found
}

/// The line as it is listed has its number, 0 where it has none, and shows the
/// given matches.
pub proof fn lemma_listed_line(
    line_number: Option<u64>,
    bytes: Seq<u8>,
    matches: Seq<(usize, usize)>,
)
    ensures
        listed_line(line_number, bytes, matches).line_number == match line_number {
            Some(n) => n,
            None => 0,
        },
        listed_line(line_number, bytes, matches).text == snippet::shown_text(bytes, matches),
        listed_line(line_number, bytes, matches).matches == snippet::shown_matches(bytes, matches),
{
}

/// Makes the entry for a line out of its number, its bytes and the matches
/// found in it.
pub fn list_line(line_number: Option<u64>, bytes: &[u8], matches: Vec<(usize, usize)>) -> (r: SearchEntry)
    requires
        are_disjoint_ranges(matches@, bytes@.len() as int),
    ensures
        r@ == listed_line(line_number, bytes@, matches@),
        r.line_number == match line_number {
            Some(n) => n,
            None => 0,
        },
        (*r.text)@ == snippet::shown_text(bytes@, matches@),
        (*r.matches)@ == snippet::shown_matches(bytes@, matches@),
        boundary::are_texts(bytes@, matches@) ==> snippet::is_faithful(
            r@.text,
            r@.matches,
            bytes@,
            matches@,
        ),
{
    let number: u64 = match line_number {
        Some(n) => n,
        None => 0,
    };
    let (shown, ranges) = snippet::snippet(bytes, &matches);
    SearchEntry {
        line_number: number,
        text: outside::share_text(shown),
        matches: outside::share_ranges(ranges),
    }
}

/// The value is an outcome of reading the flag. It takes a read that gave the
/// value to show this.
pub open spec fn was_read_as(flag: &AtomicBool, value: bool) -> bool {
    call_ensures(AtomicBool::load, (flag, Ordering::Relaxed), value)
}

/// The flag is read by loading it.
pub proof fn lemma_was_read_as(flag: &AtomicBool, value: bool)
    ensures
        was_read_as(flag, value) <==> call_ensures(
            AtomicBool::load,
            (flag, Ordering::Relaxed),
            value,
        ),
{
}

/// Gathers the lines of a file that match.
pub struct SearchSink<'a> {
    /// The lines gathered so far.
    pub results: Vec<SearchEntry>,
    /// The matcher that finds where the terms stand in a line.
    pub matcher: &'a TermMatcher,
    /// The flag that asks the search to stop.
    pub quit: &'a AtomicBool,
}

impl<'a> SearchSink<'a> {
    /// A sink that has gathered nothing yet.
    pub fn new(matcher: &'a TermMatcher, quit: &'a AtomicBool) -> (r: Self)
        ensures
            r.results@ == Seq::<SearchEntry>::empty(),
            r.matcher == matcher,
            r.quit == quit,
    {
        SearchSink { results: Vec::new(), matcher, quit }
    }

    /// Reads the flag that asks the search to stop.
    fn is_stopped(&self) -> (r: bool)
        ensures
            was_read_as(self.quit, r),
    {
        self.quit.load(Ordering::Relaxed)
    }

    /// Takes in one line that matches and says whether the scan goes on. Once
    /// the search is asked to stop, the line is left out and the scan ends.
    pub fn record(&mut self, stopped: bool, line_number: Option<u64>, bytes: &[u8]) -> (r: bool)
        ensures
            r == !stopped,
            final(self).matcher == old(self).matcher,
            final(self).quit == old(self).quit,
            stopped ==> final(self).results@ == old(self).results@,
            !stopped ==> {
                &&& final(self).results@.len() == old(self).results@.len() + 1
                &&& final(self).results@.drop_last() == old(self).results@
                &&& final(self).results@.last()@ == entry_for(
                    old(self).matcher.patterns(),
                    old(self).matcher.flags(),
                    line_number,
                    bytes@,
                )
                &&& lists_faithfully(
                    old(self).matcher.patterns(),
                    old(self).matcher.flags(),
                    final(self).results@.last()@,
                    bytes@,
                )
                &&& exists|found: Seq<(usize, usize)>|
                    {
                        let patterns = old(self).matcher.patterns();
                        let flags = old(self).matcher.flags();
                        let entry = final(self).results@.last();
                        &&& #[trigger] found.len() <= 5
                        &&& found.len() > 0 ==> outside::first_match(
                            patterns,
                            flags.0,
                            flags.1,
                            bytes@,
                            0,
                        ) == Some(found[0])
                        &&& forall|i: int, j: int|
                            0 <= i && j == i + 1 && j < found.len() ==> outside::first_match(
                                patterns,
                                flags.0,
                                flags.1,
                                bytes@,
                                (#[trigger] found[i]).1 as int,
                            ) == Some(#[trigger] found[j])
                        &&& found.len() < 5 ==> outside::first_match(
                            patterns,
                            flags.0,
                            flags.1,
                            bytes@,
                            if found.len() == 0 {
                                0
                            } else {
                                found.last().1 as int
                            },
                        ) is None
                        &&& entry.line_number == match line_number {
                            Some(n) => n,
                            None => 0,
                        }
                        &&& (*entry.text)@ == snippet::shown_text(bytes@, found)
                        &&& (*entry.matches)@ == snippet::shown_matches(bytes@, found)
                    }
            },
    {
        if stopped {
            return false;
        }
        let matches: Vec<(usize, usize)> = self.matcher.find_up_to(bytes, MAX_LINE_MATCHES);
        let ghost found = matches@;
        assert(found.len() <= 5);
        let entry: SearchEntry = list_line(line_number, bytes, matches);
        self.results.push(entry);
        assert(self.results@.drop_last() =~= old(self).results@);
        true
    }

    /// Takes in one line that matches, unless the search was asked to stop: the
    /// line is left out if and only if the flag was found set.
    pub fn matched(&mut self, line_number: Option<u64>, bytes: &[u8]) -> (r: Result<bool, SearchError>)
        ensures
            r matches Ok(goes_on) && was_read_as(old(self).quit, !goes_on),
            final(self).matcher == old(self).matcher,
            final(self).quit == old(self).quit,
            r == Ok::<bool, SearchError>(false) ==> final(self).results@ == old(self).results@,
            r == Ok::<bool, SearchError>(true) ==> {
                &&& final(self).results@.len() == old(self).results@.len() + 1
                &&& final(self).results@.drop_last() == old(self).results@
                &&& final(self).results@.last()@ == entry_for(
                    old(self).matcher.patterns(),
                    old(self).matcher.flags(),
                    line_number,
                    bytes@,
                )
                &&& lists_faithfully(
                    old(self).matcher.patterns(),
                    old(self).matcher.flags(),
                    final(self).results@.last()@,
                    bytes@,
                )
                &&& exists|found: Seq<(usize, usize)>|
                    {
                        let patterns = old(self).matcher.patterns();
                        let flags = old(self).matcher.flags();
                        let entry = final(self).results@.last();
                        &&& #[trigger] found.len() <= 5
                        &&& found.len() > 0 ==> outside::first_match(
                            patterns,
                            flags.0,
                            flags.1,
                            bytes@,
                            0,
                        ) == Some(found[0])
                        &&& forall|i: int, j: int|
                            0 <= i && j == i + 1 && j < found.len() ==> outside::first_match(
                                patterns,
                                flags.0,
                                flags.1,
                                bytes@,
                                (#[trigger] found[i]).1 as int,
                            ) == Some(#[trigger] found[j])
                        &&& found.len() < 5 ==> outside::first_match(
                            patterns,
                            flags.0,
                            flags.1,
                            bytes@,
                            if found.len() == 0 {
                                0
                            } else {
                                found.last().1 as int
                            },
                        ) is None
                        &&& entry.line_number == match line_number {
                            Some(n) => n,
                            None => 0,
                        }
                        &&& (*entry.text)@ == snippet::shown_text(bytes@, found)
                        &&& (*entry.matches)@ == snippet::shown_matches(bytes@, found)
                    }
            },
    {
        let stopped: bool = self.is_stopped();
        Ok(self.record(stopped, line_number, bytes))
    }
}

/// A search that runs in the background.
pub struct PendingSearch {
    /// Where the results come in.
    rx: mpsc::Receiver<SearchResult>,
    /// The flag that asks the search to stop.
    quit: Arc<AtomicBool>,
    /// When the search was started.
    start_time: Instant,
}

impl PendingSearch {
    /// Where the results come in.
    pub closed spec fn receiver(&self) -> mpsc::Receiver<SearchResult> {
        self.rx
    }

    /// The flag that asks the search to stop.
    pub closed spec fn flag(&self) -> Arc<AtomicBool> {
        self.quit
    }

    /// When the search was started.
    pub closed spec fn start(&self) -> Instant {
        self.start_time
    }

    /// The flag that asks the search to stop was set.
    pub closed spec fn stop_asked(&self) -> bool {
        call_ensures(outside::store_flag, (&*self.quit, true), ())
    }

    /// A search that starts now and whose results come in through the channel.
    pub fn new(rx: mpsc::Receiver<SearchResult>) -> (r: Self)
        ensures
            r.receiver() == rx,
            call_ensures(AtomicBool::new, (false,), *r.flag()),
            call_ensures(Instant::now, (), r.start()),
    {
        PendingSearch { rx, quit: Arc::new(AtomicBool::new(false)), start_time: Instant::now() }
    }

    /// The flag that asks the search to stop, to be shared with its threads.
    pub fn quit_flag(&self) -> (r: Arc<AtomicBool>)
        ensures
            r == self.flag(),
    {
        Arc::clone(&self.quit)
    }

    /// Asks all threads of the search to stop.
    pub fn signal_stop(&self)
        ensures
            self.stop_asked(),
        opens_invariants none
        no_unwind
    {
        outside::store_flag(&self.quit, true);
    }

    /// How long the search has been running: the time from its start to now.
    pub fn elapsed(&self) -> (r: Duration)
        ensures
            call_ensures(Instant::elapsed, (&self.start(),), r),
    {
        self.start_time.elapsed()
    }

    /// Takes a result that has come in, without waiting for one: whatever the
    /// channel of the search gives.
    pub fn try_recv(&self) -> (r: Result<SearchResult, TryRecvError>)
        ensures
            call_ensures(
                mpsc::Receiver::<SearchResult>::try_recv,
                (&self.receiver(),),
                r,
            ),
    {
        self.rx.try_recv()
    }
}

/// A search was asked to stop by setting its flag.
pub(crate) proof fn lemma_stop_asked(search: PendingSearch)
    ensures
        search.stop_asked() <==> call_ensures(outside::store_flag, (&*search.flag(), true), ()),
{
}

/// A search that is no longer held by anyone is asked to stop.
impl Drop for PendingSearch {
    fn drop(&mut self)
        ensures
            final(self).stop_asked(),
        opens_invariants none
        no_unwind
    {
        self.signal_stop();
    }
}

/// A single search term as it was typed.
#[derive(Debug, Clone)]
pub struct SearchQuery {
    pub query: String,
}

impl SearchQuery {
    /// An empty search term.
    pub fn new() -> (r: Self)
        ensures
            r.query@ == Seq::<char>::empty(),
    {
        SearchQuery { query: String::new() }
    }
}

impl Default for SearchQuery {
    fn default() -> (r: Self)
        ensures
            r.query@ == Seq::<char>::empty(),
    {
        SearchQuery::new()
    }
}

/// What is searched of a file.
#[derive(Debug, Clone, Copy, PartialEq, Eq, Structural)]
pub enum SearchMode {
    /// The path, and the content as text.
    PathAndContent,
    /// The path alone.
    FileNameOnly,
    /// The path, and the content as text or as a document.
    IncludeDocContent,
}

impl SearchMode {
    /// The name under which the mode is offered.
    pub fn label(&self) -> (r: &'static str)
        ensures
            *self == SearchMode::FileNameOnly ==> r@ == "파일명만"@,
            *self == SearchMode::PathAndContent ==> r@ == "파일명 + 텍스트"@,
            *self == SearchMode::IncludeDocContent ==> r@ == "파일명 + 텍스트 + 문서내용"@,
    {
        match self {
            SearchMode::FileNameOnly => "파일명만",
            SearchMode::PathAndContent => "파일명 + 텍스트",
            SearchMode::IncludeDocContent => "파일명 + 텍스트 + 문서내용",
        }
    }
}

impl Default for SearchMode {
    fn default() -> (r: Self)
        ensures
            r == SearchMode::PathAndContent,
    {
        SearchMode::PathAndContent
    }
}

/// Everything that a search is made of.
#[derive(Debug, Clone)]
pub struct SearchConfig {
    /// The directories to search.
    pub paths: Vec<String>,
    /// Glob lines, separated by white space, that pick the files.
    pub patterns: String,
    /// The search terms.
    pub queries: Vec<SearchQuery>,
    /// What is searched of a file.
    pub mode: SearchMode,
}

impl Default for SearchConfig {
    fn default() -> (r: Self)
        ensures
            r.paths@ == Seq::<String>::empty(),
            r.patterns@ == Seq::<char>::empty(),
            r.queries@ == Seq::<SearchQuery>::empty(),
            r.mode == SearchMode::PathAndContent,
    {
        SearchConfig {
            paths: Vec::new(),
            patterns: String::new(),
            queries: Vec::new(),
            mode: SearchMode::default(),
        }
    }
}

/// The search terms: the queries without the white space around them, but for
/// those that are blank.
pub open spec fn terms_of(queries: Seq<SearchQuery>) -> Seq<Seq<char>>
    decreases queries.len(),
{
    if queries.len() == 0 {
        seq![]
    } else {
        let term = text::trimmed(queries.last().query@);
        if term.len() > 0 {
            terms_of(queries.drop_last()).push(term)
        } else {
            terms_of(queries.drop_last())
        }
    }
}

/// The patterns that stand for the terms, character by character.
pub open spec fn escaped_terms(terms: Seq<Seq<char>>) -> Seq<Seq<char>> {
    terms.map_values(|term: Seq<char>| outside::escaped(term))
}

/// The search terms are found by going through all queries in order: each that
/// is not blank gives one, the query without the white space around it.
pub proof fn lemma_terms(queries: Seq<SearchQuery>) -> (from: Seq<int>)
    ensures
        from.len() == terms_of(queries).len(),
        forall|k: int|
            0 <= k < from.len() ==> {
                &&& 0 <= #[trigger] from[k] < queries.len()
                &&& terms_of(queries)[k] == text::trimmed(queries[from[k]].query@)
                &&& terms_of(queries)[k].len() > 0
            },
        forall|k: int, l: int| 0 <= k < l < from.len() ==> #[trigger] from[k] < #[trigger] from[l],
        forall|i: int, c: int|
            0 <= i < queries.len() && 0 <= c < queries[i].query@.len() && !outside::white_space(
                #[trigger] queries[i].query@[c],
            ) ==> from.contains(i),
    decreases queries.len(),
{
    if queries.len() == 0 {
        seq![]
    } else {
        let rest = queries.drop_last();
        let last = queries.len() - 1;
        let query = queries.last().query@;
        let before = lemma_terms(rest);
        let kept = text::trimmed(query).len() > 0;
        let bounds = text::lemma_trimmed(query);
        let from = if kept {
            before.push(last)
        } else {
            before
        };
        assert forall|k: int| 0 <= k < from.len() implies {
            &&& 0 <= #[trigger] from[k] < queries.len()
            &&& terms_of(queries)[k] == text::trimmed(queries[from[k]].query@)
            &&& terms_of(queries)[k].len() > 0
        } by {
            if k < before.len() {
                assert(from[k] == before[k]);
                assert(rest[before[k]] == queries[before[k]]);
            }
        }
        assert forall|k: int, l: int| 0 <= k < l < from.len() implies #[trigger] from[k]
            < #[trigger] from[l] by {
            assert(from[k] == before[k]);
            if l < before.len() {
                assert(from[l] == before[l]);
            }
        }
        assert forall|i: int, c: int|
            0 <= i < queries.len() && 0 <= c < queries[i].query@.len() && !outside::white_space(
                #[trigger] queries[i].query@[c],
            ) implies from.contains(i) by {
            if i < last {
                assert(rest[i] == queries[i]);
                assert(!outside::white_space(rest[i].query@[c]));
                let k = choose|k: int| 0 <= k < before.len() && before[k] == i;
                assert(from[k] == i);
            } else {
                assert(bounds.0 <= c < bounds.1);
                assert(from[before.len() as int] == last);
            }
        }
        from
    }
}

/// There is one pattern for each term, which stands for it.
pub proof fn lemma_escaped_terms(terms: Seq<Seq<char>>)
    ensures
        escaped_terms(terms).len() == terms.len(),
        forall|i: int|
            0 <= i < terms.len() ==> #[trigger] escaped_terms(terms)[i] == outside::escaped(
                terms[i],
            ),
{
}

/// No term is empty.
pub proof fn lemma_terms_not_empty(queries: Seq<SearchQuery>)
    ensures
        forall|i: int| 0 <= i < terms_of(queries).len() ==> (#[trigger] terms_of(queries)[i]).len() > 0,
    decreases queries.len(),
{
    if queries.len() > 0 {
        let rest = terms_of(queries.drop_last());
        lemma_terms_not_empty(queries.drop_last());
        assert forall|i: int| 0 <= i < terms_of(queries).len() implies (#[trigger] terms_of(
            queries,
        )[i]).len() > 0 by {
            if i < rest.len() {
                assert(terms_of(queries)[i] == rest[i]);
            }
        }
    }
}

/// Windows system directories, left out of every search there.
pub open spec fn system_globs() -> Seq<Seq<char>> {
    seq!["!C:/Windows/**"@, "!C:/Program Files/**"@, "!C:/Program Files (x86)/**"@]
}

/// The glob lines of a search: the system directories on Windows, then the
/// words of the patterns.
pub open spec fn glob_lines_of(patterns: Seq<char>, windows: bool) -> Seq<Seq<char>> {
    if windows {
        system_globs() + text::words(patterns)
    } else {
        text::words(patterns)
    }
}

/// The glob lines are the words of the patterns, on Windows behind those that
/// leave out the system directories.
pub proof fn lemma_glob_lines_of(patterns: Seq<char>)
    ensures
        glob_lines_of(patterns, false) == text::words(patterns),
        glob_lines_of(patterns, true) == seq![
            "!C:/Windows/**"@,
            "!C:/Program Files/**"@,
            "!C:/Program Files (x86)/**"@,
        ] + text::words(patterns),
{
}

/// The lines that are kept are found by going through all lines in order: each
/// that parses and is no comment is kept, and no other.
pub proof fn lemma_parsing_lines(lines: Seq<Seq<char>>) -> (from: Seq<int>)
    ensures
        from.len() == parsing_lines(lines).len(),
        forall|k: int|
            0 <= k < from.len() ==> {
                &&& 0 <= #[trigger] from[k] < lines.len()
                &&& parsing_lines(lines)[k] == lines[from[k]]
                &&& outside::glob_parses(lines[from[k]]) && lines[from[k]][0] != '#'
            },
        forall|k: int, l: int| 0 <= k < l < from.len() ==> #[trigger] from[k] < #[trigger] from[l],
        forall|i: int|
            0 <= i < lines.len() && outside::glob_parses(#[trigger] lines[i]) && lines[i][0] != '#'
                ==> from.contains(i),
    decreases lines.len(),
{
    if lines.len() == 0 {
        seq![]
    } else {
        let rest = lines.drop_last();
        let last = lines.len() - 1;
        let before = lemma_parsing_lines(rest);
        let kept = outside::glob_parses(lines.last()) && lines.last()[0] != '#';
        let from = if kept {
            before.push(last)
        } else {
            before
        };
        assert forall|k: int| 0 <= k < from.len() implies {
            &&& 0 <= #[trigger] from[k] < lines.len()
            &&& parsing_lines(lines)[k] == lines[from[k]]
            &&& outside::glob_parses(lines[from[k]]) && lines[from[k]][0] != '#'
        } by {
            if k < before.len() {
                assert(from[k] == before[k]);
                assert(rest[before[k]] == lines[before[k]]);
            }
        }
        assert forall|k: int, l: int| 0 <= k < l < from.len() implies #[trigger] from[k]
            < #[trigger] from[l] by {
            assert(from[k] == before[k]);
            if l < before.len() {
                assert(from[l] == before[l]);
            }
        }
        assert forall|i: int|
            0 <= i < lines.len() && outside::glob_parses(#[trigger] lines[i]) && lines[i][0]
                != '#' implies from.contains(i) by {
            if i < last {
                assert(rest[i] == lines[i]);
                let k = choose|k: int| 0 <= k < before.len() && before[k] == i;
                assert(from[k] == i);
            } else {
                assert(from[before.len() as int] == last);
            }
        }
        from
    }
}

/// Each line is a comment or stands for a glob.
pub open spec fn are_override_lines(lines: Seq<Seq<char>>) -> bool {
    forall|i: int|
        0 <= i < lines.len() ==> {
            ||| outside::is_glob_line(#[trigger] lines[i])
            ||| lines[i].len() > 0 && lines[i][0] == '#'
        }
}

proof fn lemma_glob_lines(patterns: Seq<char>, windows: bool)
    ensures
        are_override_lines(glob_lines_of(patterns, windows)),
{
    let lines = glob_lines_of(patterns, windows);
    let words = text::words(patterns);
    text::lemma_words_are_words(patterns);
    reveal_strlit("!C:/Windows/**");
    reveal_strlit("!C:/Program Files/**");
    reveal_strlit("!C:/Program Files (x86)/**");
    assert forall|i: int| 0 <= i < lines.len() implies {
        ||| outside::is_glob_line(#[trigger] lines[i])
        ||| lines[i].len() > 0 && lines[i][0] == '#'
    } by {
        let first: int = if windows {
            3
        } else {
            0
        };
        if i >= first {
            assert(lines[i] == words[i - first]);
            assert(text::is_word(words[i - first]));
        }
    }
}

/// The lines that parse and are no comments.
pub open spec fn parsing_lines(lines: Seq<Seq<char>>) -> Seq<Seq<char>>
    decreases lines.len(),
{
    if lines.len() == 0 {
        seq![]
    } else if outside::glob_parses(lines.last()) && lines.last()[0] != '#' {
        parsing_lines(lines.drop_last()).push(lines.last())
    } else {
        parsing_lines(lines.drop_last())
    }
}

/// The paths with others added after them, each only where it is not there yet.
pub open spec fn with_paths(paths: Seq<Seq<char>>, added: Seq<Seq<char>>) -> Seq<Seq<char>>
    decreases added.len(),
{
    if added.len() == 0 {
        paths
    } else {
        let before = with_paths(paths, added.drop_last());
        if before.contains(added.last()) {
            before
        } else {
            before.push(added.last())
        }
    }
}

/// Adding paths keeps those that were there, in front and in order, and brings
/// in all the new ones and nothing else. Where no path was there twice, none
/// is.
pub proof fn lemma_with_paths(paths: Seq<Seq<char>>, added: Seq<Seq<char>>)
    ensures
        with_paths(paths, added).len() >= paths.len(),
        with_paths(paths, added).take(paths.len() as int) == paths,
        forall|path: Seq<char>| #[trigger]
            with_paths(paths, added).contains(path) <==> paths.contains(path) || added.contains(
                path,
            ),
        paths.no_duplicates() ==> with_paths(paths, added).no_duplicates(),
    decreases added.len(),
{
    let all = with_paths(paths, added);
    if added.len() > 0 {
        let rest = added.drop_last();
        let before = with_paths(paths, rest);
        lemma_with_paths(paths, rest);
        assert(all.take(paths.len() as int) =~= before.take(paths.len() as int));
        assert forall|path: Seq<char>| #[trigger] all.contains(path) <==> paths.contains(path)
            || added.contains(path) by {
            if added.contains(path) && path != added.last() {
                let k = choose|k: int| 0 <= k < added.len() && added[k] == path;
                assert(rest[k] == path);
                assert(rest.contains(path));
            }
            if rest.contains(path) {
                let k = choose|k: int| 0 <= k < rest.len() && rest[k] == path;
                assert(added[k] == path);
            }
            if before.contains(path) {
                let k = choose|k: int| 0 <= k < before.len() && before[k] == path;
                assert(all[k] == path);
            }
            if path == added.last() {
                assert(added[added.len() - 1] == path);
                assert(!before.contains(path) ==> all[before.len() as int] == path);
            }
            if all.contains(path) && path != added.last() {
                let k = choose|k: int| 0 <= k < all.len() && all[k] == path;
                assert(before[k] == path);
                assert(before.contains(path));
            }
        }
    } else {
        assert(paths.take(paths.len() as int) =~= paths);
    }
}

/// The paths that are added come in the order in which they were given, each
/// where it was given first.
pub proof fn lemma_added_paths(paths: Seq<Seq<char>>, added: Seq<Seq<char>>) -> (from: Seq<int>)
    ensures
        with_paths(paths, added).len() == paths.len() + from.len(),
        forall|k: int|
            0 <= k < from.len() ==> {
                &&& 0 <= #[trigger] from[k] < added.len()
                &&& with_paths(paths, added)[paths.len() + k] == added[from[k]]
                &&& !paths.contains(added[from[k]])
                &&& forall|i: int| 0 <= i < from[k] ==> #[trigger] added[i] != added[from[k]]
            },
        forall|k: int, l: int| 0 <= k < l < from.len() ==> #[trigger] from[k] < #[trigger] from[l],
    decreases added.len(),
{
    if added.len() == 0 {
        seq![]
    } else {
        let rest = added.drop_last();
        let last = added.len() - 1;
        let all = with_paths(paths, rest);
        let before = lemma_added_paths(paths, rest);
        lemma_with_paths(paths, rest);
        assert(forall|i: int| 0 <= i < rest.len() ==> rest[i] == added[i]);
        if all.contains(added.last()) {
            before
        } else {
            let from = before.push(last);
            assert forall|i: int| 0 <= i < last implies added[i] != added[last] by {
                assert(rest[i] == added[i]);
                assert(rest.contains(added[i]));
            }
            assert forall|k: int| 0 <= k < from.len() implies {
                &&& 0 <= #[trigger] from[k] < added.len()
                &&& with_paths(paths, added)[paths.len() + k] == added[from[k]]
                &&& !paths.contains(added[from[k]])
                &&& forall|i: int| 0 <= i < from[k] ==> #[trigger] added[i] != added[from[k]]
            } by {
                if k < before.len() {
                    assert(from[k] == before[k]);
                }
            }
            assert forall|k: int, l: int| 0 <= k < l < from.len() implies #[trigger] from[k]
                < #[trigger] from[l] by {
                assert(from[k] == before[k]);
                if l < before.len() {
                    assert(from[l] == before[l]);
                }
            }
            from
        }
    }
}

/// What a search needs before it can walk the directories.
pub struct SearchPlan {
    /// The matcher for the search terms.
    pub matcher: TermMatcher,
    /// What is searched of a file.
    pub mode: SearchMode,
    /// The directories to search.
    pub paths: Vec<String>,
}

impl SearchConfig {
    /// A configuration for these paths and patterns with one empty query.
    pub fn new(paths: Vec<String>, patterns: String) -> (r: Self)
        ensures
            r.paths == paths,
            r.patterns == patterns,
            r.queries@.len() == 1,
            r.queries@[0].query@ == Seq::<char>::empty(),
            r.mode == SearchMode::PathAndContent,
    {
        SearchConfig {
            paths,
            patterns,
            queries: vec![SearchQuery::new()],
            mode: SearchMode::PathAndContent,
        }
    }

    /// The directories to search, in order.
    pub fn paths(&self) -> (r: Vec<&str>)
        ensures
            r@.len() == self.paths@.len(),
            forall|i: int| 0 <= i < r@.len() ==> (#[trigger] r@[i])@ == self.paths@[i]@,
    {
        let mut r: Vec<&str> = Vec::new();
        for i in 0..self.paths.len()
            invariant
                r@.len() == i,
                forall|j: int| 0 <= j < i ==> (#[trigger] r@[j])@ == self.paths@[j]@,
        {
            r.push(self.paths[i].as_str());
        }
        r
    }

    /// Adds directories, each only where it is not there yet.
    pub fn add_paths(&mut self, folders: Vec<String>)
        ensures
            text::texts(final(self).paths@) == with_paths(
                text::texts(old(self).paths@),
                text::texts(folders@),
            ),
            final(self).patterns == old(self).patterns,
            final(self).queries == old(self).queries,
            final(self).mode == old(self).mode,
    {
        let ghost given = text::texts(self.paths@);
        let ghost added = text::texts(folders@);
        assert(added.take(0) =~= Seq::<Seq<char>>::empty());
        for i in 0..folders.len()
            invariant
                added == text::texts(folders@),
                text::texts(self.paths@) == with_paths(given, added.take(i as int)),
                self.patterns == old(self).patterns,
                self.queries == old(self).queries,
                self.mode == old(self).mode,
        {
            let ghost before = text::texts(self.paths@);
            let mut known: bool = false;
            for j in 0..self.paths.len()
                invariant
                    i < folders@.len(),
                    before == text::texts(self.paths@),
                    known <==> exists|k: int|
                        0 <= k < j && #[trigger] before[k] == folders@[i as int]@,
            {
                assert(before[j as int] == self.paths@[j as int]@);
                if self.paths[j] == folders[i] {
                    known = true;
                }
            }
            assert(known == before.contains(folders@[i as int]@));
            if !known {
                self.paths.push(folders[i].clone());
                assert(text::texts(self.paths@) =~= before.push(added[i as int]));
            }
            assert(added.take(i + 1).drop_last() =~= added.take(i as int));
        }
        assert(added.take(folders@.len() as int) =~= added);
    }

    /// Removes a directory, unless it is the only one, and says whether it did.
    pub fn remove_path(&mut self, index: usize) -> (r: bool)
        ensures
            r == (index < old(self).paths@.len() && old(self).paths@.len() > 1),
            final(self).paths@ == if r {
                old(self).paths@.remove(index as int)
            } else {
                old(self).paths@
            },
            final(self).patterns == old(self).patterns,
            final(self).queries == old(self).queries,
            final(self).mode == old(self).mode,
    {
        if index < self.paths.len() && self.paths.len() > 1 {
            let _ = self.paths.remove(index);
            true
        } else {
            false
        }
    }

    /// Where a dialog for directories starts: in the last directory, or in the
    /// given one where there is none.
    pub fn start_directory(&self, cwd: String) -> (r: String)
        ensures
            r@ == if self.paths@.len() > 0 {
                self.paths@.last()@
            } else {
                cwd@
            },
    {
        if self.paths.is_empty() {
            cwd
        } else {
            self.paths[self.paths.len() - 1].clone()
        }
    }

    /// The search terms.
    pub fn terms(&self) -> (r: Vec<String>)
        ensures
            text::texts(r@) == terms_of(self.queries@),
    {
        let mut r: Vec<String> = Vec::new();
        assert(self.queries@.take(0) =~= Seq::<SearchQuery>::empty());
        assert(text::texts(r@) =~= Seq::<Seq<char>>::empty());
        for i in 0..self.queries.len()
            invariant
                text::texts(r@) == terms_of(self.queries@.take(i as int)),
        {
            assert(self.queries@.take(i + 1).drop_last() =~= self.queries@.take(i as int));
            let term: &str = text::trim(self.queries[i].query.as_str());
            if !term.is_empty() {
                let ghost before = r@;
                r.push(term.to_owned());
                assert(text::texts(r@) =~= text::texts(before).push(term@));
            }
        }
        assert(self.queries@.take(self.queries@.len() as int) =~= self.queries@);
        r
    }

    /// The glob lines that pick the files.
    pub fn glob_lines(&self, windows: bool) -> (r: Vec<String>)
        ensures
            text::texts(r@) == glob_lines_of(self.patterns@, windows),
    {
        let mut r: Vec<String> = Vec::new();
        if windows {
            r.push("!C:/Windows/**".to_owned());
            r.push("!C:/Program Files/**".to_owned());
            r.push("!C:/Program Files (x86)/**".to_owned());
            assert(text::texts(r@) =~= system_globs());
        }
        let mut words: Vec<String> = text::split_whitespace(self.patterns.as_str());
        let ghost first = r@;
        let ghost second = words@;
        r.append(&mut words);
        assert(text::texts(r@) =~= text::texts(first) + text::texts(second));
        assert(!windows ==> text::texts(r@) =~= text::words(self.patterns@));
        r
    }

    /// Compiles the glob lines, without comments and those that do not parse,
    /// into the overrides for a walk. There are no overrides where they do not
    /// compile.
    pub fn overrides(&self, windows: bool) -> (r: Override)
        ensures
            ({
                let lines = parsing_lines(glob_lines_of(self.patterns@, windows));
                if outside::globs_compile(lines) {
                    &&& outside::override_lines(r) == lines
                    &&& lines.len() > 0 ==> outside::override_root(r) == "/"@
                } else {
                    outside::override_lines(r) == Seq::<Seq<char>>::empty()
                }
            }),
    {
        let lines: Vec<String> = self.glob_lines(windows);
        let ghost all = text::texts(lines@);
        proof {
            reveal_strlit("/");
            lemma_glob_lines(self.patterns@, windows);
        }
        let mut builder: OverrideBuilder = outside::new_override_builder("/");
        assert(all.take(0) =~= Seq::<Seq<char>>::empty());
        for i in 0..lines.len()
            invariant
                all == text::texts(lines@),
                are_override_lines(all),
                outside::builder_root(builder) == "/"@,
                outside::builder_lines(builder) == parsing_lines(all.take(i as int)),
        {
            assert(all.take(i + 1).drop_last() =~= all.take(i as int));
            assert(all[i as int] == lines@[i as int]@);
            let _ = outside::add_glob(&mut builder, lines[i].as_str());
        }
        assert(all.take(lines@.len() as int) =~= all);
        match outside::build_overrides(&builder) {
            Some(overrides) => overrides,
            None => outside::empty_overrides(),
        }
    }

    /// Compiles the search terms into one matcher for all of them.
    pub fn create_matcher(&self) -> (r: Result<TermMatcher, SpawnError>)
        ensures
            ({
                let terms = terms_of(self.queries@);
                match r {
                    Ok(matcher) => {
                        &&& terms.len() > 0
                        &&& outside::patterns_compile(escaped_terms(terms), true, true)
                        &&& matcher.patterns() == escaped_terms(terms)
                        &&& matcher.flags() == (true, true)
                    },
                    Err(SpawnError::NoSearchTerms) => terms.len() == 0,
                    Err(SpawnError::Matcher(_)) => {
                        &&& terms.len() > 0
                        &&& !outside::patterns_compile(escaped_terms(terms), true, true)
                    },
                    Err(SpawnError::NoSearchPaths) => false,
                }
            }),
    {
        let terms: Vec<String> = self.terms();
        let ghost all = terms_of(self.queries@);
        let mut literals: Vec<String> = Vec::new();
        for i in 0..terms.len()
            invariant
                all == text::texts(terms@),
                text::texts(literals@) =~= escaped_terms(all.take(i as int)),
        {
            let ghost before = literals@;
            literals.push(regex::escape(terms[i].as_str()));
            assert(text::texts(literals@) =~= text::texts(before).push(
                outside::escaped(all[i as int]),
            ));
        }
        assert(all.take(terms@.len() as int) =~= all);
        if literals.is_empty() {
            return Err(SpawnError::NoSearchTerms);
        }
        proof {
            let patterns = escaped_terms(all);
            lemma_terms_not_empty(self.queries@);
            assert forall|i: int| 0 <= i < patterns.len() implies outside::is_literal(
                #[trigger] patterns[i],
            ) by {
                assert(patterns[i] == outside::escaped(all[i]));
            }
        }
        match outside::build_literals(&literals, true, true) {
            Ok(matcher) => Ok(TermMatcher { matcher }),
            Err(error) => Err(SpawnError::Matcher(error)),
        }
    }

    /// Checks the configuration and gathers what a search needs. A
    /// configuration without terms is refused first, then one whose terms do
    /// not compile, then one without paths.
    pub fn plan(&self) -> (r: Result<SearchPlan, SpawnError>)
        ensures
            ({
                let terms = terms_of(self.queries@);
                let compiles = outside::patterns_compile(escaped_terms(terms), true, true);
                match r {
                    Ok(plan) => {
                        &&& terms.len() > 0
                        &&& compiles
                        &&& self.paths@.len() > 0
                        &&& plan.matcher.patterns() == escaped_terms(terms)
                        &&& plan.matcher.flags() == (true, true)
                        &&& plan.mode == self.mode
                        &&& text::texts(plan.paths@) == text::texts(self.paths@)
                    },
                    Err(SpawnError::NoSearchTerms) => terms.len() == 0,
                    Err(SpawnError::Matcher(_)) => terms.len() > 0 && !compiles,
                    Err(SpawnError::NoSearchPaths) => {
                        terms.len() > 0 && compiles && self.paths@.len() == 0
                    },
                }
            }),
    {
        let matcher: TermMatcher = match self.create_matcher() {
            Ok(matcher) => matcher,
            Err(error) => {
                return Err(error);
            },
        };
        if self.paths.is_empty() {
            return Err(SpawnError::NoSearchPaths);
        }
        let mut paths: Vec<String> = Vec::new();
        for i in 0..self.paths.len()
            invariant
                paths@.len() == i,
                forall|j: int| 0 <= j < i ==> (#[trigger] paths@[j])@ == self.paths@[j]@,
        {
            paths.push(self.paths[i].clone());
        }
        assert(text::texts(paths@) =~= text::texts(self.paths@));
        Ok(SearchPlan { matcher, mode: self.mode, paths })
    }
}

} // verus!
