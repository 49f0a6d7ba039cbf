//! The search tabs: what each of them is set to search, what it has found and
//! how that is listed.

use std::sync::mpsc::TryRecvError;
use std::sync::Arc;
use std::time::{Duration, Instant};

use vstd::prelude::*;
use vstd::string::*;
use vstd::utf8::*;

use crate::layout;
use crate::layout::TextSegment;
use crate::order;
use crate::outside;
use crate::search;
use crate::search::{
    PendingSearch, SearchConfig, SearchEntry, SearchResult, SpawnError, Timestamp,
};
use crate::text;

verus! {

/// The number of rows from which on a search is stopped.
pub const MAX_RESULTS: usize = 10_000;

/// How long results are taken in before the window is drawn again, in
/// nanoseconds.
pub const FRAME_BUDGET_NANOS: u128 = 10_000_000;

/// How long the input has to rest before a search is started, in nanoseconds.
pub const DEBOUNCE_NANOS: u128 = 250_000_000;

/// What the rows of one file have in common.
pub struct UiPathData {
    /// The canonical path of the file.
    pub path: Arc<str>,
    /// The path laid out, with its matches highlighted.
    pub path_layout: Vec<TextSegment>,
    /// When the file was last modified, as it is shown.
    pub formatted_date: String,
    /// When the file was last modified.
    pub modified_at: Option<Timestamp>,
}

/// A row of the list of results.
pub struct UiSearchEntry {
    /// What the rows of the file have in common.
    pub path_data: Arc<UiPathData>,
    /// The number of the line, or 0 for the path itself.
    pub line_number: u64,
    /// The line, or the path, laid out with its matches highlighted.
    pub layout: Vec<TextSegment>,
}

/// What a row is, apart from how it is stored.
pub ghost struct RowView {
    pub path: Seq<char>,
    pub path_layout: Seq<(Seq<char>, bool)>,
    pub formatted_date: Seq<char>,
    pub modified_at: Option<Timestamp>,
    pub line_number: u64,
    pub layout: Seq<(Seq<char>, bool)>,
}

impl View for UiSearchEntry {
    type V = RowView;

    open spec fn view(&self) -> RowView {
        RowView {
            path: (*self.path_data.path)@,
            path_layout: layout::segment_views(self.path_data.path_layout@),
            formatted_date: self.path_data.formatted_date@,
            modified_at: self.path_data.modified_at,
            line_number: self.line_number,
            layout: layout::segment_views(self.layout@),
        }
    }
}

/// The rows apart from how they are stored.
pub open spec fn row_views(rows: Seq<UiSearchEntry>) -> Seq<RowView> {
    rows.map_values(|row: UiSearchEntry| row@)
}

/// The row for a file with this line number and layout.
pub open spec fn row_for(
    result: search::ResultView,
    date: Seq<char>,
    line_number: u64,
    layout: Seq<(Seq<char>, bool)>,
) -> RowView {
    RowView {
        path: result.path,
        path_layout: layout::layout_of(result.path, result.path_matches),
        formatted_date: date,
        modified_at: result.modified_at,
        line_number,
        layout,
    }
}

/// The rows for the lines of a file that matched.
pub open spec fn line_rows(result: search::ResultView, date: Seq<char>) -> Seq<RowView> {
    result.entries.map_values(
        |entry: search::EntryView|
            row_for(
                result,
                date,
                entry.line_number,
                layout::layout_of(entry.text, entry.matches),
            ),
    )
}

/// The rows for a file: one for each line that matched, or one for the path
/// where only that matched.
pub open spec fn rows_for(result: search::ResultView, date: Seq<char>) -> Seq<RowView> {
    if result.entries.len() == 0 && result.path_matches.len() > 0 {
        seq![row_for(result, date, 0, layout::layout_of(result.path, result.path_matches))]
    } else {
        line_rows(result, date)
    }
}

/// Whether there is anything to list of a file.
pub open spec fn is_hit(result: search::ResultView) -> bool {
    result.entries.len() > 0 || result.path_matches.len() > 0
}

/// The results apart from how they are stored.
pub open spec fn result_views(results: Seq<SearchResult>) -> Seq<search::ResultView> {
    results.map_values(|result: SearchResult| result@)
}

/// The number of lines that matched in all files.
pub open spec fn line_count(results: Seq<search::ResultView>) -> nat
    decreases results.len(),
{
    if results.len() == 0 {
        0
    } else {
        line_count(results.drop_last()) + results.last().entries.len()
    }
}

/// The rows for all files, in order.
pub open spec fn all_rows(results: Seq<search::ResultView>, dates: Seq<Seq<char>>) -> Seq<RowView>
    decreases results.len(),
{
    if results.len() == 0 {
        seq![]
    } else {
        all_rows(results.drop_last(), dates.drop_last()) + rows_for(results.last(), dates.last())
    }
}

/// A row shows what it holds: the file that it belongs to, its line and how both
/// are laid out.
pub proof fn lemma_row_views(rows: Seq<UiSearchEntry>)
    ensures
        row_views(rows).len() == rows.len(),
        forall|i: int|
            0 <= i < rows.len() ==> {
                let view = #[trigger] row_views(rows)[i];
                let row = rows[i];
                &&& view.path == (*row.path_data.path)@
                &&& view.path_layout == layout::segment_views(row.path_data.path_layout@)
                &&& view.formatted_date == row.path_data.formatted_date@
                &&& view.modified_at == row.path_data.modified_at
                &&& view.line_number == row.line_number
                &&& view.layout == layout::segment_views(row.layout@)
            },
{
}

/// The rows for a file: one for each of its lines, in order, or one with line 0
/// for its path where only that matched. Each shows the path, the date and the
/// time of the file.
pub proof fn lemma_rows_for(result: search::ResultView, date: Seq<char>)
    ensures
        ({
            let rows = rows_for(result, date);
            let path_layout = layout::layout_of(result.path, result.path_matches);
            &&& result.entries.len() > 0 ==> rows.len() == result.entries.len()
            &&& result.entries.len() == 0 && result.path_matches.len() > 0 ==> rows.len() == 1
            &&& result.entries.len() == 0 && result.path_matches.len() == 0 ==> rows.len() == 0
            &&& forall|i: int|
                0 <= i < rows.len() ==> {
                    &&& (#[trigger] rows[i]).path == result.path
                    &&& rows[i].path_layout == path_layout
                    &&& rows[i].formatted_date == date
                    &&& rows[i].modified_at == result.modified_at
                    &&& result.entries.len() > 0 ==> {
                        &&& rows[i].line_number == result.entries[i].line_number
                        &&& rows[i].layout == layout::layout_of(
                            result.entries[i].text,
                            result.entries[i].matches,
                        )
                    }
                    &&& result.entries.len() == 0 ==> rows[i].line_number == 0 && rows[i].layout
                        == path_layout
                }
        }),
{
}

/// There is something to list of a file if and only if it has lines or matches in
/// its path, and the list takes no more of it from 10,000 rows on or where it
/// could not be counted.
pub proof fn lemma_takes_no_more(rows: nat, files: usize, lines: usize, result: search::ResultView)
    ensures
        is_hit(result) <==> result.entries.len() > 0 || result.path_matches.len() > 0,
        takes_no_more(rows, files, lines, result) <==> {
            ||| rows >= 10_000
            ||| (result.entries.len() > 0 || result.path_matches.len() > 0) && (files == usize::MAX
                || lines + result.entries.len() > usize::MAX)
        },
{
}

/// The lines and the rows of files are those of each file, one after another.
pub proof fn lemma_listed_files(
    results: Seq<search::ResultView>,
    dates: Seq<Seq<char>>,
    result: search::ResultView,
    date: Seq<char>,
)
    ensures
        line_count(seq![]) == 0,
        line_count(results.push(result)) == line_count(results) + result.entries.len(),
        all_rows(seq![], dates).len() == 0,
        all_rows(results.push(result), dates.push(date)) == all_rows(results, dates) + rows_for(
            result,
            date,
        ),
{
    assert(results.push(result).drop_last() =~= results);
    assert(dates.push(date).drop_last() =~= dates);
}

/// A result is taken for what it is, one after another.
pub proof fn lemma_result_views(results: Seq<SearchResult>)
    ensures
        result_views(results).len() == results.len(),
        forall|i: int| 0 <= i < results.len() ==> #[trigger] result_views(results)[i] == results[i]@,
{
}

/// Files that are worth listing give at least a row each, and a row for each
/// line that matched.
pub proof fn lemma_row_count(results: Seq<search::ResultView>, dates: Seq<Seq<char>>)
    requires
        forall|i: int| 0 <= i < results.len() ==> is_hit(#[trigger] results[i]),
    ensures
        all_rows(results, dates).len() >= results.len(),
        all_rows(results, dates).len() >= line_count(results),
    decreases results.len(),
{
    if results.len() > 0 {
        assert forall|i: int| 0 <= i < results.drop_last().len() implies is_hit(
            #[trigger] results.drop_last()[i],
        ) by {
            assert(results.drop_last()[i] == results[i]);
        }
        lemma_row_count(results.drop_last(), dates.drop_last());
        assert(is_hit(results[results.len() - 1]));
    }
}

/// The parts make up the text, and those that are highlighted are its matches.
pub open spec fn shows_exactly(
    parts: Seq<(Seq<char>, bool)>,
    text: Seq<char>,
    matches: Seq<(usize, usize)>,
) -> bool {
    &&& layout::whole_text(parts) == text
    &&& layout::highlighted_texts(parts) == matches.map_values(
        |m: (usize, usize)| decode_utf8(encode_utf8(text).subrange(m.0 as int, m.1 as int)),
    )
}

/// The rows for a file show its path and its lines in full, and highlight
/// exactly the matches in them, where these select whole characters without
/// overlap.
pub proof fn lemma_rows_exact(result: search::ResultView, date: Seq<char>)
    requires
        layout::fits_text(result.path, result.path_matches),
        forall|i: int|
            0 <= i < result.entries.len() ==> layout::fits_text(
                (#[trigger] result.entries[i]).text,
                result.entries[i].matches,
            ),
    ensures
        forall|i: int|
            0 <= i < rows_for(result, date).len() ==> {
                let row = #[trigger] rows_for(result, date)[i];
                let (text, matches) = if result.entries.len() > 0 {
                    (result.entries[i].text, result.entries[i].matches)
                } else {
                    (result.path, result.path_matches)
                };
                &&& shows_exactly(row.path_layout, result.path, result.path_matches)
                &&& shows_exactly(row.layout, text, matches)
            },
{
    let rows = rows_for(result, date);
    assert forall|i: int| 0 <= i < rows.len() implies {
        let row = #[trigger] rows[i];
        let (text, matches) = if result.entries.len() > 0 {
            (result.entries[i].text, result.entries[i].matches)
        } else {
            (result.path, result.path_matches)
        };
        &&& shows_exactly(row.path_layout, result.path, result.path_matches)
        &&& shows_exactly(row.layout, text, matches)
    } by {
        layout::lemma_layout(result.path, result.path_matches);
        if result.entries.len() > 0 {
            layout::lemma_layout(result.entries[i].text, result.entries[i].matches);
        }
    }
}

/// The time by which a row is sorted: when the file was last modified, or the
/// start of 1970 where that is not known.
pub open spec fn row_time(row: RowView) -> Timestamp {
    match row.modified_at {
        Some(time) => time,
        None => Timestamp { secs: 0, nanos: 0 },
    }
}

/// The times by which rows are sorted.
pub open spec fn row_times(rows: Seq<RowView>) -> Seq<Timestamp> {
    rows.map_values(|row: RowView| row_time(row))
}

/// The rows are those given, sorted by time in the given direction; rows of
/// equal time keep their order.
pub open spec fn is_sorted_from(given: Seq<RowView>, sorted: Seq<RowView>, ascending: bool) -> bool {
    &&& sorted.len() == given.len()
    &&& exists|indices: Seq<usize>| #[trigger]
        order::is_sorted_order(row_times(given), ascending, indices) && sorted
            == indices.map_values(|i: usize| given[i as int])
}

/// Sorted rows are the given ones, each once. Of two rows the one that comes first
/// is not the older one where the newest comes first, not the newer one where the
/// oldest does, and stood first where the times are equal. A row without a time
/// counts as one of the start of 1970.
pub proof fn lemma_sorted_rows(given: Seq<RowView>, sorted: Seq<RowView>, ascending: bool) -> (order: Seq<
    usize,
>)
    requires
        is_sorted_from(given, sorted, ascending),
    ensures
        order.len() == given.len(),
        sorted.len() == given.len(),
        forall|p: int|
            0 <= p < order.len() ==> #[trigger] order[p] < given.len() && sorted[p]
                == given[order[p] as int],
        forall|p: int, q: int|
            0 <= p < q < order.len() ==> {
                let a: (int, int) = match sorted[p].modified_at {
                    Some(time) => (time.secs as int, time.nanos as int),
                    None => (0, 0),
                };
                let b: (int, int) = match sorted[q].modified_at {
                    Some(time) => (time.secs as int, time.nanos as int),
                    None => (0, 0),
                };
                &&& #[trigger] order[p] != #[trigger] order[q]
                &&& ascending ==> a.0 < b.0 || (a.0 == b.0 && a.1 <= b.1)
                &&& !ascending ==> a.0 > b.0 || (a.0 == b.0 && a.1 >= b.1)
                &&& a == b ==> order[p] < order[q]
                &&& a.1 < 1_000_000_000 && b.1 < 1_000_000_000 ==> if ascending {
                    a.0 * 1_000_000_000 + a.1 <= b.0 * 1_000_000_000 + b.1
                } else {
                    a.0 * 1_000_000_000 + a.1 >= b.0 * 1_000_000_000 + b.1
                }
            },
{
    let times = row_times(given);
    let order = choose|order: Seq<usize>| #[trigger]
        order::is_sorted_order(times, ascending, order) && sorted == order.map_values(
            |i: usize| given[i as int],
        );
    order::lemma_is_sorted_order(times, ascending, order);
    assert forall|p: int| 0 <= p < order.len() implies #[trigger] order[p] < given.len()
        && sorted[p] == given[order[p] as int] && times[order[p] as int] == (
    match sorted[p].modified_at {
        Some(time) => time,
        None => Timestamp { secs: 0, nanos: 0 },
    }) by {
        assert(times[order[p] as int] == row_time(given[order[p] as int]));
    }
    order
}

/// The date is how the time of a file is shown: as it is formatted, or as a
/// dash where the time is not known.
pub open spec fn shows_date<F: Fn(Timestamp) -> String>(
    format_date: F,
    modified_at: Option<Timestamp>,
    date: Seq<char>,
) -> bool {
    match modified_at {
        Some(time) => exists|formatted: String|
            #[trigger] call_ensures(format_date, (time,), formatted) && date == formatted@,
        None => date == "-"@,
    }
}

/// A time is shown as it is formatted, and as a dash where it is not known.
pub proof fn lemma_shows_date<F: Fn(Timestamp) -> String>(
    format_date: F,
    modified_at: Option<Timestamp>,
    date: Seq<char>,
)
    requires
        shows_date(format_date, modified_at, date),
    ensures
        modified_at is None ==> date == "-"@,
        modified_at matches Some(time) ==> exists|formatted: String|
            #[trigger] call_ensures(format_date, (time,), formatted) && date == formatted@,
{
}

/// Sorting leaves no choice: the same rows are sorted in one way only.
pub proof fn lemma_sort_deterministic(given: Seq<RowView>, a: Seq<RowView>, b: Seq<RowView>, ascending: bool)
    requires
        is_sorted_from(given, a, ascending),
        is_sorted_from(given, b, ascending),
    ensures
        a == b,
{
    let times = row_times(given);
    let p = choose|p: Seq<usize>| #[trigger]
        order::is_sorted_order(times, ascending, p) && a == p.map_values(
            |i: usize| given[i as int],
        );
    let q = choose|q: Seq<usize>| #[trigger]
        order::is_sorted_order(times, ascending, q) && b == q.map_values(
            |i: usize| given[i as int],
        );
    order::lemma_sorted_order_unique(times, ascending, p, q);
}

/// Sorting rows that are sorted already changes nothing.
pub proof fn lemma_sort_idempotent(given: Seq<RowView>, once: Seq<RowView>, twice: Seq<RowView>, ascending: bool)
    requires
        given.len() <= usize::MAX,
        is_sorted_from(given, once, ascending),
        is_sorted_from(once, twice, ascending),
    ensures
        twice == once,
{
    let times = row_times(given);
    let sorted_times = row_times(once);
    let p = choose|p: Seq<usize>| #[trigger]
        order::is_sorted_order(times, ascending, p) && once == p.map_values(
            |i: usize| given[i as int],
        );
    let identity = Seq::new(once.len(), |i: int| i as usize);
    assert forall|i: int, j: int| 0 <= i < j < identity.len() implies order::precedes(
        sorted_times,
        ascending,
        #[trigger] identity[i] as int,
        #[trigger] identity[j] as int,
    ) by {
        assert(order::precedes(times, ascending, p[i] as int, p[j] as int));
    }
    assert forall|i: usize| i < sorted_times.len() implies #[trigger] identity.contains(i) by {
        assert(identity[i as int] == i);
    }
    assert(order::is_sorted_order(sorted_times, ascending, identity));
    assert(once =~= identity.map_values(|i: usize| once[i as int]));
    assert(is_sorted_from(once, once, ascending));
    lemma_sort_deterministic(once, twice, once, ascending);
}

/// Sorting the other way round and back again restores the list.
pub proof fn lemma_sort_toggled_twice(
    given: Seq<RowView>,
    first: Seq<RowView>,
    turned: Seq<RowView>,
    back: Seq<RowView>,
    ascending: bool,
)
    requires
        given.len() <= usize::MAX,
        is_sorted_from(given, first, ascending),
        is_sorted_from(first, turned, !ascending),
        is_sorted_from(turned, back, ascending),
    ensures
        back == first,
{
    let n = given.len();
    let descending = !ascending;
    let given_times = row_times(given);
    let times = row_times(first);
    let turned_times = row_times(turned);
    let p = choose|p: Seq<usize>| #[trigger]
        order::is_sorted_order(given_times, ascending, p) && first == p.map_values(
            |i: usize| given[i as int],
        );
    let q = choose|q: Seq<usize>| #[trigger]
        order::is_sorted_order(times, descending, q) && turned == q.map_values(
            |i: usize| first[i as int],
        );
    order::lemma_sorted_order_distinct(times, descending, q);
    let at = |i: int| choose|k: int| 0 <= k < n && q[k] == i as usize;
    let inverse = Seq::new(n, |i: int| at(i) as usize);
    assert forall|i: int| 0 <= i < n implies 0 <= at(i) < n && q[#[trigger] at(i)] == i by {
        assert(q.contains(i as usize));
    }
    assert forall|i: int| 0 <= i < n implies #[trigger] inverse[i] == at(i) by {
        assert(0 <= at(i) < n);
    }
    assert forall|k: usize| k < n implies #[trigger] inverse.contains(k) by {
        let i = q[k as int] as int;
        assert(q[at(i)] == i);
        assert(inverse[i] == k);
    }
    assert forall|i: int, j: int| 0 <= i < j < n implies order::precedes(
        turned_times,
        ascending,
        #[trigger] inverse[i] as int,
        #[trigger] inverse[j] as int,
    ) by {
        assert(order::precedes(given_times, ascending, p[i] as int, p[j] as int));
        assert(q[at(i)] == i && q[at(j)] == j);
        if times[i] == times[j] && at(j) < at(i) {
            assert(order::precedes(times, descending, q[at(j)] as int, q[at(i)] as int));
        }
    }
    assert(order::is_sorted_order(turned_times, ascending, inverse));
    assert forall|i: int| 0 <= i < n implies #[trigger] first[i] == turned[inverse[i] as int] by {
        assert(q[at(i)] == i);
    }
    assert(first =~= inverse.map_values(|i: usize| turned[i as int]));
    assert(is_sorted_from(turned, first, ascending));
    lemma_sort_deterministic(turned, back, first, ascending);
}

/// How it goes on after a look at what has come in.
#[derive(Clone, Copy, Debug, PartialEq, Eq, Structural)]
pub enum Receipt {
    /// There may be more.
    Next,
    /// Nothing more has come in yet.
    Pause,
    /// The list is full, and the search ends.
    Full,
    /// The search is over.
    Finished,
}

/// Whether the time for taking results in is over.
pub fn budget_spent(elapsed_nanos: u128) -> (r: bool)
    ensures
        r == (elapsed_nanos > FRAME_BUDGET_NANOS),
{
    elapsed_nanos > FRAME_BUDGET_NANOS
}

/// Whether the input has rested long enough for a search to be started.
pub fn debounce_over(elapsed_nanos: u128) -> (r: bool)
    ensures
        r == (elapsed_nanos > DEBOUNCE_NANOS),
{
    elapsed_nanos > DEBOUNCE_NANOS
}

/// What a tab is doing, as far as it is shown.
#[derive(Clone, Copy, Debug, PartialEq, Eq, Structural)]
pub enum TabStatus {
    /// Something went wrong.
    Failed,
    /// A search is running.
    Searching,
    /// The input has changed, and a search is about to start.
    Waiting,
    /// A search has found something.
    Done,
    /// There is nothing to tell.
    Idle,
}

impl TabStatus {
    /// The words that stand before the counts.
    pub fn label(&self) -> (r: &'static str)
        ensures
            r@ == match *self {
                TabStatus::Searching => "검색중: "@,
                TabStatus::Waiting => "대기중: "@,
                TabStatus::Done => "✅ 완료: "@,
                TabStatus::Failed => ""@,
                TabStatus::Idle => ""@,
            },
    {
        match self {
            TabStatus::Searching => "검색중: ",
            TabStatus::Waiting => "대기중: ",
            TabStatus::Done => "✅ 완료: ",
            TabStatus::Failed => "",
            TabStatus::Idle => "",
        }
    }
}

impl UiSearchEntry {
    /// The number of the line as it is shown, with a dash for the path itself.
    pub fn line_label(&self) -> (r: String)
        ensures
            r@ == if self.line_number > 0 {
                text::decimal(self.line_number as nat)
            } else {
                "-"@
            },
    {
        if self.line_number > 0 {
            text::decimal_text(self.line_number)
        } else {
            "-".to_owned()
        }
    }
}

/// A list with so many rows, files and lines takes no more of the result: it is
/// full, or counting the result would be more than can be counted.
pub open spec fn takes_no_more(
    rows: nat,
    files: usize,
    lines: usize,
    result: search::ResultView,
) -> bool {
    ||| rows >= MAX_RESULTS
    ||| is_hit(result) && files == usize::MAX
    ||| is_hit(result) && lines + result.entries.len() > usize::MAX
}

/// How the reading of what a search has found ended.
pub ghost enum ReadingEnd {
    /// Nothing more had come in.
    Empty,
    /// The search was over.
    Disconnected,
    /// The list took no more when this result came in.
    Full(SearchResult),
    /// So much time had passed since the reading started.
    OutOfTime(Duration),
    /// As many results were taken as can be counted.
    OutOfTurns,
}

/// The channel of the search gave this.
pub open spec fn gave(search: PendingSearch, outcome: Result<SearchResult, TryRecvError>) -> bool {
    call_ensures(PendingSearch::try_recv, (&search,), outcome)
}

/// There was time left for a look into the channel since the reading started.
pub open spec fn had_time(start: Instant) -> bool {
    exists|spent: Duration| #[trigger]
        call_ensures(Instant::elapsed, (&start,), spent) && outside::duration_nanos(spent)
            <= FRAME_BUDGET_NANOS
}

/// The reading that started at this moment ended in this way, when the list had
/// so many rows, files and lines and so many results had been taken. Where the
/// list was full, the search was asked to stop.
pub open spec fn reading_ends(
    search: PendingSearch,
    start: Instant,
    rows: nat,
    files: usize,
    lines: usize,
    taken: nat,
    end: ReadingEnd,
) -> bool {
    match end {
        ReadingEnd::Empty => had_time(start) && gave(search, Err(TryRecvError::Empty)),
        ReadingEnd::Disconnected => {
            had_time(start) && gave(search, Err(TryRecvError::Disconnected))
        },
        ReadingEnd::Full(result) => {
            &&& had_time(start)
            &&& gave(search, Ok(result))
            &&& takes_no_more(rows, files, lines, result@)
            &&& search.stop_asked()
        },
        ReadingEnd::OutOfTime(spent) => {
            &&& call_ensures(Instant::elapsed, (&start,), spent)
            &&& outside::duration_nanos(spent) > FRAME_BUDGET_NANOS
        },
        ReadingEnd::OutOfTurns => taken == usize::MAX,
    }
}

/// The results that there is something to list of, in order.
pub open spec fn hits(results: Seq<SearchResult>) -> Seq<search::ResultView>
    decreases results.len(),
{
    if results.len() == 0 {
        seq![]
    } else if is_hit(results.last()@) {
        hits(results.drop_last()).push(results.last()@)
    } else {
        hits(results.drop_last())
    }
}

/// What is listed of results is found by going through all of them in order: each
/// that has lines or matches in its path is listed, and no other.
pub proof fn lemma_hit_indices(results: Seq<SearchResult>) -> (from: Seq<int>)
    ensures
        from.len() == hits(results).len(),
        forall|k: int|
            0 <= k < from.len() ==> {
                &&& 0 <= #[trigger] from[k] < results.len()
                &&& hits(results)[k] == results[from[k]]@
            },
        forall|k: int, l: int| 0 <= k < l < from.len() ==> #[trigger] from[k] < #[trigger] from[l],
        forall|i: int|
            0 <= i < results.len() ==> (from.contains(i) <==> (#[trigger] results[i]).entries@.len()
                > 0 || (*results[i].path_matches)@.len() > 0),
    decreases results.len(),
{
    if results.len() == 0 {
        seq![]
    } else {
        let rest = results.drop_last();
        let last = results.len() - 1;
        let before = lemma_hit_indices(rest);
        let kept = is_hit(results.last()@);
        let from = if kept {
            before.push(last)
        } else {
            before
        };
        assert forall|k: int| 0 <= k < from.len() implies {
            &&& 0 <= #[trigger] from[k] < results.len()
            &&& hits(results)[k] == results[from[k]]@
        } by {
            if k < before.len() {
                assert(from[k] == before[k]);
                assert(rest[before[k]] == results[before[k]]);
            }
        }
        assert forall|k: int, l: int| 0 <= k < l < from.len() implies #[trigger] from[k]
            < #[trigger] from[l] by {
            assert(from[k] == before[k]);
            if l < before.len() {
                assert(from[l] == before[l]);
            }
        }
        assert forall|i: int| 0 <= i < results.len() implies (from.contains(i) <==> (
        #[trigger] results[i]).entries@.len() > 0 || (*results[i].path_matches)@.len() > 0) by {
            if i < last {
                assert(rest[i] == results[i]);
                if before.contains(i) {
                    let k = choose|k: int| 0 <= k < before.len() && before[k] == i;
                    assert(from[k] == i);
                }
                if from.contains(i) {
                    let k = choose|k: int| 0 <= k < from.len() && from[k] == i;
                    assert(before[k] == i);
                }
            } else {
                if kept {
                    assert(from[before.len() as int] == last);
                } else if from.contains(i) {
                    let k = choose|k: int| 0 <= k < from.len() && from[k] == i;
                    assert(before[k] == last);
                }
            }
        }
        from
    }
}

/// Hits are what there is something to list of.
proof fn lemma_hits(results: Seq<SearchResult>)
    ensures
        forall|i: int| 0 <= i < hits(results).len() ==> is_hit(#[trigger] hits(results)[i]),
    decreases results.len(),
{
    if results.len() > 0 {
        let rest = hits(results.drop_last());
        lemma_hits(results.drop_last());
        assert forall|i: int| 0 <= i < hits(results).len() implies is_hit(
            #[trigger] hits(results)[i],
        ) by {
            if i < rest.len() {
                assert(hits(results)[i] == rest[i]);
            }
        }
    }
}

/// What was taken came from the search that was running, none where none was or
/// where the list was full, while there was time for it since the reading
/// started, and the reading ended in the given way. The search goes on unless it was over or the list was full, and the time that it has
/// taken is noted.
pub open spec fn is_reading(
    before: SearchTab,
    after: SearchTab,
    start: Instant,
    taken: Seq<SearchResult>,
    end: ReadingEnd,
) -> bool {
    match before.pending_search {
        Some(search) => {
            &&& call_ensures(Instant::now, (), start)
            &&& taken.len() > 0 ==> had_time(start)
            &&& forall|i: int| 0 <= i < taken.len() ==> gave(search, Ok(#[trigger] taken[i]))
            &&& before.results@.len() >= MAX_RESULTS ==> taken.len() == 0
            &&& reading_ends(
                search,
                start,
                before.results@.len(),
                after.file_searched,
                after.line_searched,
                taken.len(),
                end,
            )
            &&& after.pending_search == if end is Disconnected || end is Full {
                None
            } else {
                Some(search)
            }
            &&& call_ensures(PendingSearch::elapsed, (&search,), after.search_duration)
        },
        None => {
            &&& taken.len() == 0
            &&& after.pending_search is None
            &&& after.search_duration == before.search_duration
        },
    }
}

/// The tab has taken these results from its search and has sorted those that
/// there is something to list of, shown with these dates, in with the rows that
/// it had.
pub open spec fn is_update<F: Fn(Timestamp) -> String>(
    before: SearchTab,
    after: SearchTab,
    format_date: F,
    start: Instant,
    taken: Seq<SearchResult>,
    end: ReadingEnd,
    dates: Seq<Seq<char>>,
) -> bool {
    let listed = hits(taken);
    &&& is_reading(before, after, start, taken, end)
    &&& dates.len() == listed.len()
    &&& forall|i: int|
        0 <= i < listed.len() ==> shows_date(
            format_date,
            (#[trigger] listed[i]).modified_at,
            dates[i],
        )
    &&& is_sorted_from(
        before.rows() + all_rows(listed, dates),
        after.rows(),
        before.sort_by_modified_asc,
    )
    &&& after.file_searched == before.file_searched + listed.len()
    &&& after.line_searched == before.line_searched + line_count(listed)
}

/// What it is for a tab to take in what its search has found. What was taken came
/// out of the channel of the search, while the 10 ms for it lasted. The search
/// ends where its channel is closed, and where a result comes in for which the
/// list has no room, in which case it was asked to stop; otherwise it goes on,
/// and the channel was empty, the time was over or no more could be counted.
pub proof fn lemma_update<F: Fn(Timestamp) -> String>(
    before: SearchTab,
    after: SearchTab,
    format_date: F,
    start: Instant,
    taken: Seq<SearchResult>,
    end: ReadingEnd,
    dates: Seq<Seq<char>>,
)
    requires
        is_update(before, after, format_date, start, taken, end, dates),
    ensures
        after.file_searched == before.file_searched + hits(taken).len(),
        after.line_searched == before.line_searched + line_count(hits(taken)),
        is_sorted_from(
            row_views(before.results@) + all_rows(hits(taken), dates),
            row_views(after.results@),
            before.sort_by_modified_asc,
        ),
        dates.len() == hits(taken).len(),
        forall|i: int|
            0 <= i < dates.len() ==> match (#[trigger] hits(taken)[i]).modified_at {
                Some(time) => exists|formatted: String|
                    #[trigger] call_ensures(format_date, (time,), formatted) && dates[i]
                        == formatted@,
                None => dates[i] == "-"@,
            },
        before.pending_search is None ==> {
            &&& taken.len() == 0
            &&& after.pending_search is None
            &&& after.search_duration == before.search_duration
        },
        before.pending_search matches Some(search) ==> {
            &&& call_ensures(PendingSearch::elapsed, (&search,), after.search_duration)
            &&& before.results@.len() >= 10_000 ==> taken.len() == 0
            &&& forall|i: int|
                0 <= i < taken.len() ==> call_ensures(
                    PendingSearch::try_recv,
                    (&search,),
                    Ok::<SearchResult, TryRecvError>(#[trigger] taken[i]),
                )
            &&& taken.len() > 0 ==> exists|spent: Duration| #[trigger]
                call_ensures(Instant::elapsed, (&start,), spent) && outside::duration_nanos(spent)
                    <= 10_000_000
            &&& call_ensures(Instant::now, (), start)
            &&& after.pending_search is None ==> {
                ||| call_ensures(
                    PendingSearch::try_recv,
                    (&search,),
                    Err::<SearchResult, TryRecvError>(TryRecvError::Disconnected),
                )
                ||| search.stop_asked() && exists|result: SearchResult|
                    {
                        &&& #[trigger] call_ensures(
                            PendingSearch::try_recv,
                            (&search,),
                            Ok::<SearchResult, TryRecvError>(result),
                        )
                        &&& takes_no_more(
                            before.results@.len(),
                            after.file_searched,
                            after.line_searched,
                            result@,
                        )
                    }
            }
            &&& after.pending_search is Some ==> {
                &&& after.pending_search == before.pending_search
                &&& {
                    ||| call_ensures(
                        PendingSearch::try_recv,
                        (&search,),
                        Err::<SearchResult, TryRecvError>(TryRecvError::Empty),
                    )
                    ||| exists|spent: Duration| #[trigger]
                        call_ensures(Instant::elapsed, (&start,), spent)
                            && outside::duration_nanos(spent) > 10_000_000
                    ||| taken.len() == usize::MAX
                }
            }
        },
{
    assert forall|i: int| 0 <= i < dates.len() implies match (#[trigger] hits(taken)[i]).modified_at {
        Some(time) => exists|formatted: String|
            #[trigger] call_ensures(format_date, (time,), formatted) && dates[i] == formatted@,
        None => dates[i] == "-"@,
    } by {
        assert(shows_date(format_date, hits(taken)[i].modified_at, dates[i]));
    }
    if let Some(search) = before.pending_search {
        if taken.len() > 0 {
            assert(had_time(start));
        }
        assert forall|i: int| 0 <= i < taken.len() implies call_ensures(
            PendingSearch::try_recv,
            (&search,),
            Ok::<SearchResult, TryRecvError>(#[trigger] taken[i]),
        ) by {
            assert(gave(search, Ok(taken[i])));
        }
    }
}

fn copy_segments(segments: &Vec<TextSegment>) -> (r: Vec<TextSegment>)
    ensures
        layout::segment_views(r@) == layout::segment_views(segments@),
{
    let mut r: Vec<TextSegment> = Vec::new();
    for i in 0..segments.len()
        invariant
            r@.len() == i,
            forall|j: int| 0 <= j < i ==> (#[trigger] r@[j])@ == segments@[j]@,
    {
        r.push(
            TextSegment { text: segments[i].text.clone(), highlighted: segments[i].highlighted },
        );
    }
    assert(layout::segment_views(r@) =~= layout::segment_views(segments@));
    r
}

/// A search tab.
pub struct SearchTab {
    /// What the tab is set to search.
    pub config: SearchConfig,
    /// The rows that are listed.
    pub results: Vec<UiSearchEntry>,
    /// The search that is running, if any.
    pub pending_search: Option<PendingSearch>,
    /// The number of files with matches.
    pub file_searched: usize,
    /// The number of lines with matches.
    pub line_searched: usize,
    /// How long the search took.
    pub search_duration: Duration,
    /// What went wrong, to be shown to the user.
    pub error_message: Option<String>,
    /// When the input was last changed, until a search is started for it.
    pub last_input_time: Option<Instant>,
    /// Whether the oldest file is listed first.
    pub sort_by_modified_asc: bool,
}

impl SearchTab {
    /// The rows that are listed.
    pub open spec fn rows(&self) -> Seq<RowView> {
        row_views(self.results@)
    }

    /// No more files and no more lines are counted than there are rows.
    pub open spec fn counts_fit(&self) -> bool {
        &&& self.file_searched <= self.results@.len()
        &&& self.line_searched <= self.results@.len()
    }

    /// The tab has found nothing and does nothing.
    pub open spec fn is_blank(&self) -> bool {
        &&& self.results@.len() == 0
        &&& self.pending_search is None
        &&& self.file_searched == 0
        &&& self.line_searched == 0
        &&& outside::duration_nanos(self.search_duration) == 0
        &&& self.error_message is None
    }

    /// A tab for these paths and patterns that has not searched yet.
    pub fn from_context(context: Vec<String>, patterns: String) -> (r: Self)
        ensures
            r.is_blank(),
            r.last_input_time is None,
            !r.sort_by_modified_asc,
            r.config.paths == context,
            r.config.patterns == patterns,
            r.config.queries@.len() == 1,
            r.config.queries@[0].query@ == Seq::<char>::empty(),
            r.config.mode == search::SearchMode::PathAndContent,
    {
        SearchTab { config: SearchConfig::new(context, patterns), ..SearchTab::default() }
    }

    /// Stops the search that is running, if any, and clears what was found if
    /// that is asked for.
    pub fn cancel_search(&mut self, clear_results: bool)
        ensures
            final(self).pending_search is None,
            final(self).config == old(self).config,
            final(self).last_input_time == old(self).last_input_time,
            final(self).sort_by_modified_asc == old(self).sort_by_modified_asc,
            clear_results ==> final(self).is_blank(),
            !clear_results ==> {
                &&& final(self).results == old(self).results
                &&& final(self).file_searched == old(self).file_searched
                &&& final(self).line_searched == old(self).line_searched
                &&& final(self).error_message == old(self).error_message
            },
            !clear_results && old(self).pending_search is None ==> final(self).search_duration
                == old(self).search_duration,
            old(self).pending_search matches Some(search) ==> search.stop_asked(),
            !clear_results ==> (old(self).pending_search matches Some(search) ==> call_ensures(
                PendingSearch::elapsed,
                (&search,),
                final(self).search_duration,
            )),
            old(self).counts_fit() ==> final(self).counts_fit(),
    {
        match self.pending_search.take() {
            Some(pending) => {
                pending.signal_stop();
                self.search_duration = pending.elapsed();
            },
            None => {},
        }
        if clear_results {
            self.results.clear();
            self.file_searched = 0;
            self.line_searched = 0;
            self.search_duration = Duration::from_secs(0);
            self.error_message = None;
        }
    }

    /// The list takes no more of this result: it is full, or counting the
    /// result would be more than can be counted.
    pub open spec fn is_full(&self, result: search::ResultView) -> bool {
        takes_no_more(self.results@.len(), self.file_searched, self.line_searched, result)
    }

    /// Nothing but the counters may differ.
    pub open spec fn same_but_counts(&self, other: &SearchTab) -> bool {
        &&& self.config == other.config
        &&& self.results == other.results
        &&& self.pending_search == other.pending_search
        &&& self.search_duration == other.search_duration
        &&& self.error_message == other.error_message
        &&& self.last_input_time == other.last_input_time
        &&& self.sort_by_modified_asc == other.sort_by_modified_asc
    }

    /// Nothing but when the input was last changed may differ.
    pub open spec fn same_but_input_time(&self, other: &SearchTab) -> bool {
        &&& self.same_but_counts(&SearchTab { last_input_time: self.last_input_time, ..*other })
        &&& self.file_searched == other.file_searched
        &&& self.line_searched == other.line_searched
    }

    /// Takes in what came out of the channel. A result with nothing to list is
    /// passed over, any other is counted and kept, unless the list is full.
    pub fn receive(
        &mut self,
        received: Result<SearchResult, TryRecvError>,
        kept: &mut Vec<SearchResult>,
    ) -> (r: Receipt)
        ensures
            r == match received {
                Ok(result) => if old(self).is_full(result@) {
                    Receipt::Full
                } else {
                    Receipt::Next
                },
                Err(TryRecvError::Empty) => Receipt::Pause,
                Err(TryRecvError::Disconnected) => Receipt::Finished,
            },
            final(self).same_but_counts(old(self)),
            match received {
                Ok(result) if r == Receipt::Next && is_hit(result@) => {
                    &&& final(kept)@ == old(kept)@.push(result)
                    &&& final(self).file_searched == old(self).file_searched + 1
                    &&& final(self).line_searched == old(self).line_searched
                        + result@.entries.len()
                },
                _ => {
                    &&& final(kept)@ == old(kept)@
                    &&& final(self).file_searched == old(self).file_searched
                    &&& final(self).line_searched == old(self).line_searched
                },
            },
    {
        match received {
            Ok(result) => {
                let lines: usize = result.entries.len();
                let ranges: &[(usize, usize)] = &result.path_matches;
                let hit: bool = lines > 0 || ranges.len() > 0;
                if self.results.len() >= MAX_RESULTS {
                    return Receipt::Full;
                }
                if !hit {
                    return Receipt::Next;
                }
                if self.file_searched == usize::MAX || self.line_searched > usize::MAX - lines {
                    return Receipt::Full;
                }
                self.file_searched = self.file_searched + 1;
                self.line_searched = self.line_searched + lines;
                kept.push(result);
                Receipt::Next
            },
            Err(TryRecvError::Empty) => Receipt::Pause,
            Err(TryRecvError::Disconnected) => Receipt::Finished,
        }
    }

    /// Lists the rows for a file after those that are listed already.
    pub fn save_results<F: Fn(Timestamp) -> String>(&mut self, format_date: &F, result: SearchResult)
        requires
            forall|time: Timestamp| #[trigger] call_requires(*format_date, (time,)),
        ensures
            exists|date: Seq<char>|
                {
                    &&& #[trigger] shows_date(*format_date, result@.modified_at, date)
                    &&& final(self).rows() == old(self).rows() + rows_for(result@, date)
                },
            final(self).config == old(self).config,
            final(self).pending_search == old(self).pending_search,
            final(self).file_searched == old(self).file_searched,
            final(self).line_searched == old(self).line_searched,
            final(self).search_duration == old(self).search_duration,
            final(self).error_message == old(self).error_message,
            final(self).last_input_time == old(self).last_input_time,
            final(self).sort_by_modified_asc == old(self).sort_by_modified_asc,
    {
        let path: Arc<str> = Arc::clone(&result.path);
        let path_layout: Vec<TextSegment> = layout::create_layout(&path, &result.path_matches);
        let formatted_date: String = match result.modified_at {
            Some(time) => format_date(time),
            None => "-".to_owned(),
        };
        let ghost date = formatted_date@;
        let ghost view = result@;
        assert(shows_date(*format_date, result@.modified_at, date));
        let path_data: Arc<UiPathData> = Arc::new(
            UiPathData { path, path_layout, formatted_date, modified_at: result.modified_at },
        );
        let ranges: &[(usize, usize)] = &result.path_matches;
        if ranges.len() > 0 && result.entries.is_empty() {
            let layout: Vec<TextSegment> = copy_segments(&path_data.path_layout);
            self.results.push(
                UiSearchEntry { path_data: Arc::clone(&path_data), line_number: 0, layout },
            );
            assert(self.rows() =~= old(self).rows() + rows_for(view, date));
            return;
        }
        for i in 0..result.entries.len()
            invariant
                view == result@,
                date == path_data.formatted_date@,
                (*path_data.path)@ == view.path,
                layout::segment_views(path_data.path_layout@) == layout::layout_of(
                    view.path,
                    view.path_matches,
                ),
                path_data.modified_at == view.modified_at,
                self.rows() == old(self).rows() + line_rows(view, date).take(i as int),
                self.config == old(self).config,
                self.pending_search == old(self).pending_search,
                self.file_searched == old(self).file_searched,
                self.line_searched == old(self).line_searched,
                self.search_duration == old(self).search_duration,
                self.error_message == old(self).error_message,
                self.last_input_time == old(self).last_input_time,
                self.sort_by_modified_asc == old(self).sort_by_modified_asc,
        {
            let ghost before = self.rows();
            let entry: &SearchEntry = &result.entries[i];
            let layout: Vec<TextSegment> = layout::create_layout(&entry.text, &entry.matches);
            self.results.push(
                UiSearchEntry {
                    path_data: Arc::clone(&path_data),
                    line_number: entry.line_number,
                    layout,
                },
            );
            assert(self.rows() =~= before.push(line_rows(view, date)[i as int]));
            assert(self.rows() =~= old(self).rows() + line_rows(view, date).take(i + 1));
        }
        assert(line_rows(view, date).take(result.entries@.len() as int) =~= rows_for(view, date));
    }

    /// Sorts the rows by the time of their files.
    pub fn sort_results(&mut self)
        ensures
            is_sorted_from(old(self).rows(), final(self).rows(), old(self).sort_by_modified_asc),
            exists|order: Seq<usize>|
                {
                    let given = old(self).results@;
                    let sorted = final(self).results@;
                    let ascending = final(self).sort_by_modified_asc;
                    &&& #[trigger] order.len() == sorted.len()
                    &&& order.len() == given.len()
                    &&& forall|p: int|
                        0 <= p < order.len() ==> #[trigger] order[p] < given.len() && sorted[p]
                            == given[order[p] as int]
                    &&& forall|p: int, q: int|
                        0 <= p < q < order.len() ==> #[trigger] order[p] != #[trigger] order[q] && (
                        sorted[p].path_data.modified_at == sorted[q].path_data.modified_at
                            ==> order[p] < order[q])
                },
            forall|p: int, q: int|
                0 <= p < q < final(self).results@.len() ==> match (
                    (#[trigger] final(self).results@[p]).path_data.modified_at,
                    (#[trigger] final(self).results@[q]).path_data.modified_at,
                ) {
                    (Some(a), Some(b)) => if final(self).sort_by_modified_asc {
                        a.secs < b.secs || (a.secs == b.secs && a.nanos <= b.nanos)
                    } else {
                        a.secs > b.secs || (a.secs == b.secs && a.nanos >= b.nanos)
                    },
                    (Some(a), None) => if final(self).sort_by_modified_asc {
                        a.secs < 0 || (a.secs == 0 && a.nanos == 0)
                    } else {
                        a.secs >= 0
                    },
                    (None, Some(b)) => if final(self).sort_by_modified_asc {
                        b.secs >= 0
                    } else {
                        b.secs < 0 || (b.secs == 0 && b.nanos == 0)
                    },
                    (None, None) => true,
                },
            final(self).config == old(self).config,
            final(self).pending_search == old(self).pending_search,
            final(self).file_searched == old(self).file_searched,
            final(self).line_searched == old(self).line_searched,
            final(self).search_duration == old(self).search_duration,
            final(self).error_message == old(self).error_message,
            final(self).last_input_time == old(self).last_input_time,
            final(self).sort_by_modified_asc == old(self).sort_by_modified_asc,
    {
        let mut times: Vec<Timestamp> = Vec::new();
        for i in 0..self.results.len()
            invariant
                *self == *old(self),
                times@ =~= row_times(self.rows()).take(i as int),
        {
            times.push(
                match self.results[i].path_data.modified_at {
                    Some(time) => time,
                    None => Timestamp { secs: 0, nanos: 0 },
                },
            );
        }
        assert(times@ =~= row_times(self.rows()));
        let order: Vec<usize> = order::sorted_order(&times, self.sort_by_modified_asc);
        proof {
            order::lemma_sorted_order_distinct(times@, self.sort_by_modified_asc, order@);
        }
        let mut rows: Vec<UiSearchEntry> = Vec::new();
        std::mem::swap(&mut rows, &mut self.results);
        self.results = order::arrange(rows, &order);
        let ghost given = old(self).rows();
        assert(self.rows() =~= order@.map_values(|i: usize| given[i as int]));
        proof {
            let all = old(self).results@;
            let sorted = self.results@;
            let ascending = self.sort_by_modified_asc;
            order::lemma_is_sorted_order(times@, ascending, order@);
            assert forall|p: int| 0 <= p < order@.len() implies #[trigger] order@[p] < all.len()
                && sorted[p] == all[order@[p] as int] && times@[order@[p] as int] == (
            match sorted[p].path_data.modified_at {
                Some(time) => time,
                None => Timestamp { secs: 0, nanos: 0 },
            }) by {
                assert(times@[order@[p] as int] == row_time(given[order@[p] as int]));
            }
            assert(order@.len() == sorted.len());
            assert forall|p: int, q: int| 0 <= p < q < sorted.len() implies match (
                (#[trigger] sorted[p]).path_data.modified_at,
                (#[trigger] sorted[q]).path_data.modified_at,
            ) {
                (Some(a), Some(b)) => if ascending {
                    a.secs < b.secs || (a.secs == b.secs && a.nanos <= b.nanos)
                } else {
                    a.secs > b.secs || (a.secs == b.secs && a.nanos >= b.nanos)
                },
                (Some(a), None) => if ascending {
                    a.secs < 0 || (a.secs == 0 && a.nanos == 0)
                } else {
                    a.secs >= 0
                },
                (None, Some(b)) => if ascending {
                    b.secs >= 0
                } else {
                    b.secs < 0 || (b.secs == 0 && b.nanos == 0)
                },
                (None, None) => true,
            } by {
                assert(order@[p] < all.len() && order@[q] < all.len());
            }
        }
    }

    /// Takes in what the search has found, as much as there is time for in one
    /// frame, lists it and sorts the list. Each turn looks at one result.
    pub fn update_pending_search<F: Fn(Timestamp) -> String>(&mut self, format_date: &F)
        requires
            forall|time: Timestamp| #[trigger] call_requires(*format_date, (time,)),
        ensures
            exists|
                start: Instant,
                taken: Seq<SearchResult>,
                end: ReadingEnd,
                dates: Seq<Seq<char>>,
            | #[trigger]
                is_update(
                    *old(self),
                    *final(self),
                    *format_date,
                    start,
                    taken,
                    end,
                    dates,
                ),
            final(self).config == old(self).config,
            final(self).error_message == old(self).error_message,
            final(self).last_input_time == old(self).last_input_time,
            final(self).sort_by_modified_asc == old(self).sort_by_modified_asc,
            old(self).counts_fit() ==> final(self).counts_fit(),
    {
        let mut is_done: bool = false;
        let mut kept: Vec<SearchResult> = Vec::new();
        let pending: Option<PendingSearch> = self.pending_search.take();
        let ghost before = *self;
        let ghost mut started: Instant = arbitrary();
        let ghost mut taken: Seq<SearchResult> = seq![];
        let ghost mut end: ReadingEnd = ReadingEnd::OutOfTurns;
        assert(result_views(kept@) =~= hits(taken));
        match &pending {
            Some(search) => {
                self.search_duration = search.elapsed();
                let start: Instant = Instant::now();
                proof {
                    started = start;
                }
                let mut reading: bool = true;
                let mut turns: usize = usize::MAX;
                while reading && turns > 0
                    invariant
                        self.config == before.config,
                        self.results == before.results,
                        self.pending_search is None,
                        self.error_message == before.error_message,
                        self.last_input_time == before.last_input_time,
                        self.sort_by_modified_asc == before.sort_by_modified_asc,
                        call_ensures(PendingSearch::elapsed, (search,), self.search_duration),
                        call_ensures(Instant::now, (), start),
                        taken.len() > 0 ==> had_time(start),
                        result_views(kept@) == hits(taken),
                        self.file_searched == before.file_searched + kept@.len(),
                        self.line_searched == before.line_searched + line_count(
                            result_views(kept@),
                        ),
                        forall|i: int|
                            0 <= i < taken.len() ==> gave(*search, Ok(#[trigger] taken[i])),
                        before.results@.len() >= MAX_RESULTS ==> taken.len() == 0,
                        reading ==> end is OutOfTurns && taken.len() == usize::MAX - turns,
                        !reading ==> reading_ends(
                            *search,
                            start,
                            before.results@.len(),
                            self.file_searched,
                            self.line_searched,
                            taken.len(),
                            end,
                        ),
                        is_done == (end is Disconnected || end is Full),
                    decreases turns,
                {
                    turns = turns - 1;
                    let spent: Duration = start.elapsed();
                    if budget_spent(spent.as_nanos()) {
                        reading = false;
                        proof {
                            end = ReadingEnd::OutOfTime(spent);
                        }
                    } else {
                        assert(had_time(start));
                        let ghost already = kept@;
                        let outcome: Result<SearchResult, TryRecvError> = search.try_recv();
                        let ghost given = outcome;
                        match self.receive(outcome, &mut kept) {
                            Receipt::Next => {
                                proof {
                                    let rest = taken;
                                    taken = taken.push(given->Ok_0);
                                    assert(taken.drop_last() =~= rest);
                                }
                            },
                            Receipt::Pause => {
                                reading = false;
                                proof {
                                    end = ReadingEnd::Empty;
                                }
                            },
                            Receipt::Full => {
                                search.signal_stop();
                                is_done = true;
                                reading = false;
                                proof {
                                    end = ReadingEnd::Full(given->Ok_0);
                                }
                            },
                            Receipt::Finished => {
                                is_done = true;
                                self.search_duration = search.elapsed();
                                reading = false;
                                proof {
                                    end = ReadingEnd::Disconnected;
                                }
                            },
                        }
                        proof {
                            if kept@.len() > already.len() {
                                assert(result_views(kept@).drop_last() =~= result_views(already));
                                assert(result_views(kept@) =~= hits(taken));
                            }
                        }
                    }
                }
            },
            None => {},
        }
        let ghost all = result_views(kept@);
        let ghost noted = self.search_duration;
        let ghost mut dates: Seq<Seq<char>> = seq![];
        proof {
            assert(before.rows() + all_rows(all.take(0), dates) =~= before.rows());
        }
        for result in it: kept
            invariant
                forall|time: Timestamp| #[trigger] call_requires(*format_date, (time,)),
                all == result_views(it.seq()),
                self.config == before.config,
                self.pending_search is None,
                self.search_duration == noted,
                self.error_message == before.error_message,
                self.last_input_time == before.last_input_time,
                self.sort_by_modified_asc == before.sort_by_modified_asc,
                self.file_searched == before.file_searched + all.len(),
                self.line_searched == before.line_searched + line_count(all),
                dates.len() == it.index(),
                forall|i: int|
                    0 <= i < dates.len() ==> shows_date(
                        *format_date,
                        (#[trigger] all[i]).modified_at,
                        dates[i],
                    ),
                self.rows() == before.rows() + all_rows(all.take(it.index() as int), dates),
        {
            let ghost listed = self.rows();
            let ghost view = result@;
            let ghost index = it.index() as int;
            self.save_results(format_date, result);
            proof {
                assert(view == all[index]);
                let date = choose|date: Seq<char>|
                    {
                        &&& #[trigger] shows_date(*format_date, view.modified_at, date)
                        &&& self.rows() == listed + rows_for(view, date)
                    };
                let rest = dates;
                dates = dates.push(date);
                assert(dates.drop_last() =~= rest);
                assert(all.take(index + 1).drop_last() =~= all.take(index));
                assert(self.rows() =~= before.rows() + all_rows(all.take(index + 1), dates));
            }
        }
        proof {
            assert(all.take(all.len() as int) =~= all);
            lemma_hits(taken);
            lemma_row_count(all, dates);
        }
        self.sort_results();
        if !is_done {
            self.pending_search = pending;
        }
        assert(is_update(*old(self), *self, *format_date, started, taken, end, dates));
    }

    /// Turns the direction of sorting round and sorts the rows.
    pub fn toggle_sort(&mut self)
        ensures
            final(self).sort_by_modified_asc == !old(self).sort_by_modified_asc,
            is_sorted_from(
                old(self).rows(),
                final(self).rows(),
                final(self).sort_by_modified_asc,
            ),
            exists|order: Seq<usize>|
                {
                    let given = old(self).results@;
                    let sorted = final(self).results@;
                    let ascending = final(self).sort_by_modified_asc;
                    &&& #[trigger] order.len() == sorted.len()
                    &&& order.len() == given.len()
                    &&& forall|p: int|
                        0 <= p < order.len() ==> #[trigger] order[p] < given.len() && sorted[p]
                            == given[order[p] as int]
                    &&& forall|p: int, q: int|
                        0 <= p < q < order.len() ==> #[trigger] order[p] != #[trigger] order[q] && (
                        sorted[p].path_data.modified_at == sorted[q].path_data.modified_at
                            ==> order[p] < order[q])
                },
            forall|p: int, q: int|
                0 <= p < q < final(self).results@.len() ==> match (
                    (#[trigger] final(self).results@[p]).path_data.modified_at,
                    (#[trigger] final(self).results@[q]).path_data.modified_at,
                ) {
                    (Some(a), Some(b)) => if final(self).sort_by_modified_asc {
                        a.secs < b.secs || (a.secs == b.secs && a.nanos <= b.nanos)
                    } else {
                        a.secs > b.secs || (a.secs == b.secs && a.nanos >= b.nanos)
                    },
                    (Some(a), None) => if final(self).sort_by_modified_asc {
                        a.secs < 0 || (a.secs == 0 && a.nanos == 0)
                    } else {
                        a.secs >= 0
                    },
                    (None, Some(b)) => if final(self).sort_by_modified_asc {
                        b.secs >= 0
                    } else {
                        b.secs < 0 || (b.secs == 0 && b.nanos == 0)
                    },
                    (None, None) => true,
                },
            final(self).config == old(self).config,
            final(self).pending_search == old(self).pending_search,
            final(self).file_searched == old(self).file_searched,
            final(self).line_searched == old(self).line_searched,
            final(self).search_duration == old(self).search_duration,
            final(self).error_message == old(self).error_message,
            final(self).last_input_time == old(self).last_input_time,
    {
        self.sort_by_modified_asc = !self.sort_by_modified_asc;
        self.sort_results();
    }

    /// The heading of the column by which the rows are sorted.
    pub fn sort_label(&self) -> (r: &'static str)
        ensures
            r@ == if self.sort_by_modified_asc {
                "최근 수정 일시 ▲"@
            } else {
                "최근 수정 일시 ▼"@
            },
    {
        if self.sort_by_modified_asc {
            "최근 수정 일시 ▲"
        } else {
            "최근 수정 일시 ▼"
        }
    }

    /// What the tab is doing. An error comes before anything else, then a
    /// search that is running, then one that is about to start.
    pub fn status(&self) -> (r: TabStatus)
        ensures
            r == if self.error_message is Some {
                TabStatus::Failed
            } else if self.pending_search is Some {
                TabStatus::Searching
            } else if self.last_input_time is Some {
                TabStatus::Waiting
            } else if self.file_searched > 0 {
                TabStatus::Done
            } else {
                TabStatus::Idle
            },
    {
        if self.error_message.is_some() {
            TabStatus::Failed
        } else if self.is_searching() {
            TabStatus::Searching
        } else if self.last_input_time.is_some() {
            TabStatus::Waiting
        } else if self.file_searched > 0 {
            TabStatus::Done
        } else {
            TabStatus::Idle
        }
    }

    /// The numbers of files and lines with matches, as they are shown.
    pub fn counts_text(&self) -> (r: String)
        ensures
            r@ == text::decimal(self.file_searched as nat) + " 파일 / "@ + text::decimal(
                self.line_searched as nat,
            ) + " 라인"@,
    {
        let mut r: String = text::decimal_text(self.file_searched as u64);
        r.append(" 파일 / ");
        r.append(text::decimal_text(self.line_searched as u64).as_str());
        r.append(" 라인");
        r
    }

    /// The name of the tab at this index: its search terms, or its number,
    /// counted from 1, where it has none.
    pub fn title(&self, index: usize) -> (r: String)
        requires
            index < usize::MAX,
        ensures
            r@ == if search::terms_of(self.config.queries@).len() > 0 {
                text::joined(search::terms_of(self.config.queries@), ", "@)
            } else {
                "탭 "@ + text::decimal((index + 1) as nat)
            },
    {
        let terms: Vec<String> = self.config.terms();
        if terms.is_empty() {
            let mut r: String = "탭 ".to_owned();
            r.append(text::decimal_text((index + 1) as u64).as_str());
            r
        } else {
            text::join(&terms, ", ")
        }
    }

    /// Returns whether a search is running.
    pub fn is_searching(&self) -> (r: bool)
        ensures
            r == (self.pending_search is Some),
    {
        self.pending_search.is_some()
    }

    /// How long the search has been running, or how long it took.
    pub fn search_duration(&self) -> (r: Duration)
        ensures
            match self.pending_search {
                Some(search) => call_ensures(PendingSearch::elapsed, (&search,), r),
                None => r == self.search_duration,
            },
    {
        match &self.pending_search {
            Some(pending) => pending.elapsed(),
            None => self.search_duration,
        }
    }
}

impl Default for SearchTab {
    fn default() -> (r: Self)
        ensures
            r.is_blank(),
            r.last_input_time is None,
            !r.sort_by_modified_asc,
            r.config.paths@ == Seq::<String>::empty(),
            r.config.patterns@ == Seq::<char>::empty(),
            r.config.queries@ == Seq::<search::SearchQuery>::empty(),
            r.config.mode == search::SearchMode::PathAndContent,
    {
        SearchTab {
            config: SearchConfig::default(),
            results: Vec::new(),
            pending_search: None,
            file_searched: 0,
            line_searched: 0,
            search_duration: Duration::from_secs(0),
            error_message: None,
            last_input_time: None,
            sort_by_modified_asc: false,
        }
    }
}

/// The input had rested for so long since this moment.
pub open spec fn is_rest(since: Instant, rested: Duration) -> bool {
    call_ensures(Instant::elapsed, (&since,), rested)
}

/// The input has rested long enough.
pub open spec fn is_over(rested: Duration) -> bool {
    outside::duration_nanos(rested) > DEBOUNCE_NANOS
}

/// The tab is one that has not searched yet, for the directory alone.
pub open spec fn is_new_tab(tab: SearchTab, directory: String) -> bool {
    &&& tab.is_blank()
    &&& tab.last_input_time is None
    &&& !tab.sort_by_modified_asc
    &&& tab.config.paths@ == seq![directory]
    &&& tab.config.patterns@ == Seq::<char>::empty()
    &&& tab.config.queries@.len() == 1
    &&& tab.config.queries@[0].query@ == Seq::<char>::empty()
    &&& tab.config.mode == search::SearchMode::PathAndContent
}

fn new_tab(directory: String) -> (r: SearchTab)
    ensures
        is_new_tab(r, directory),
{
    let paths: Vec<String> = vec![directory];
    assert(paths@ =~= seq![directory]);
    SearchTab::from_context(paths, String::new())
}

/// A search that was running was stopped, and the tab was cleared and then set
/// to the search that was started, or to an error where none could be.
pub open spec fn is_started<S: Fn(&SearchConfig) -> Result<PendingSearch, SpawnError>>(
    before: SearchTab,
    after: SearchTab,
    spawn: S,
    outcome: Result<PendingSearch, SpawnError>,
) -> bool {
    &&& before.pending_search matches Some(search) ==> search.stop_asked()
    &&& call_ensures(spawn, (&before.config,), outcome)
    &&& after.config == before.config
    &&& after.sort_by_modified_asc == before.sort_by_modified_asc
    &&& after.results@.len() == 0
    &&& after.file_searched == 0
    &&& after.line_searched == 0
    &&& outside::duration_nanos(after.search_duration) == 0
    &&& match outcome {
        Ok(pending) => after.pending_search == Some(pending) && after.error_message is None,
        Err(_) => after.pending_search is None && after.error_message is Some
            && after.error_message->0@ == "검색어를 입력해주세요."@,
    }
}

/// What it is to start a search: the former one is stopped, the tab is cleared
/// but for its settings, and it holds the search that was started or says that
/// none was.
pub proof fn lemma_started<S: Fn(&SearchConfig) -> Result<PendingSearch, SpawnError>>(
    before: SearchTab,
    after: SearchTab,
    spawn: S,
    outcome: Result<PendingSearch, SpawnError>,
)
    requires
        is_started(before, after, spawn, outcome),
    ensures
        before.pending_search matches Some(search) ==> search.stop_asked(),
        call_ensures(spawn, (&before.config,), outcome),
        after.config == before.config,
        after.sort_by_modified_asc == before.sort_by_modified_asc,
        after.results@.len() == 0,
        after.file_searched == 0,
        after.line_searched == 0,
        outside::duration_nanos(after.search_duration) == 0,
        outcome matches Ok(search) ==> after.pending_search == Some(search)
            && after.error_message is None,
        outcome is Err ==> after.pending_search is None && (after.error_message matches Some(error)
            && error@ == "검색어를 입력해주세요."@),
{
}

/// What it is to wait for the input to rest: for more than 250 ms since it was
/// last changed.
pub proof fn lemma_rest(since: Instant, rested: Duration)
    ensures
        is_rest(since, rested) <==> call_ensures(Instant::elapsed, (&since,), rested),
        is_over(rested) <==> outside::duration_nanos(rested) > 250_000_000,
{
}

/// What tabs are compared by, and what a new tab is.
pub proof fn lemma_tabs(
    tab: SearchTab,
    other: SearchTab,
    directory: String,
    result: search::ResultView,
)
    ensures
        tab.is_full(result) <==> takes_no_more(
            tab.results@.len(),
            tab.file_searched,
            tab.line_searched,
            result,
        ),
        tab.is_blank() <==> {
            &&& tab.results@.len() == 0
            &&& tab.pending_search is None
            &&& tab.file_searched == 0
            &&& tab.line_searched == 0
            &&& outside::duration_nanos(tab.search_duration) == 0
            &&& tab.error_message is None
        },
        tab.counts_fit() <==> tab.file_searched <= tab.results@.len() && tab.line_searched
            <= tab.results@.len(),
        tab.rows() == row_views(tab.results@),
        is_new_tab(tab, directory) ==> {
            &&& tab.is_blank()
            &&& tab.last_input_time is None
            &&& !tab.sort_by_modified_asc
            &&& tab.config.paths@ == seq![directory]
            &&& tab.config.patterns@.len() == 0
            &&& tab.config.queries@.len() == 1
            &&& tab.config.queries@[0].query@.len() == 0
            &&& tab.config.mode == search::SearchMode::PathAndContent
        },
        tab.same_but_counts(&other) ==> tab == (SearchTab {
            file_searched: tab.file_searched,
            line_searched: tab.line_searched,
            ..other
        }),
        tab.same_but_input_time(&other) ==> tab == (SearchTab {
            last_input_time: tab.last_input_time,
            ..other
        }),
{
}

/// The state of the whole application.
pub struct SearchApp {
    /// The tabs that are open.
    pub tabs: Vec<SearchTab>,
    /// The index of the tab that is shown.
    pub selected_tab_index: usize,
}

impl SearchApp {
    /// There is a tab that is shown.
    pub open spec fn wf(&self) -> bool {
        self.selected_tab_index < self.tabs@.len()
    }

    /// The application with one tab for the current directory.
    pub fn new(cwd: String) -> (r: Self)
        ensures
            r.wf(),
            r.tabs@.len() == 1,
            r.selected_tab_index == 0,
            is_new_tab(r.tabs@[0], cwd),
    {
        SearchApp { tabs: vec![new_tab(cwd)], selected_tab_index: 0 }
    }

    /// Shows the tab at this index.
    pub fn select_tab(&mut self, index: usize)
        requires
            index < old(self).tabs@.len(),
        ensures
            final(self).wf(),
            final(self).tabs == old(self).tabs,
            final(self).selected_tab_index == index,
    {
        self.selected_tab_index = index;
    }

    /// Closes the tab at this index. The same index stays selected, or the last
    /// one where there is no tab at that index any more.
    pub fn close_tab(&mut self, index: usize)
        requires
            old(self).wf(),
            index < old(self).tabs@.len(),
            old(self).tabs@.len() > 1,
        ensures
            final(self).wf(),
            final(self).tabs@ == old(self).tabs@.remove(index as int),
            final(self).selected_tab_index == if old(self).selected_tab_index
                >= final(self).tabs@.len() {
                final(self).tabs@.len() - 1
            } else {
                old(self).selected_tab_index as int
            },
    {
        let _ = self.tabs.remove(index);
        if self.selected_tab_index >= self.tabs.len() {
            self.selected_tab_index = self.tabs.len() - 1;
        }
    }

    /// Opens a new tab for the current directory and shows it.
    pub fn open_tab(&mut self, cwd: String)
        ensures
            final(self).wf(),
            final(self).tabs@.len() == old(self).tabs@.len() + 1,
            final(self).tabs@.drop_last() == old(self).tabs@,
            is_new_tab(final(self).tabs@.last(), cwd),
            final(self).selected_tab_index == old(self).tabs@.len(),
    {
        self.tabs.push(new_tab(cwd));
        assert(self.tabs@.drop_last() =~= old(self).tabs@);
        self.selected_tab_index = self.tabs.len() - 1;
    }

    /// Whether the window has to be drawn again soon, as a tab is searching or
    /// about to.
    pub fn needs_repaint(&self) -> (r: bool)
        ensures
            r <==> exists|i: int|
                0 <= i < self.tabs@.len() && ((#[trigger] self.tabs@[i]).pending_search is Some
                    || self.tabs@[i].last_input_time is Some),
    {
        for i in 0..self.tabs.len()
            invariant
                forall|j: int|
                    0 <= j < i ==> (#[trigger] self.tabs@[j]).pending_search is None
                        && self.tabs@[j].last_input_time is None,
        {
            if self.tabs[i].is_searching() || self.tabs[i].last_input_time.is_some() {
                return true;
            }
        }
        false
    }

    /// Starts the search that a tab is set to, in place of any other.
    pub fn search_parallel<S: Fn(&SearchConfig) -> Result<PendingSearch, SpawnError>>(
        tab: &mut SearchTab,
        spawn: &S,
    )
        requires
            call_requires(*spawn, (&old(tab).config,)),
        ensures
            exists|outcome: Result<PendingSearch, SpawnError>| #[trigger]
                is_started(*old(tab), *final(tab), *spawn, outcome),
            final(tab).last_input_time == old(tab).last_input_time,
    {
        tab.cancel_search(true);
        let outcome: Result<PendingSearch, SpawnError> = spawn(&tab.config);
        let ghost given = outcome;
        match outcome {
            Ok(pending) => {
                tab.pending_search = Some(pending);
            },
            Err(_) => {
                tab.error_message = Some("검색어를 입력해주세요.".to_owned());
            },
        }
        assert(is_started(*old(tab), *tab, *spawn, given));
    }

    /// Starts the search of a tab once its input has rested. Until then the tab
    /// only keeps when the input was last changed.
    pub fn debounce<S: Fn(&SearchConfig) -> Result<PendingSearch, SpawnError>>(
        tab: &mut SearchTab,
        input_changed: bool,
        spawn: &S,
    )
        requires
            call_requires(*spawn, (&old(tab).config,)),
        ensures
            !input_changed && old(tab).last_input_time is None ==> *final(tab) == *old(tab),
            input_changed || old(tab).last_input_time is Some ==> {
                ||| final(tab).last_input_time is None && exists|
                    outcome: Result<PendingSearch, SpawnError>,
                | #[trigger] is_started(*old(tab), *final(tab), *spawn, outcome)
                ||| final(tab).last_input_time is Some && final(tab).same_but_input_time(old(tab))
            },
            !input_changed ==> (old(tab).last_input_time matches Some(time) ==> exists|
                rested: Duration,
            | #[trigger]
                is_rest(time, rested) && {
                    &&& is_over(rested) <==> final(tab).last_input_time is None
                    &&& !is_over(rested) ==> *final(tab) == *old(tab)
                }),
            input_changed ==> exists|time: Instant, rested: Duration|
                {
                    &&& call_ensures(Instant::now, (), time)
                    &&& #[trigger] is_rest(time, rested)
                    &&& final(tab).last_input_time == if is_over(rested) {
                        None
                    } else {
                        Some(time)
                    }
                },
    {
        if input_changed {
            tab.last_input_time = Some(Instant::now());
        }
        let ghost noted = *tab;
        let due: bool = match &tab.last_input_time {
            Some(time) => {
                let rested: Duration = time.elapsed();
                assert(is_rest(*time, rested));
                debounce_over(rested.as_nanos())
            },
            None => false,
        };
        if due {
            SearchApp::search_parallel(tab, spawn);
            let ghost outcome = choose|outcome: Result<PendingSearch, SpawnError>| #[trigger]
                is_started(noted, *tab, *spawn, outcome);
            tab.last_input_time = None;
            assert(is_started(*old(tab), *tab, *spawn, outcome));
        }
    }
}

} // verus!
