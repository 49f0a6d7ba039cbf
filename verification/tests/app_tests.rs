use std::sync::atomic::AtomicBool;
use std::sync::mpsc;
use std::sync::mpsc::TryRecvError;
use std::sync::Arc;
use std::time::{Duration, Instant};

use lexi::app::{
    budget_spent, debounce_over, Receipt, SearchApp, SearchTab, TabStatus, MAX_RESULTS,
};
use lexi::scan::scan_text;
use lexi::search::{
    PendingSearch, SearchConfig, SearchEntry, SearchMode, SearchResult, SpawnError, Timestamp,
};

fn line(number: u64, text: &str, matches: &[(usize, usize)]) -> SearchEntry {
    SearchEntry { line_number: number, text: Arc::from(text), matches: Arc::from(matches) }
}

fn found(path: &str, path_matches: &[(usize, usize)], lines: usize, secs: Option<i64>) -> SearchResult {
    SearchResult {
        path: Arc::from(path),
        path_matches: Arc::from(path_matches),
        entries: (0..lines).map(|i| line(i as u64 + 1, "a term", &[(2, 6)])).collect(),
        modified_at: secs.map(|secs| Timestamp { secs, nanos: 0 }),
    }
}

fn date(time: Timestamp) -> String {
    format!("at {}", time.secs)
}

fn paths(tab: &SearchTab) -> Vec<String> {
    tab.results.iter().map(|row| row.path_data.path.to_string()).collect()
}

fn new_tab() -> SearchTab {
    SearchTab::from_context(vec!["/data".to_string()], String::new())
}

#[test]
fn new_tab_has_found_nothing() {
    let tab = SearchTab::from_context(vec!["/data".to_string()], "*.rs".to_string());
    assert_eq!(tab.config.paths, vec!["/data"]);
    assert_eq!(tab.config.patterns, "*.rs");
    assert_eq!(tab.config.queries.len(), 1);
    assert!(tab.results.is_empty());
    assert!(!tab.is_searching());
    assert_eq!(tab.search_duration(), Duration::ZERO);
    assert_eq!(tab.status(), TabStatus::Idle);
    assert!(!tab.sort_by_modified_asc);
    assert!(SearchTab::default().config.paths.is_empty());
}

#[test]
fn results_are_counted_and_kept() {
    let mut tab = new_tab();
    let mut kept = Vec::new();
    assert_eq!(tab.receive(Ok(found("/a", &[], 3, None)), &mut kept), Receipt::Next);
    assert_eq!(tab.receive(Ok(found("/b", &[(0, 2)], 0, None)), &mut kept), Receipt::Next);
    assert_eq!(tab.receive(Ok(found("/c", &[], 0, None)), &mut kept), Receipt::Next);
    assert_eq!(kept.len(), 2);
    assert_eq!((tab.file_searched, tab.line_searched), (2, 3));
    assert_eq!(tab.receive(Err(TryRecvError::Empty), &mut kept), Receipt::Pause);
    assert_eq!(tab.receive(Err(TryRecvError::Disconnected), &mut kept), Receipt::Finished);
    assert_eq!(kept.len(), 2);
    assert_eq!(tab.counts_text(), "2 파일 / 3 라인");
}

#[test]
fn counters_do_not_overflow() {
    let mut tab = new_tab();
    let mut kept = Vec::new();
    tab.line_searched = usize::MAX - 2;
    assert_eq!(tab.receive(Ok(found("/a", &[], 3, None)), &mut kept), Receipt::Full);
    assert_eq!(tab.receive(Ok(found("/a", &[], 2, None)), &mut kept), Receipt::Next);
    tab.file_searched = usize::MAX;
    assert_eq!(tab.receive(Ok(found("/a", &[(0, 1)], 0, None)), &mut kept), Receipt::Full);
    assert_eq!(tab.receive(Ok(found("/a", &[], 0, None)), &mut kept), Receipt::Next);
    assert_eq!(kept.len(), 1);
}

#[test]
fn rows_are_made_for_the_lines_of_a_file() {
    let mut tab = new_tab();
    tab.save_results(&date, found("/data/term", &[(6, 10)], 2, Some(7)));
    assert_eq!(tab.results.len(), 2);
    let row = &tab.results[1];
    assert_eq!(&*row.path_data.path, "/data/term");
    assert_eq!(row.path_data.formatted_date, "at 7");
    assert_eq!(row.path_data.modified_at, Some(Timestamp { secs: 7, nanos: 0 }));
    assert_eq!(row.path_data.path_layout.len(), 2);
    assert_eq!(row.path_data.path_layout[1].text, "term");
    assert!(row.path_data.path_layout[1].highlighted);
    assert_eq!(row.line_number, 2);
    assert_eq!(row.line_label(), "2");
    assert_eq!(row.layout[0].text, "a ");
    assert_eq!(row.layout[1].text, "term");
    assert!(!row.layout[0].highlighted && row.layout[1].highlighted);
}

#[test]
fn rows_show_lines_in_full_and_highlight_the_matches() {
    let mut config = SearchConfig::new(vec!["/data".to_string()], String::new());
    config.queries[0].query = "세계".to_string();
    let matcher = config.create_matcher().unwrap();
    let quit = AtomicBool::new(false);
    let long = format!("{} 세계 {}", "안녕".repeat(40), "안녕".repeat(40));
    let text = format!("안녕 세계 세계\n{long}\n");
    let entries = scan_text(&matcher, text.as_bytes(), &quit);
    let mut tab = new_tab();
    let mut result = found("/data/세계.txt", &[(6, 12)], 0, None);
    result.entries = entries;
    tab.save_results(&date, result);
    assert_eq!(tab.results.len(), 2);
    let parts = |i: usize| -> Vec<(&str, bool)> {
        tab.results[i].layout.iter().map(|s| (s.text.as_str(), s.highlighted)).collect()
    };
    assert_eq!(
        parts(0),
        vec![("안녕 ", false), ("세계", true), (" ", false), ("세계", true), ("\n", false)]
    );
    let highlighted: Vec<&str> = parts(1).iter().filter(|p| p.1).map(|p| p.0).collect();
    assert_eq!(highlighted, vec!["세계"]);
    let whole: String = parts(1).iter().map(|p| p.0).collect();
    assert!(whole.starts_with("...") && whole.ends_with("..."));
    assert!(long.contains(whole.trim_matches('.')));
}

#[test]
fn file_without_lines_has_one_row_for_its_path() {
    let mut tab = new_tab();
    tab.save_results(&date, found("/data/term", &[(6, 10)], 0, None));
    assert_eq!(tab.results.len(), 1);
    let row = &tab.results[0];
    assert_eq!(row.path_data.formatted_date, "-");
    assert_eq!(row.line_number, 0);
    assert_eq!(row.line_label(), "-");
    assert_eq!(row.layout[0].text, "/data/");
    assert_eq!(row.layout[1].text, "term");
    tab.save_results(&date, found("/data/other", &[], 0, None));
    assert_eq!(tab.results.len(), 1);
}

#[test]
fn rows_are_sorted_by_time_and_stay_in_order_within_a_time() {
    let mut tab = new_tab();
    tab.save_results(&date, found("/old", &[(0, 1)], 0, Some(1)));
    tab.save_results(&date, found("/unknown", &[(0, 1)], 0, None));
    tab.save_results(&date, found("/new", &[(0, 1)], 0, Some(9)));
    tab.save_results(&date, found("/old2", &[(0, 1)], 0, Some(1)));
    tab.save_results(&date, found("/before", &[(0, 1)], 0, Some(-5)));
    tab.sort_results();
    let first = paths(&tab);
    assert_eq!(first, vec!["/new", "/old", "/old2", "/unknown", "/before"]);
    assert_eq!(tab.sort_label(), "최근 수정 일시 ▼");
    tab.sort_results();
    assert_eq!(paths(&tab), first);
    tab.toggle_sort();
    assert_eq!(paths(&tab), vec!["/before", "/unknown", "/old", "/old2", "/new"]);
    assert_eq!(tab.sort_label(), "최근 수정 일시 ▲");
    tab.toggle_sort();
    assert_eq!(paths(&tab), first);
}

#[test]
fn update_takes_in_what_has_come_in() {
    let (tx, rx) = mpsc::channel();
    let mut tab = new_tab();
    tab.pending_search = Some(PendingSearch::new(rx));
    tx.send(found("/old", &[], 2, Some(1))).unwrap();
    tx.send(found("/nothing", &[], 0, Some(5))).unwrap();
    tx.send(found("/new", &[(0, 1)], 0, Some(9))).unwrap();
    tab.update_pending_search(&date);
    assert_eq!(paths(&tab), vec!["/new", "/old", "/old"]);
    assert_eq!((tab.file_searched, tab.line_searched), (2, 2));
    assert_eq!(tab.status(), TabStatus::Searching);
    drop(tx);
    tab.update_pending_search(&date);
    assert!(!tab.is_searching());
    assert_eq!(tab.status(), TabStatus::Done);
    assert_eq!(tab.search_duration(), tab.search_duration);
    tab.update_pending_search(&date);
    assert_eq!(tab.results.len(), 3);
}

#[test]
fn full_list_ends_the_search() {
    let (tx, rx) = mpsc::channel();
    let mut tab = new_tab();
    tab.save_results(&date, found("/many", &[], MAX_RESULTS, Some(1)));
    let pending = PendingSearch::new(rx);
    let quit = pending.quit_flag();
    tab.pending_search = Some(pending);
    tx.send(found("/more", &[], 1, Some(2))).unwrap();
    tab.update_pending_search(&date);
    assert_eq!(tab.results.len(), 10_000);
    assert_eq!((tab.file_searched, tab.line_searched), (0, 0));
    assert!(!tab.is_searching());
    assert!(quit.load(std::sync::atomic::Ordering::Relaxed));
}

#[test]
fn cancelling_keeps_or_clears_what_was_found() {
    let (_tx, rx) = mpsc::channel();
    let mut tab = new_tab();
    tab.save_results(&date, found("/a", &[], 2, Some(1)));
    tab.file_searched = 1;
    tab.line_searched = 2;
    tab.error_message = Some("error".to_string());
    tab.pending_search = Some(PendingSearch::new(rx));
    tab.cancel_search(false);
    assert!(!tab.is_searching());
    assert_eq!((tab.results.len(), tab.file_searched, tab.line_searched), (2, 1, 2));
    assert_eq!(tab.error_message.as_deref(), Some("error"));
    tab.cancel_search(true);
    assert_eq!((tab.results.len(), tab.file_searched, tab.line_searched), (0, 0, 0));
    assert_eq!(tab.error_message, None);
    assert_eq!(tab.search_duration, Duration::ZERO);
    assert_eq!(tab.config.paths, vec!["/data"]);
}

#[test]
fn status_goes_from_error_to_idle() {
    let (_tx, rx) = mpsc::channel();
    let mut tab = new_tab();
    assert_eq!((tab.status(), tab.status().label()), (TabStatus::Idle, ""));
    tab.file_searched = 1;
    assert_eq!((tab.status(), tab.status().label()), (TabStatus::Done, "✅ 완료: "));
    tab.last_input_time = Some(Instant::now());
    assert_eq!((tab.status(), tab.status().label()), (TabStatus::Waiting, "대기중: "));
    tab.pending_search = Some(PendingSearch::new(rx));
    assert_eq!((tab.status(), tab.status().label()), (TabStatus::Searching, "검색중: "));
    tab.error_message = Some("error".to_string());
    assert_eq!((tab.status(), tab.status().label()), (TabStatus::Failed, ""));
}

#[test]
fn limits_are_exclusive() {
    assert!(!budget_spent(10_000_000));
    assert!(budget_spent(10_000_001));
    assert!(!debounce_over(250_000_000));
    assert!(debounce_over(250_000_001));
}

fn refuse(_config: &SearchConfig) -> Result<PendingSearch, SpawnError> {
    Err(SpawnError::NoSearchTerms)
}

fn accept(_config: &SearchConfig) -> Result<PendingSearch, SpawnError> {
    let (_tx, rx) = mpsc::channel();
    Ok(PendingSearch::new(rx))
}

#[test]
fn starting_a_search_clears_what_was_found() {
    let mut tab = new_tab();
    tab.save_results(&date, found("/a", &[], 2, Some(1)));
    tab.error_message = Some("error".to_string());
    SearchApp::search_parallel(&mut tab, &accept);
    assert!(tab.is_searching());
    assert!(tab.results.is_empty());
    assert_eq!(tab.error_message, None);
}

#[test]
fn search_that_cannot_start_leaves_an_error() {
    let mut tab = new_tab();
    SearchApp::search_parallel(&mut tab, &refuse);
    assert!(!tab.is_searching());
    assert_eq!(tab.error_message.as_deref(), Some("검색어를 입력해주세요."));
}

#[test]
fn search_starts_once_the_input_has_rested() {
    let mut tab = new_tab();
    SearchApp::debounce(&mut tab, false, &accept);
    assert!(!tab.is_searching() && tab.last_input_time.is_none());
    SearchApp::debounce(&mut tab, true, &accept);
    assert!(!tab.is_searching() && tab.last_input_time.is_some());
    let long_ago = Instant::now().checked_sub(Duration::from_millis(300));
    if long_ago.is_some() {
        tab.last_input_time = long_ago;
        SearchApp::debounce(&mut tab, false, &accept);
        assert!(tab.is_searching() && tab.last_input_time.is_none());
    }
}

#[test]
fn tabs_are_named_after_their_terms() {
    let mut tab = new_tab();
    assert_eq!(tab.title(0), "탭 1");
    assert_eq!(tab.title(9), "탭 10");
    tab.config.queries[0].query = "  first ".to_string();
    tab.config.queries.push(lexi::search::SearchQuery { query: " ".to_string() });
    tab.config.queries.push(lexi::search::SearchQuery { query: "second".to_string() });
    assert_eq!(tab.title(0), "first, second");
}

#[test]
fn application_starts_with_one_tab() {
    let app = SearchApp::new("/here".to_string());
    assert_eq!((app.tabs.len(), app.selected_tab_index), (1, 0));
    assert_eq!(app.tabs[0].config.paths, vec!["/here"]);
    assert_eq!(app.tabs[0].config.mode, SearchMode::PathAndContent);
    assert!(!app.needs_repaint());
}

#[test]
fn tabs_are_opened_selected_and_closed() {
    let mut app = SearchApp::new("/first".to_string());
    app.open_tab("/second".to_string());
    app.open_tab("/third".to_string());
    assert_eq!((app.tabs.len(), app.selected_tab_index), (3, 2));
    app.close_tab(0);
    assert_eq!((app.tabs.len(), app.selected_tab_index), (2, 1));
    assert_eq!(app.tabs[1].config.paths, vec!["/third"]);
    app.select_tab(0);
    app.close_tab(1);
    assert_eq!((app.tabs.len(), app.selected_tab_index), (1, 0));
    assert_eq!(app.tabs[0].config.paths, vec!["/second"]);
}

#[test]
fn window_is_drawn_again_while_a_tab_is_busy() {
    let mut app = SearchApp::new("/first".to_string());
    app.open_tab("/second".to_string());
    app.tabs[0].last_input_time = Some(Instant::now());
    assert!(app.needs_repaint());
    SearchApp::search_parallel(&mut app.tabs[0], &accept);
    app.tabs[0].last_input_time = None;
    assert!(app.needs_repaint());
    app.tabs[0].cancel_search(false);
    assert!(!app.needs_repaint());
}
