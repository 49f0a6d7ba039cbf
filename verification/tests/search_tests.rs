use std::sync::atomic::{AtomicBool, Ordering};
use std::sync::mpsc;
use std::sync::mpsc::TryRecvError;

use ignore::Match;
use lexi::scan::{scan_mail, scan_text, ContentSource, FileScan};
use lexi::search::{
    list_line, PendingSearch, SearchConfig, SearchMode, SearchQuery, SearchResult, SearchSink,
    SpawnError, TermMatcher, Timestamp,
};

fn config_for(queries: &[&str]) -> SearchConfig {
    let mut config = SearchConfig::new(vec!["/data".to_string()], String::new());
    config.queries = queries.iter().map(|q| SearchQuery { query: q.to_string() }).collect();
    config
}

fn matcher_for(queries: &[&str]) -> TermMatcher {
    config_for(queries).create_matcher().unwrap()
}

fn search_file(config: &SearchConfig, path: &str, extension: &str, content: &[u8]) -> Option<SearchResult> {
    let quit = AtomicBool::new(false);
    let plan = config.plan().unwrap();
    let scan = FileScan::begin(&plan.matcher, plan.mode, Some(path), Some(extension), path.to_string());
    let entries = match scan.source {
        ContentSource::Text => scan_text(&plan.matcher, content, &quit),
        ContentSource::Mail => scan_mail(&plan.matcher, content, &quit),
        _ => Vec::new(),
    };
    scan.finish(entries, Some(Timestamp { secs: 1, nanos: 2 }))
}

#[test]
fn test_search_filename() {
    let config = config_for(&["test_file"]);
    let result = search_file(&config, "/data/test_file.txt", "txt", b"").expect("Must find at least one result.");
    assert_eq!(&*result.path, "/data/test_file.txt");
    assert_eq!(&*result.path_matches, &[(6, 15)]);
    assert!(result.entries.is_empty());
}

#[test]
fn test_search_content() {
    let config = config_for(&["Rust"]);
    let result = search_file(&config, "/data/content.txt", "txt", b"Hello World\nRust is awesome\n").unwrap();
    assert_eq!(result.entries.len(), 1);
    assert_eq!(result.entries[0].line_number, 2);
    assert_eq!(&*result.entries[0].text, "Rust is awesome\n");
    assert_eq!(&*result.entries[0].matches, &[(0, 4)]);
    assert!(result.path_matches.is_empty());
    assert_eq!(result.modified_at, Some(Timestamp { secs: 1, nanos: 2 }));
}

#[test]
fn test_search_ignore_case() {
    let config = config_for(&["case"]);
    let result = search_file(&config, "/data/case.txt", "txt", b"CASE INSENSITIVE\n").unwrap();
    assert_eq!(&*result.path_matches, &[(6, 10)]);
    assert!(!result.entries.is_empty());
    assert_eq!(&*result.entries[0].matches, &[(0, 4)]);
}

#[test]
fn test_search_korean_utf8() {
    let config = config_for(&["안녕"]);
    let result = search_file(&config, "/data/korean_utf8.txt", "txt", "안녕하세요\n".as_bytes());
    assert!(result.is_some(), "Should find Korean text in UTF-8 file");
}

#[test]
fn test_search_korean_qp_eml() {
    let config = config_for(&["안녕"]);
    let result = search_file(&config, "/data/korean_qp.eml", "eml", b"=EC=95=88=EB=85=95\r\n")
        .expect("Should find Korean text in Quoted-Printable .eml file");
    assert_eq!(result.entries[0].line_number, 1);
    assert!(result.entries[0].text.starts_with("안녕"));
    assert_eq!(&*result.entries[0].matches, &[(0, 6)]);
}

#[test]
fn nothing_is_reported_of_a_file_without_matches() {
    assert!(search_file(&config_for(&["absent"]), "/data/a.txt", "txt", b"other\n").is_none());
}

#[test]
fn upper_case_in_a_term_makes_case_matter() {
    let matcher = matcher_for(&["Case"]);
    assert_eq!(matcher.find_all(b"case CASE Case"), vec![(10, 14)]);
    let matcher = matcher_for(&["case"]);
    assert_eq!(matcher.find_all(b"case CASE Case"), vec![(0, 4), (5, 9), (10, 14)]);
}

#[test]
fn terms_are_taken_literally() {
    let matcher = matcher_for(&["a.b*"]);
    assert_eq!(matcher.find_all(b"axb a.b* aab"), vec![(4, 8)]);
    let matcher = matcher_for(&["\\(x)[1]{2}^$|+?#&-~"]);
    assert_eq!(matcher.find_all(b" \\(x)[1]{2}^$|+?#&-~"), vec![(1, 20)]);
}

#[test]
fn any_of_the_terms_is_found() {
    let matcher = matcher_for(&["cat", "", "  dog "]);
    assert_eq!(matcher.find_all(b"dog and cat"), vec![(0, 3), (8, 11)]);
}

#[test]
fn no_more_matches_than_the_limit_are_found() {
    let matcher = matcher_for(&["x"]);
    assert_eq!(matcher.find_up_to(b"xxxxxxxx", 5), vec![(0, 1), (1, 2), (2, 3), (3, 4), (4, 5)]);
    assert_eq!(matcher.find_up_to(b"xx", 5), vec![(0, 1), (1, 2)]);
    assert_eq!(matcher.find_up_to(b"xx", 0), Vec::<(usize, usize)>::new());
    assert_eq!(matcher.find_all(b""), Vec::<(usize, usize)>::new());
}

#[test]
fn sink_lists_the_first_five_matches_of_a_line() {
    let matcher = matcher_for(&["x"]);
    let quit = AtomicBool::new(false);
    let mut sink = SearchSink::new(&matcher, &quit);
    assert!(sink.matched(Some(7), b"x x x x x x x").unwrap());
    assert_eq!(sink.results.len(), 1);
    assert_eq!(sink.results[0].line_number, 7);
    assert_eq!(&*sink.results[0].matches, &[(0, 1), (2, 3), (4, 5), (6, 7), (8, 9)]);
}

#[test]
fn sink_takes_nothing_once_the_search_is_stopped() {
    let matcher = matcher_for(&["x"]);
    let quit = AtomicBool::new(false);
    let mut sink = SearchSink::new(&matcher, &quit);
    assert!(sink.matched(None, b"x").unwrap());
    quit.store(true, Ordering::Relaxed);
    assert!(!sink.matched(Some(2), b"x").unwrap());
    assert_eq!(sink.results.len(), 1);
    assert_eq!(sink.results[0].line_number, 0);
    assert!(sink.record(false, Some(3), b"\xffx"));
    assert_eq!(&*sink.results[1].text, "\u{fffd}x");
    assert_eq!(&*sink.results[1].matches, &[(3, 4)]);
    assert!(!sink.record(true, Some(4), b"x"));
    assert_eq!(sink.results.len(), 2);
}

#[test]
fn lines_are_listed_with_their_matches() {
    let entry = list_line(Some(3), "안녕 세계".as_bytes(), vec![(7, 10)]);
    assert_eq!(entry.line_number, 3);
    assert_eq!(&*entry.text, "안녕 세계");
    assert_eq!(&*entry.matches, &[(7, 10)]);
}

#[test]
fn search_needs_terms() {
    assert!(matches!(config_for(&[]).plan(), Err(SpawnError::NoSearchTerms)));
    assert!(matches!(config_for(&["", "  \t"]).plan(), Err(SpawnError::NoSearchTerms)));
    assert!(matches!(config_for(&[" "]).create_matcher(), Err(SpawnError::NoSearchTerms)));
    assert_eq!(SpawnError::NoSearchTerms.text(), Some("No search terms"));
}

#[test]
fn search_needs_paths() {
    let mut config = config_for(&["term"]);
    config.paths.clear();
    assert!(matches!(config.plan(), Err(SpawnError::NoSearchPaths)));
    config.queries.clear();
    assert!(matches!(config.plan(), Err(SpawnError::NoSearchTerms)));
    assert_eq!(SpawnError::NoSearchPaths.text(), Some("No search paths provided"));
}

#[test]
fn term_that_is_too_long_does_not_compile() {
    let query = SearchQuery { query: "가".repeat(4_000_000) };
    let mut config = config_for(&[]);
    config.queries = vec![query];
    let error = match config.plan() {
        Err(error) => error,
        Ok(_) => panic!("a term of that length compiles"),
    };
    assert!(matches!(error, SpawnError::Matcher(_)));
    assert_eq!(error.text(), None);
}

#[test]
fn plan_holds_what_a_search_needs() {
    let mut config = config_for(&["term"]);
    config.paths.push("/more".to_string());
    config.mode = SearchMode::IncludeDocContent;
    let plan = config.plan().unwrap();
    assert_eq!(plan.paths, vec!["/data", "/more"]);
    assert_eq!(plan.mode, SearchMode::IncludeDocContent);
    assert_eq!(plan.matcher.find_all(b"a term"), vec![(2, 6)]);
}

#[test]
fn new_config_has_one_empty_query() {
    let config = SearchConfig::new(vec!["/data".to_string()], "*.rs".to_string());
    assert_eq!(config.paths(), vec!["/data"]);
    assert_eq!(config.patterns, "*.rs");
    assert_eq!(config.queries.len(), 1);
    assert_eq!(config.queries[0].query, "");
    assert_eq!(config.mode, SearchMode::PathAndContent);
    let empty = SearchConfig::default();
    assert!(empty.paths.is_empty() && empty.queries.is_empty() && empty.patterns.is_empty());
    assert_eq!(SearchMode::default(), SearchMode::PathAndContent);
    assert_eq!(SearchQuery::default().query, "");
}

#[test]
fn modes_have_labels() {
    assert_eq!(SearchMode::FileNameOnly.label(), "파일명만");
    assert_eq!(SearchMode::PathAndContent.label(), "파일명 + 텍스트");
    assert_eq!(SearchMode::IncludeDocContent.label(), "파일명 + 텍스트 + 문서내용");
}

#[test]
fn terms_are_trimmed_and_not_blank() {
    assert_eq!(config_for(&[" a ", "", "b c", "\t"]).terms(), vec!["a", "b c"]);
}

#[test]
fn glob_lines_start_with_the_system_directories_on_windows() {
    let mut config = config_for(&["term"]);
    config.patterns = "*.rs  !dir/".to_string();
    assert_eq!(config.glob_lines(false), vec!["*.rs", "!dir/"]);
    assert_eq!(
        config.glob_lines(true),
        vec![
            "!C:/Windows/**",
            "!C:/Program Files/**",
            "!C:/Program Files (x86)/**",
            "*.rs",
            "!dir/"
        ]
    );
}

#[test]
fn overrides_pick_the_files() {
    let mut config = config_for(&["term"]);
    config.patterns = "*.rs a{ !secret.rs".to_string();
    let overrides = config.overrides(false);
    assert!(matches!(overrides.matched("/data/main.rs", false), Match::Whitelist(_)));
    assert!(matches!(overrides.matched("/data/main.txt", false), Match::Ignore(_)));
    assert!(matches!(overrides.matched("/data/secret.rs", false), Match::Ignore(_)));
    assert_eq!(overrides.num_whitelists(), 1);
    assert_eq!(overrides.num_ignores(), 1);
}

#[test]
fn comments_are_no_overrides() {
    let mut config = config_for(&["term"]);
    config.patterns = "#note".to_string();
    assert!(config.overrides(false).is_empty());
    config.patterns = "#note *.rs".to_string();
    let overrides = config.overrides(false);
    assert_eq!((overrides.num_whitelists(), overrides.num_ignores()), (1, 0));
    assert_eq!(overrides.path().to_str(), Some("/"));
}

#[test]
fn no_patterns_give_no_overrides() {
    let config = config_for(&["term"]);
    assert!(config.overrides(false).is_empty());
    assert_eq!(config.overrides(true).num_ignores(), 3);
}

#[test]
fn directories_are_added_once() {
    let mut config = config_for(&["term"]);
    config.add_paths(vec!["/b".to_string(), "/data".to_string(), "/b".to_string(), "/c".to_string()]);
    assert_eq!(config.paths, vec!["/data", "/b", "/c"]);
    config.add_paths(Vec::new());
    assert_eq!(config.paths, vec!["/data", "/b", "/c"]);
}

#[test]
fn last_directory_is_not_removed() {
    let mut config = config_for(&["term"]);
    assert!(!config.remove_path(0));
    config.add_paths(vec!["/b".to_string()]);
    assert!(!config.remove_path(2));
    assert!(config.remove_path(0));
    assert_eq!(config.paths, vec!["/b"]);
    assert!(!config.remove_path(0));
}

#[test]
fn dialogs_start_in_the_last_directory() {
    let mut config = config_for(&["term"]);
    config.add_paths(vec!["/b".to_string()]);
    assert_eq!(config.start_directory("/here".to_string()), "/b");
    config.paths.clear();
    assert_eq!(config.start_directory("/here".to_string()), "/here");
}

#[test]
fn pending_search_hands_out_what_comes_in() {
    let (tx, rx) = mpsc::channel();
    let pending = PendingSearch::new(rx);
    assert!(matches!(pending.try_recv(), Err(TryRecvError::Empty)));
    tx.send(search_file(&config_for(&["a"]), "/data/a.txt", "txt", b"a\n").unwrap()).unwrap();
    assert_eq!(&*pending.try_recv().unwrap().path, "/data/a.txt");
    drop(tx);
    assert!(matches!(pending.try_recv(), Err(TryRecvError::Disconnected)));
    assert!(pending.elapsed() <= pending.elapsed());
}

#[test]
fn pending_search_is_stopped_when_asked_and_when_dropped() {
    let (_tx, rx) = mpsc::channel();
    let pending = PendingSearch::new(rx);
    let quit = pending.quit_flag();
    assert!(!quit.load(Ordering::Relaxed));
    pending.signal_stop();
    assert!(quit.load(Ordering::Relaxed));

    let (_tx, rx) = mpsc::channel();
    let pending = PendingSearch::new(rx);
    let quit = pending.quit_flag();
    drop(pending);
    assert!(quit.load(Ordering::Relaxed));
}
