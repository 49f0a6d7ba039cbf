use std::sync::atomic::AtomicBool;

use lexi::scan::{
    content_source, decode_mail, entry_step, page_step, record_lines, scan_mail, scan_text, ContentSource,
    EntryKind, EntryStep, FileScan,
};
use lexi::search::{SearchConfig, SearchEntry, SearchMode, SearchSink, TermMatcher, Timestamp};

fn matcher_for(query: &str) -> TermMatcher {
    let mut config = SearchConfig::new(vec!["/data".to_string()], String::new());
    config.queries[0].query = query.to_string();
    config.create_matcher().unwrap()
}

fn lines_of(query: &str, text: &[u8]) -> Vec<SearchEntry> {
    scan_text(&matcher_for(query), text, &AtomicBool::new(false))
}

#[test]
fn only_files_are_searched_and_none_after_a_stop() {
    assert_eq!(entry_step(false, EntryKind::File), EntryStep::Search);
    assert_eq!(entry_step(false, EntryKind::Directory), EntryStep::Skip);
    assert_eq!(entry_step(false, EntryKind::Other), EntryStep::Skip);
    assert_eq!(entry_step(false, EntryKind::Unreadable), EntryStep::Skip);
    assert_eq!(entry_step(true, EntryKind::File), EntryStep::Quit);
    assert_eq!(entry_step(true, EntryKind::Directory), EntryStep::Quit);
}

#[test]
fn pages_are_searched_until_a_stop_or_until_nobody_listens() {
    assert_eq!(page_step(false, true), EntryStep::Search);
    assert_eq!(page_step(true, true), EntryStep::Quit);
    assert_eq!(page_step(false, false), EntryStep::Quit);
    assert_eq!(page_step(true, false), EntryStep::Quit);
}

#[test]
fn extension_and_mode_decide_how_content_is_read() {
    for name in ["docx", "xlsx", "pptx", "doc", "ppt", "xls", "DOCX"] {
        assert_eq!(content_source(SearchMode::IncludeDocContent, Some(name)), ContentSource::Office);
        assert_eq!(content_source(SearchMode::PathAndContent, Some(name)), ContentSource::Text);
        assert_eq!(content_source(SearchMode::FileNameOnly, Some(name)), ContentSource::Nothing);
    }
    assert_eq!(content_source(SearchMode::IncludeDocContent, Some("Pdf")), ContentSource::Pdf);
    assert_eq!(content_source(SearchMode::PathAndContent, Some("pdf")), ContentSource::Text);
    assert_eq!(content_source(SearchMode::IncludeDocContent, Some("EML")), ContentSource::Mail);
    assert_eq!(content_source(SearchMode::PathAndContent, Some("eml")), ContentSource::Mail);
    assert_eq!(content_source(SearchMode::FileNameOnly, Some("eml")), ContentSource::Nothing);
    assert_eq!(content_source(SearchMode::IncludeDocContent, Some("txt")), ContentSource::Text);
    assert_eq!(content_source(SearchMode::IncludeDocContent, None), ContentSource::Text);
}

#[test]
fn matching_lines_are_listed_with_their_numbers() {
    let entries = lines_of("term", b"a term\nnone\nterm term\n");
    assert_eq!(entries.len(), 2);
    assert_eq!((entries[0].line_number, &*entries[0].text), (1, "a term\n"));
    assert_eq!(&*entries[0].matches, &[(2, 6)]);
    assert_eq!((entries[1].line_number, &*entries[1].text), (3, "term term\n"));
    assert_eq!(&*entries[1].matches, &[(0, 4), (5, 9)]);
}

#[test]
fn binary_data_is_not_searched() {
    assert!(lines_of("term", b"\x00\nterm\n").is_empty());
    assert_eq!(lines_of("term", b"\x01\nterm\n").len(), 1);
}

#[test]
fn stopped_scan_lists_nothing() {
    assert!(scan_text(&matcher_for("term"), b"term\n", &AtomicBool::new(true)).is_empty());
}

#[test]
fn lines_are_recorded_in_order() {
    let matcher = matcher_for("x");
    let quit = AtomicBool::new(false);
    let mut sink = SearchSink::new(&matcher, &quit);
    assert!(record_lines(&mut sink, &vec![(4, b"x".to_vec()), (9, b"yx".to_vec())]));
    let numbers: Vec<u64> = sink.results.iter().map(|entry| entry.line_number).collect();
    assert_eq!(numbers, vec![4, 9]);
    assert_eq!(&*sink.results[1].matches, &[(1, 2)]);
}

#[test]
fn mail_is_decoded_before_it_is_searched() {
    assert_eq!(decode_mail(b"a=3Db=\r\nc").unwrap(), b"a=bc");
    assert_eq!(decode_mail(b"=ZZ").unwrap(), b"=ZZ");
    let entries = scan_mail(&matcher_for("a=b"), b"a=3Db\r\n", &AtomicBool::new(false));
    assert_eq!(entries.len(), 1);
    assert_eq!(&*entries[0].matches, &[(0, 3)]);
}

#[test]
fn path_that_is_not_unicode_has_no_matches() {
    let matcher = matcher_for("term");
    let scan = FileScan::begin(&matcher, SearchMode::PathAndContent, None, None, "/term\u{fffd}".to_string());
    assert!(scan.path_matches.is_empty());
    assert_eq!(scan.source, ContentSource::Text);
    assert!(scan.finish(Vec::new(), None).is_none());
}

#[test]
fn all_matches_in_a_path_are_reported() {
    let matcher = matcher_for("a");
    let scan = FileScan::begin(
        &matcher,
        SearchMode::FileNameOnly,
        Some("/a/aa/aaaa"),
        None,
        "/a/aa/aaaa".to_string(),
    );
    assert_eq!(scan.path_matches, vec![(1, 2), (3, 4), (4, 5), (6, 7), (7, 8), (8, 9), (9, 10)]);
}

#[test]
fn time_of_a_file_whose_content_is_not_read_is_not_reported() {
    let time = Some(Timestamp { secs: 10, nanos: 0 });
    let matcher = matcher_for("term");
    let path = "/data/term.txt";
    let scan = FileScan::begin(&matcher, SearchMode::FileNameOnly, Some(path), Some("txt"), path.to_string());
    assert_eq!(scan.finish(Vec::new(), time).unwrap().modified_at, None);
    let scan = FileScan::begin(&matcher, SearchMode::PathAndContent, Some(path), Some("txt"), path.to_string());
    assert_eq!(scan.finish(Vec::new(), time).unwrap().modified_at, time);
}

#[test]
fn search_for_names_reports_no_lines() {
    let matcher = matcher_for("term");
    let begin = |path: &str| {
        FileScan::begin(&matcher, SearchMode::FileNameOnly, Some(path), Some("txt"), path.to_string())
    };
    let time = Some(Timestamp { secs: 10, nanos: 0 });
    let result = begin("/term.txt").finish(lines_of("term", b"term\n"), time).unwrap();
    assert!(result.entries.is_empty() && result.modified_at.is_none());
    assert_eq!(&*result.path_matches, &[(1, 5)]);
    assert!(begin("/other.txt").finish(lines_of("term", b"term\n"), time).is_none());
}

fn pdf_scan(query: &str) -> FileScan {
    let path = "/data/term.pdf";
    FileScan::begin(
        &matcher_for(query),
        SearchMode::IncludeDocContent,
        Some(path),
        Some("pdf"),
        path.to_string(),
    )
}

#[test]
fn pages_with_lines_are_reported_one_by_one() {
    let mut report = pdf_scan("term").into_pages(Some(Timestamp { secs: 5, nanos: 0 }));
    assert!(report.page(lines_of("term", b"nothing\n")).is_none());
    let page = report.page(lines_of("term", b"first\nterm\n")).unwrap();
    assert_eq!(&*page.path, "/data/term.pdf");
    assert_eq!(&*page.path_matches, &[(6, 10)]);
    assert_eq!(page.entries.len(), 1);
    assert_eq!(page.modified_at, Some(Timestamp { secs: 5, nanos: 0 }));
    assert!(report.page(lines_of("term", b"term\n")).is_some());
    assert!(report.finish().is_none());
}

#[test]
fn document_without_lines_is_reported_for_its_path() {
    let mut report = pdf_scan("term").into_pages(None);
    assert!(report.page(Vec::new()).is_none());
    let result = report.finish().unwrap();
    assert_eq!(&*result.path_matches, &[(6, 10)]);
    assert!(result.entries.is_empty());
    assert!(pdf_scan("absent").into_pages(None).finish().is_none());
}
