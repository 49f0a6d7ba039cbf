use lexi::snippet::{display_window, snippet, MAX_LINE_LENGTH};

#[test]
fn short_line_is_shown_in_full() {
    let (text, matches) = snippet(b"Rust is awesome\n", &vec![(0, 4)]);
    assert_eq!(text, "Rust is awesome\n");
    assert_eq!(matches, vec![(0, 4)]);
}

#[test]
fn line_of_the_greatest_length_is_shown_in_full() {
    let line = "x".repeat(MAX_LINE_LENGTH);
    let (text, matches) = snippet(line.as_bytes(), &vec![(120, 128)]);
    assert_eq!(text, line);
    assert_eq!(matches, vec![(120, 128)]);
}

#[test]
fn long_line_is_cut_on_both_sides_of_its_first_match() {
    let line = format!("{}term{}", "a".repeat(200), "b".repeat(200));
    let (text, matches) = snippet(line.as_bytes(), &vec![(200, 204)]);
    assert_eq!(text, format!("...{}term{}...", "a".repeat(64), "b".repeat(60)));
    assert_eq!(matches, vec![(67, 71)]);
    assert_eq!(&text[67..71], "term");
}

#[test]
fn long_line_is_cut_at_the_end_only_where_the_match_is_early() {
    let line = format!("term{}", "b".repeat(200));
    let (text, matches) = snippet(line.as_bytes(), &vec![(0, 4)]);
    assert_eq!(text, format!("term{}...", "b".repeat(124)));
    assert_eq!(matches, vec![(0, 4)]);
}

#[test]
fn long_line_is_cut_at_the_start_only_where_the_match_is_late() {
    let line = format!("{}term", "a".repeat(200));
    let (text, matches) = snippet(line.as_bytes(), &vec![(200, 204)]);
    assert_eq!(text, format!("...{}term", "a".repeat(124)));
    assert_eq!(matches, vec![(127, 131)]);
}

#[test]
fn matches_outside_the_window_are_left_out() {
    let line = format!("{}term{}term", "a".repeat(200), "b".repeat(200));
    let (text, matches) = snippet(line.as_bytes(), &vec![(200, 204), (404, 408)]);
    assert_eq!(text.len(), 134);
    assert_eq!(matches, vec![(67, 71)]);
}

#[test]
fn windows_do_not_cut_characters() {
    // Each syllable takes three bytes, so neither end falls on a boundary.
    let line = "가".repeat(100);
    assert_eq!(display_window(line.as_bytes(), 150), (84, 213));
    let (text, matches) = snippet(line.as_bytes(), &vec![(150, 153)]);
    assert_eq!(text, format!("...{}...", "가".repeat(43)));
    assert_eq!(matches, vec![(69, 72)]);
    assert_eq!(&text[69..72], "가");
}

#[test]
fn long_line_without_matches_shows_its_start() {
    let line = "가".repeat(50);
    let (text, matches) = snippet(line.as_bytes(), &Vec::new());
    assert_eq!(text, format!("{}...", "가".repeat(42)));
    assert!(matches.is_empty());
}

#[test]
fn offsets_count_the_bytes_of_the_text_shown() {
    let (text, matches) = snippet(b"\xffa", &vec![(1, 2)]);
    assert_eq!(text, "\u{fffd}a");
    assert_eq!(matches, vec![(3, 4)]);
    let (text, matches) = snippet(b"\xff term \xe4\xb8 term", &vec![(2, 6), (10, 14)]);
    assert_eq!(text, "\u{fffd} term \u{fffd} term");
    assert_eq!(matches, vec![(4, 8), (13, 17)]);
    assert_eq!((&text[4..8], &text[13..17]), ("term", "term"));
}

#[test]
fn matches_read_by_themselves_make_up_the_same_text() {
    let broken: [&[u8]; 12] = [
        b"", b"\xff", b"\x80", b"\xe4", b"\xe4\xb8", b"\xf0\x9f", b"\xf0\x9f\x98", b"\xf0\x80",
        b"\xed\xa0", b"\xe0\x80", b"\xc3", b"\xf8\x88",
    ];
    let texts = ["a", "\u{e9}", "\u{ac00}", "\u{1f600}"];
    for left in broken {
        for right in broken {
            for text in texts {
                let mut line = left.to_vec();
                line.extend_from_slice(text.as_bytes());
                line.extend_from_slice(right);
                let range = (left.len(), left.len() + text.len());
                let (shown, matches) = snippet(&line, &vec![range]);
                assert_eq!(shown, String::from_utf8_lossy(&line));
                assert_eq!(&shown[matches[0].0..matches[0].1], text);
            }
        }
    }
}

#[test]
fn long_line_that_is_not_utf8_shows_its_matches() {
    let mut line = vec![0xff; 200];
    line.extend_from_slice(b"term");
    line.extend_from_slice(&[0xff; 200]);
    let (text, matches) = snippet(&line, &vec![(200, 204)]);
    assert_eq!(text, format!("...{}term{}...", "\u{fffd}".repeat(64), "\u{fffd}".repeat(60)));
    assert_eq!(matches, vec![(195, 199)]);
    assert_eq!(&text[195..199], "term");
}
