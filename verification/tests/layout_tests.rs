use lexi::boundary::find_char_floor;
use lexi::layout::{create_layout, get_safe_slice, TextSegment};

fn parts(segments: &[TextSegment]) -> Vec<(&str, bool)> {
    segments.iter().map(|s| (s.text.as_str(), s.highlighted)).collect()
}

#[test]
fn text_without_matches_is_one_plain_part() {
    assert_eq!(parts(&create_layout("plain", &[])), vec![("plain", false)]);
    assert_eq!(parts(&create_layout("", &[])), vec![("", false)]);
}

#[test]
fn matches_are_highlighted_between_plain_parts() {
    assert_eq!(
        parts(&create_layout("a term and a term", &[(2, 6), (13, 17)])),
        vec![("a ", false), ("term", true), (" and a ", false), ("term", true)]
    );
    assert_eq!(
        parts(&create_layout("term here", &[(0, 4)])),
        vec![("term", true), (" here", false)]
    );
}

#[test]
fn layout_loses_and_adds_nothing() {
    let text = "안녕하세요 세계";
    let segments = create_layout(text, &[(3, 6), (6, 9), (16, 19)]);
    let joined: String = segments.iter().map(|s| s.text.as_str()).collect();
    assert_eq!(joined, text);
    let highlighted: Vec<&str> =
        segments.iter().filter(|s| s.highlighted).map(|s| s.text.as_str()).collect();
    assert_eq!(highlighted, vec!["녕", "하", "세"]);
}

#[test]
fn ranges_past_the_end_are_cut_off() {
    assert_eq!(
        parts(&create_layout("short", &[(2, 100)])),
        vec![("sh", false), ("ort", true)]
    );
    assert_eq!(parts(&create_layout("short", &[(50, 60)])), vec![("short", false)]);
}

#[test]
fn ranges_within_characters_are_widened() {
    assert_eq!(parts(&create_layout("가나", &[(1, 2)])), vec![("가", false), ("가", true), ("가나", false)]);
}

#[test]
fn safe_slices_cover_whole_characters() {
    assert_eq!(get_safe_slice("가나다", 1, 4), "가나");
    assert_eq!(get_safe_slice("가나다", 3, 6), "나");
    assert_eq!(get_safe_slice("가나다", 3, 100), "나다");
    assert_eq!(get_safe_slice("가나다", 3, 3), "");
    assert_eq!(get_safe_slice("가나다", 5, 3), "");
    assert_eq!(get_safe_slice("가나다", 9, 12), "");
    assert_eq!(get_safe_slice("", 0, 1), "");
}

#[test]
fn floors_step_back_over_continuation_bytes() {
    let bytes = "a가b".as_bytes();
    assert_eq!(find_char_floor(bytes, 0), 0);
    assert_eq!(find_char_floor(bytes, 1), 1);
    assert_eq!(find_char_floor(bytes, 2), 1);
    assert_eq!(find_char_floor(bytes, 3), 1);
    assert_eq!(find_char_floor(bytes, 4), 4);
    assert_eq!(find_char_floor(bytes, 5), 5);
}
