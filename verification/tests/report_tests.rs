use lexi::report::panic_report;

#[test]
fn panic_is_reported_with_its_place_and_message() {
    assert_eq!(
        panic_report(Some(("src/main.rs", 12, 5)), Some("index out of bounds")),
        "PANIC occurred at src/main.rs:12:5: index out of bounds"
    );
}

#[test]
fn panic_is_reported_without_place_or_message() {
    assert_eq!(panic_report(None, None), "PANIC occurred at unknown location: Unknown panic");
    assert_eq!(panic_report(Some(("a.rs", 1, 20)), None), "PANIC occurred at a.rs:1:20: Unknown panic");
    assert_eq!(panic_report(None, Some("boom")), "PANIC occurred at unknown location: boom");
}
