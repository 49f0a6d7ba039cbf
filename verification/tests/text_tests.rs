use lexi::text::{decimal_text, join, split_whitespace, trim};

#[test]
fn trimming_takes_white_space_off_both_ends() {
    assert_eq!(trim("  a b \t\n"), "a b");
    assert_eq!(trim("\u{3000}한글\u{a0}"), "한글");
    assert_eq!(trim(" \t "), "");
    assert_eq!(trim(""), "");
    assert_eq!(trim("word"), "word");
}

#[test]
fn white_space_is_what_unicode_says() {
    let blank = |c: u32| {
        matches!(
            c,
            0x09..=0x0d | 0x20 | 0x85 | 0xa0 | 0x1680 | 0x2000..=0x200a | 0x2028 | 0x2029 | 0x202f
                | 0x205f | 0x3000
        )
    };
    for code in 0..=0x10ffff {
        if let Some(c) = char::from_u32(code) {
            assert_eq!(trim(&c.to_string()).is_empty(), blank(code), "U+{code:04X}");
        }
    }
}

#[test]
fn trimming_twice_is_trimming_once() {
    let once = trim("  a b  ");
    assert_eq!(trim(once), once);
}

#[test]
fn words_are_what_stands_between_white_space() {
    assert_eq!(split_whitespace("*.rs  !dir/\t*.{pdf,csv}\n"), vec!["*.rs", "!dir/", "*.{pdf,csv}"]);
    assert_eq!(split_whitespace("  "), Vec::<String>::new());
    assert_eq!(split_whitespace("한글\u{3000}문서"), vec!["한글", "문서"]);
}

#[test]
fn joining_puts_the_separator_between_the_parts() {
    assert_eq!(join(&vec!["a".to_string(), "b".to_string(), "c".to_string()], ", "), "a, b, c");
    assert_eq!(join(&vec!["a".to_string()], ", "), "a");
    assert_eq!(join(&Vec::new(), ", "), "");
}

#[test]
fn numbers_are_written_in_decimal() {
    assert_eq!(decimal_text(0), "0");
    assert_eq!(decimal_text(7), "7");
    assert_eq!(decimal_text(10), "10");
    assert_eq!(decimal_text(1234567890), "1234567890");
    assert_eq!(decimal_text(u64::MAX), "18446744073709551615");
}
