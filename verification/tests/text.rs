use rust_video_editor::text::{
    chars_of, count_digits, parse_number, push_chars, push_decimal, push_decimal2, split_chars,
    starts_with, trim_chars, white_space,
};

fn string_of(chars: &[char]) -> String {
    let mut out = String::new();
    push_chars(&mut out, chars);
    out
}

#[test]
fn white_space_is_that_of_unicode() {
    for n in 0..=0x10ffffu32 {
        if let Some(c) = char::from_u32(n) {
            assert_eq!(white_space(c), c.is_whitespace(), "U+{:04X}", n);
        }
    }
}

#[test]
fn trims_both_ends() {
    for s in ["", " ", "a", "  a b\t\r\n", "\u{3000}字幕\u{a0}", "\n\n", " x"] {
        let chars = chars_of(s);
        assert_eq!(string_of(trim_chars(&chars)), s.trim());
    }
}

#[test]
fn splits_between_separators() {
    for s in ["", ":", "a", "a:b", ":a::b:", "01:02:03"] {
        let chars = chars_of(s);
        let pieces: Vec<String> = split_chars(&chars, ':').into_iter().map(string_of).collect();
        let expected: Vec<String> = s.split(':').map(|p| p.to_string()).collect();
        assert_eq!(pieces, expected);
    }
}

#[test]
fn numbers_are_read_like_unsigned_integers() {
    for s in [
        "", "0", "7", "007", "+7", "+", "-7", "-0", "++7", "1_000", " 1", "1 ", "１",
        "18446744073709551615", "18446744073709551616", "018446744073709551615",
        "99999999999999999999999", "12a",
    ] {
        let chars = chars_of(s);
        assert_eq!(parse_number(&chars), s.parse::<u64>().ok(), "{:?}", s);
    }
}

#[test]
fn decimals_are_written_without_padding() {
    for n in [0, 1, 9, 10, 42, 99, 100, 1234567890, u64::MAX] {
        let mut out = String::from("n=");
        push_decimal(&mut out, n);
        assert_eq!(out, format!("n={}", n));
        let mut padded = String::new();
        push_decimal2(&mut padded, n);
        assert_eq!(padded, format!("{:02}", n));
    }
}

#[test]
fn counts_leading_digits() {
    assert_eq!(count_digits(&chars_of("")), 0);
    assert_eq!(count_digits(&chars_of("12x3")), 2);
    assert_eq!(count_digits(&chars_of("x")), 0);
}

#[test]
fn prefixes() {
    assert!(starts_with("Export succeeded: a", "Export succeeded"));
    assert!(starts_with("abc", ""));
    assert!(!starts_with("Export", "Export succeeded"));
    assert!(!starts_with("export succeeded", "Export succeeded"));
}
