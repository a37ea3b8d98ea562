use gpa_engine::text::{lines_of, parse_bounded, split_on, trimmed};

#[test]
fn split_keeps_empty_pieces() {
    assert_eq!(split_on("a,,b", ','), vec!["a", "", "b"]);
    assert_eq!(split_on("", ','), vec![""]);
    assert_eq!(split_on("x,", ','), vec!["x", ""]);
}

#[test]
fn lines_strip_crlf_and_final_newline() {
    assert_eq!(lines_of("a\r\nb\n"), vec!["a", "b"]);
    assert_eq!(lines_of(""), Vec::<String>::new());
    assert_eq!(lines_of("\n"), vec![""]);
    assert_eq!(lines_of("one\n\nthree"), vec!["one", "", "three"]);
}

#[test]
fn trim_removes_unicode_whitespace() {
    assert_eq!(trimmed("  3 \t"), "3");
    assert_eq!(trimmed("\u{a0}Fall 2023\u{3000}"), "Fall 2023");
    assert_eq!(trimmed("   "), "");
}

#[test]
fn parse_bounded_integers() {
    assert_eq!(parse_bounded("42", u32::MAX), Some(42));
    assert_eq!(parse_bounded("+7", u32::MAX), Some(7));
    assert_eq!(parse_bounded("-1", u32::MAX), None);
    assert_eq!(parse_bounded("", u32::MAX), None);
    assert_eq!(parse_bounded("+", u32::MAX), None);
    assert_eq!(parse_bounded("12a", u32::MAX), None);
    assert_eq!(parse_bounded("255", 255), Some(255));
    assert_eq!(parse_bounded("256", 255), None);
    assert_eq!(parse_bounded("4294967295", u32::MAX), Some(4294967295));
    assert_eq!(parse_bounded("4294967296", u32::MAX), None);
}
