use musubi::text::{push_decimal, text_with_number};
use musubi::trim_trailing_newline;

#[test]
fn trim_trailing_newline_handles_both_styles() {
    assert_eq!(trim_trailing_newline("hi\n"), "hi");
    assert_eq!(trim_trailing_newline("hi\r\n"), "hi");
    assert_eq!(trim_trailing_newline("hi"), "hi");
    assert_eq!(trim_trailing_newline(""), "");
    // Only a single trailing newline is stripped.
    assert_eq!(trim_trailing_newline("hi\n\n"), "hi\n");
}

#[test]
fn trim_keeps_lone_carriage_return() {
    assert_eq!(trim_trailing_newline("hi\r"), "hi\r");
    assert_eq!(trim_trailing_newline("\n"), "");
    assert_eq!(trim_trailing_newline("\r\n"), "");
    assert_eq!(trim_trailing_newline("あいしてる\n"), "あいしてる");
}

#[test]
fn decimal_rendering() {
    assert_eq!(text_with_number("n=", 0), "n=0");
    assert_eq!(text_with_number("", 7), "7");
    assert_eq!(text_with_number("x", 1204), "x1204");
    let mut s = String::from("a");
    push_decimal(&mut s, 18446744073709551615);
    assert_eq!(s, "a18446744073709551615");
}

