//! Backslash escapes.

use sed_rs::unescape::unescape;

#[test]
fn test_basic_escapes() {
    assert_eq!(unescape("hello\\nworld"), "hello\nworld");
    assert_eq!(unescape("tab\\there"), "tab\there");
    assert_eq!(unescape("cr\\rhere"), "cr\rhere");
    assert_eq!(unescape("bell\\ahere"), "bell\x07here");
}

#[test]
fn test_backslash() {
    assert_eq!(unescape("\\\\"), "\\");
    assert_eq!(unescape("\\"), "\\");
}

#[test]
fn test_hex_and_unicode() {
    assert_eq!(unescape("\\x41"), "A");
    assert_eq!(unescape("\\u0042"), "B");
}

#[test]
fn test_passthrough() {
    assert_eq!(unescape("no escapes"), "no escapes");
    assert_eq!(unescape(""), "");
}

#[test]
fn test_invalid_escapes() {
    assert_eq!(unescape("\\q"), "\\q");
    assert_eq!(unescape("\\xG"), "\\xG");
}

#[test]
fn numbers_that_name_no_character_are_kept() {
    assert_eq!(unescape("\\uD800"), "\\uD800");
    assert_eq!(unescape("\\u12"), "\\u12");
    assert_eq!(unescape("\\x+4"), "\x04");
    assert_eq!(unescape("\\xé1"), "\\xé1");
    assert_eq!(unescape("\\\"\\'\\x7e!"), "\"'~!");
}

#[test]
fn escaped_text_comes_back() {
    assert_eq!(
        unescape(r#"a\n\r\t\a\'\"\\n\\\\x41z"#),
        "a\n\r\t\x07'\"\\n\\\\x41z"
    );
}
