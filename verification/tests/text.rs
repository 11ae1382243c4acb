//! Characters.

use sed_rs::command::{parse, Command};
use sed_rs::text::trim_end;

/// Whether a character is one of the ranges that are white space.
fn is_listed(c: char) -> bool {
    matches!(
        c,
        '\u{9}'..='\u{d}'
            | ' '
            | '\u{85}'
            | '\u{a0}'
            | '\u{1680}'
            | '\u{2000}'..='\u{200a}'
            | '\u{2028}'
            | '\u{2029}'
            | '\u{202f}'
            | '\u{205f}'
            | '\u{3000}'
    )
}

#[test]
fn white_space_is_taken_off_the_end() {
    for c in '\0'..=char::MAX {
        let text = format!("a{c}");
        let expected = if is_listed(c) { "a" } else { text.as_str() };
        assert_eq!(trim_end(&text), expected);
    }
}

#[test]
fn labels_are_made_of_letters_and_numbers() {
    for c in '!'..='\u{24ff}' {
        let whole = format!("x{c}");
        let is_read = match parse(&format!("b {whole}")) {
            Ok(cmds) => matches!(&cmds[0].command, Command::Branch(Some(l)) if *l == whole),
            Err(_) => false,
        };
        assert_eq!(is_read, c.is_alphanumeric() || c == '_' || c == '.' || c == '-');
    }
}
