//! Regex dialects.

use sed_rs::bre::{parse_digits, parse_escape_value, translate_pattern};

#[test]
fn bre_swaps_group_escapes() {
    assert_eq!(translate_pattern(r"\(a\)", false), "(a)");
    assert_eq!(translate_pattern("(a)", false), r"\(a\)");
}

#[test]
fn bre_swaps_repetition_escapes() {
    assert_eq!(translate_pattern(r"a\+b\?", false), "a+b?");
    assert_eq!(translate_pattern("a+b?", false), r"a\+b\?");
    assert_eq!(translate_pattern(r"a\{2,3\}", false), "a{2,3}");
    assert_eq!(translate_pattern("a{2}", false), r"a\{2\}");
}

#[test]
fn bre_alternation() {
    assert_eq!(translate_pattern(r"a\|b", false), "a|b");
    assert_eq!(translate_pattern("a|b", false), r"a\|b");
}

#[test]
fn bre_anchors() {
    assert_eq!(translate_pattern("^a$", false), "^a$");
    assert_eq!(translate_pattern("a^b", false), r"a\^b");
    assert_eq!(translate_pattern("a$b", false), r"a\$b");
    assert_eq!(translate_pattern(r"\(^a$\)", false), "(^a$)");
}

#[test]
fn bre_leading_star_is_literal() {
    assert_eq!(translate_pattern("*a", false), r"\*a");
    assert_eq!(translate_pattern("a*", false), "a*");
    assert_eq!(translate_pattern(r"\(*\)", false), r"(\*)");
}

#[test]
fn ere_passthrough() {
    assert_eq!(translate_pattern("(a|b)+c?", true), "(a|b)+c?");
    assert_eq!(translate_pattern("a{2,3}", true), "a{2,3}");
}

#[test]
fn char_escapes_both_modes() {
    assert_eq!(translate_pattern(r"\x41", false), r"\x{41}");
    assert_eq!(translate_pattern(r"\o101", false), r"\x{41}");
    assert_eq!(translate_pattern(r"\d065", false), r"\x{41}");
    assert_eq!(translate_pattern(r"\x41", true), r"\x{41}");
}

#[test]
fn digit_class_preserved_without_digits() {
    assert_eq!(translate_pattern(r"\d", false), r"\d");
    assert_eq!(translate_pattern(r"\w\s", true), r"\w\s");
}

#[test]
fn bracket_expression_verbatim() {
    assert_eq!(translate_pattern("[a+?(]", false), "[a+?(]");
    assert_eq!(translate_pattern("[^]a]", false), "[^]a]");
    assert_eq!(translate_pattern("[[:alpha:]+]", false), "[[:alpha:]+]");
}

#[test]
fn bracket_backslash_before_closing_is_literal() {
    // GNU: `[\]` is a class holding a literal backslash; the `]`
    // still closes it. The regex crate would read `\]` as an
    // escaped bracket, so the backslash must be doubled.
    assert_eq!(translate_pattern(r"[\]", false), r"[\\]");
    assert_eq!(translate_pattern(r"[a\]b", false), r"[a\\]b");
    // Other in-class escapes pass through (regex handles \n, \t…)
    assert_eq!(translate_pattern(r"[\n\t]", false), r"[\n\t]");
}

#[test]
fn digits_are_parsed_up_to_a_number_of_them() {
    let chars: Vec<char> = "12fz".chars().collect();
    let mut i = 0;
    assert_eq!(parse_digits(&chars, &mut i, 10, 3), Some(12));
    assert_eq!(i, 2);
    assert_eq!(parse_digits(&chars, &mut i, 10, 3), None);
    assert_eq!(i, 2);
    let mut i = 0;
    assert_eq!(parse_escape_value('x', &chars, &mut i), Some(0x12));
    assert_eq!(i, 2);
    let mut i = 1;
    assert_eq!(parse_escape_value('x', &chars, &mut i), Some(0x2f));
    assert_eq!(i, 3);
    let mut i = 0;
    assert_eq!(parse_escape_value('o', &chars, &mut i), Some(0o12));
}

#[test]
fn escapes_without_digits_and_at_the_end() {
    assert_eq!(translate_pattern(r"\xg\o9\", false), r"xgo9\");
    assert_eq!(translate_pattern(r"a**", false), "a**");
    assert_eq!(translate_pattern(r"\+", false), "+");
    assert_eq!(translate_pattern(r"a\|^b$\|*", false), r"a|^b$|\*");
    assert_eq!(translate_pattern(r"[[:alpha:]x", false), "[[:alpha:]x");
    assert_eq!(translate_pattern(r"[[.a", true), "[[.a");
}

#[test]
fn no_digits_behind_the_end() {
    let mut i = 5;
    assert_eq!(parse_digits(&vec!['1'], &mut i, 10, 3), None);
    assert_eq!(i, 5);
}

#[test]
fn extended_brackets_stay() {
    let pattern = "^([^]a[:digit:]-]|[[.x.]+)*$";
    assert_eq!(translate_pattern(pattern, true), pattern);
}

#[test]
fn dialects_are_swapped() {
    let basic = r"\(ab\|c+d\)\{2,3\}\?x|y\.\\";
    let extended = r"(ab|c\+d){2,3}?x\|y\.\\";
    assert_eq!(translate_pattern(basic, false), extended);
    assert_eq!(translate_pattern(extended, true), extended);
    assert_eq!(translate_pattern(extended, false), basic);
    assert_eq!(translate_pattern(basic, true), basic);
}
