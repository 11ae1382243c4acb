//! The convenient way in.

use sed_rs::{eval, Error, Sed};

#[test]
fn eval_basic() {
    assert_eq!(eval("s/foo/bar/", "foo\n").unwrap(), "bar\n");
}

#[test]
fn eval_global() {
    assert_eq!(eval("s/o/0/g", "foo\n").unwrap(), "f00\n");
}

#[test]
fn eval_delete() {
    assert_eq!(eval("2d", "a\nb\nc\n").unwrap(), "a\nc\n");
}

#[test]
fn eval_multiple_commands() {
    assert_eq!(eval("s/a/X/; s/b/Y/", "ab\n").unwrap(), "XY\n");
}

#[test]
fn eval_empty_input() {
    assert_eq!(eval("s/a/b/", "").unwrap(), "");
}

#[test]
fn eval_bad_script() {
    assert!(eval("s/[invalid/x/", "test").is_err());
}

#[test]
fn sed_builder_quiet() {
    let output = Sed::new("2p")
        .unwrap()
        .quiet(true)
        .eval("a\nb\nc\n")
        .unwrap();
    assert_eq!(output, "b\n");
}

#[test]
fn sed_reuse() {
    let sed = Sed::new("s/x/y/g").unwrap();
    assert_eq!(sed.eval("xxx\n").unwrap(), "yyy\n");
    assert_eq!(sed.eval("axa\n").unwrap(), "aya\n");
}

#[test]
fn readme_examples() {
    assert_eq!(eval("s/hello/world/", "hello there\n").unwrap(), "world there\n");
    assert_eq!(eval("s/world/rust/", "hello world\n").unwrap(), "hello rust\n");
    assert_eq!(eval("s/a/X/g", "a-a-a\n").unwrap(), "X-X-X\n");
    assert_eq!(eval("/^#/d", "# comment\ncode\n").unwrap(), "code\n");
    assert_eq!(eval("2,4d", "1\n2\n3\n4\n5\n").unwrap(), "1\n5\n");
    let mut sed = Sed::new("s/foo/bar/g").unwrap();
    sed.quiet(true);
    assert_eq!(sed.eval("foo foo\n").unwrap(), "");
    let mut sed = Sed::new("s/error/ERROR/Ip").unwrap();
    sed.quiet(true);
    assert_eq!(sed.eval("an Error\nfine\n").unwrap(), "an ERROR\n");
    let mut sed = Sed::new("/BEGIN/,/END/p").unwrap();
    sed.quiet(true);
    assert_eq!(sed.eval("a\nBEGIN\nb\nEND\nc\n").unwrap(), "BEGIN\nb\nEND\n");
}

#[test]
fn null_data_separates_records() {
    let mut sed = Sed::new(r"s/\n/ /g").unwrap();
    sed.null_data(true);
    assert_eq!(sed.eval("a\nb\0c\n\0").unwrap(), "a b\0c \0");
    assert_eq!(sed.eval_bytes(b"a\xff\0").unwrap(), "a\u{FFFD}\0");
    sed.null_data(false);
    assert_eq!(sed.eval("a\n").unwrap(), "a\n");
}

#[test]
fn builder_calls_chain() {
    let mut sed = Sed::new("p").unwrap();
    assert_eq!(sed.quiet(true).null_data(true).eval("a\0b").unwrap(), "a\0b\0");
    assert_eq!(sed.quiet(false).eval("a").unwrap(), "a\0a\0");
}

#[test]
fn script_without_commands_gives_the_text_back() {
    assert_eq!(eval(" ;\n", "a\n\nb\n").unwrap(), "a\n\nb\n");
    assert_eq!(eval("", "no newline").unwrap(), "no newline\n");
}

#[test]
fn errors_of_a_script() {
    assert!(matches!(eval("k", "a\n"), Err(Error::Parse(m)) if m == "unknown command: 'k'"));
    assert!(matches!(eval("s/[/x/", "a\n"), Err(Error::Regex(_))));
    assert!(matches!(Sed::new("y/a/bc/"), Err(Error::Parse(_))));
}

#[test]
fn engine_of_an_instance_runs_the_script() {
    let sed = Sed::new("s/x/y/").unwrap();
    assert_eq!(sed.engine().unwrap().process_stream(b"x\n").unwrap(), "y\n");
}

#[test]
fn records_end_at_nul() {
    let mut sed = Sed::new(r"s/\n/ /g").unwrap();
    assert_eq!(sed.null_data(true).eval("a\nb\0c\0").unwrap(), "a b\0c\0");
    let mut sed = Sed::new("$!d").unwrap();
    assert_eq!(sed.null_data(true).eval("\u{e4}\0\u{20ac}\r\n").unwrap(), "\u{20ac}\r\n\0");
    let mut sed = Sed::new("s/^/>/").unwrap();
    assert_eq!(sed.null_data(true).eval_bytes(b"a\xffb\0c").unwrap(), ">a\u{fffd}b\0>c\0");
}

#[test]
fn nul_records_without_commands_come_back() {
    let mut sed = Sed::new("").unwrap();
    let text = "one\r\n\0\0two\0";
    assert_eq!(sed.null_data(true).eval(text).unwrap(), text);
}
