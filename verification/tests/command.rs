//! The parser.

use sed_rs::command::{parse, Address, AddressRange, Command};
use sed_rs::Error;

#[test]
fn parse_simple_substitute() {
    let cmds = parse("s/foo/bar/g").unwrap();
    assert_eq!(cmds.len(), 1);
    match &cmds[0].command {
        Command::Substitute(s) => {
            assert_eq!(s.pattern, "foo");
            assert_eq!(s.replacement, "bar");
            assert!(s.global);
        }
        other => panic!("expected Substitute, got {other:?}"),
    }
}

#[test]
fn parse_substitute_custom_delim() {
    let cmds = parse("s|foo|bar|").unwrap();
    assert_eq!(cmds.len(), 1);
    match &cmds[0].command {
        Command::Substitute(s) => {
            assert_eq!(s.pattern, "foo");
            assert_eq!(s.replacement, "bar");
            assert!(!s.global);
        }
        other => panic!("expected Substitute, got {other:?}"),
    }
}

#[test]
fn parse_address_line() {
    let cmds = parse("3d").unwrap();
    assert_eq!(cmds.len(), 1);
    match &cmds[0].address {
        AddressRange::Single {
            addr: Address::Line(3),
            negated: false,
        } => {}
        other => panic!("unexpected address: {other:?}"),
    }
}

#[test]
fn parse_address_range_lines() {
    let cmds = parse("1,10d").unwrap();
    assert_eq!(cmds.len(), 1);
    match &cmds[0].address {
        AddressRange::Range {
            start: Address::Line(1),
            end: Address::Line(10),
            negated: false,
        } => {}
        other => panic!("unexpected address: {other:?}"),
    }
}

#[test]
fn parse_address_regex() {
    let cmds = parse("/^foo/d").unwrap();
    assert_eq!(cmds.len(), 1);
    match &cmds[0].address {
        AddressRange::Single {
            addr: Address::Regex(re),
            negated: false,
        } => assert_eq!(re, "^foo"),
        other => panic!("unexpected address: {other:?}"),
    }
}

#[test]
fn parse_negated() {
    let cmds = parse("/foo/!d").unwrap();
    assert_eq!(cmds.len(), 1);
    match &cmds[0].address {
        AddressRange::Single {
            addr: Address::Regex(_),
            negated: true,
        } => {}
        other => panic!("unexpected address: {other:?}"),
    }
}

#[test]
fn parse_multiple_commands() {
    let cmds = parse("s/a/b/; s/c/d/").unwrap();
    assert_eq!(cmds.len(), 2);
}

#[test]
fn parse_block() {
    let cmds = parse("/foo/ { s/a/b/; s/c/d/ }").unwrap();
    assert_eq!(cmds.len(), 1);
    match &cmds[0].command {
        Command::Block(block) => assert_eq!(block.len(), 2),
        other => panic!("expected Block, got {other:?}"),
    }
}

#[test]
fn parse_transliterate() {
    let cmds = parse("y/abc/xyz/").unwrap();
    assert_eq!(cmds.len(), 1);
    match &cmds[0].command {
        Command::Transliterate { from, to } => {
            assert_eq!(from, &['a', 'b', 'c']);
            assert_eq!(to, &['x', 'y', 'z']);
        }
        other => panic!("expected Transliterate, got {other:?}"),
    }
}

#[test]
fn parse_labels_and_branches() {
    let cmds = parse(":loop\ns/foo/bar/\nt loop").unwrap();
    assert_eq!(cmds.len(), 3);
    match &cmds[0].command {
        Command::Label(l) => assert_eq!(l, "loop"),
        other => panic!("expected Label, got {other:?}"),
    }
    match &cmds[2].command {
        Command::BranchIfSub(Some(l)) => assert_eq!(l, "loop"),
        other => panic!("expected BranchIfSub, got {other:?}"),
    }
}

#[test]
fn parse_append_text() {
    let cmds = parse("a hello world").unwrap();
    assert_eq!(cmds.len(), 1);
    match &cmds[0].command {
        Command::Append(t) => assert_eq!(t, "hello world"),
        other => panic!("expected Append, got {other:?}"),
    }
}

#[test]
fn parse_last_line_address() {
    let cmds = parse("$d").unwrap();
    assert_eq!(cmds.len(), 1);
    match &cmds[0].address {
        AddressRange::Single {
            addr: Address::Last,
            ..
        } => {}
        other => panic!("expected Last address, got {other:?}"),
    }
}

#[test]
fn parse_step_address() {
    let cmds = parse("0~2d").unwrap();
    assert_eq!(cmds.len(), 1);
    match &cmds[0].address {
        AddressRange::Single {
            addr: Address::Step { first: 0, step: 2 },
            ..
        } => {}
        other => panic!("expected Step address, got {other:?}"),
    }
}

/// The message of a syntax error.
fn message_of(script: &str) -> String {
    match parse(script) {
        Err(Error::Parse(message)) => message,
        other => panic!("expected a syntax error, got {other:?}"),
    }
}

#[test]
fn syntax_errors() {
    assert_eq!(message_of("k"), "unknown command: 'k'");
    assert_eq!(message_of("!d"), "'!' without preceding address");
    assert_eq!(message_of("1,d"), "expected address after ','");
    assert_eq!(message_of("\\"), "expected delimiter after '\\'");
    assert_eq!(message_of("/a"), "unterminated regex (expected closing '/')");
    assert_eq!(message_of("s|a"), "unterminated regex (expected closing '|')");
    assert_eq!(message_of("s/a/b"), "unterminated replacement (expected closing '/')");
    assert_eq!(message_of("s"), "missing delimiter for s command");
    assert_eq!(message_of("y"), "missing delimiter for y command");
    assert_eq!(
        message_of("y/abc/d/"),
        "y command: 'from' and 'to' must be same length (3 vs 1)"
    );
    assert_eq!(message_of("1{p"), "unterminated block (missing '}')");
}

#[test]
fn comments_and_separators_say_nothing() {
    assert_eq!(parse(" ;\n\t# nothing\n;").unwrap().len(), 0);
    assert_eq!(parse("").unwrap().len(), 0);
}

#[test]
fn addresses_without_a_command_are_dropped() {
    let cmds = parse("5\np").unwrap();
    assert_eq!(cmds.len(), 1);
    assert!(matches!(cmds[0].address, AddressRange::Every));
    assert_eq!(parse("5").unwrap().len(), 0);
    assert_eq!(parse("}").unwrap().len(), 0);
}

#[test]
fn large_numbers_are_capped() {
    let cmds = parse("99999999999999999999999d").unwrap();
    assert!(matches!(
        cmds[0].address,
        AddressRange::Single { addr: Address::Line(usize::MAX), negated: false }
    ));
}

#[test]
fn file_names_and_shell_commands() {
    let cmds = parse("r one ;w two\ne a;b \nW x;R y;F;v 4.2").unwrap();
    assert_eq!(cmds.len(), 7);
    assert!(matches!(&cmds[0].command, Command::ReadFile(f) if f == "one"));
    assert!(matches!(&cmds[1].command, Command::WriteFile(f) if f == "two"));
    assert!(matches!(&cmds[2].command, Command::Execute(Some(c)) if c == "a;b"));
    assert!(matches!(&cmds[3].command, Command::WriteFirstLine(f) if f == "x"));
    assert!(matches!(&cmds[4].command, Command::ReadLine(f) if f == "y"));
    assert!(matches!(&cmds[5].command, Command::PrintFileName));
    assert!(matches!(&cmds[6].command, Command::Noop));
    assert!(matches!(&parse("e").unwrap()[0].command, Command::Execute(None)));
}

#[test]
fn delimiter_escape_is_resolved_in_the_replacement_alone() {
    let cmds = parse(r"s|a\|b|c\|\n|").unwrap();
    match &cmds[0].command {
        Command::Substitute(s) => {
            assert_eq!(s.pattern, r"a\|b");
            assert_eq!(s.replacement, r"c|\n");
        }
        other => panic!("expected Substitute, got {other:?}"),
    }
}

#[test]
fn substitute_flags_combine() {
    let cmds = parse("s/a/b/3gpIw out file ;p").unwrap();
    assert_eq!(cmds.len(), 2);
    match &cmds[0].command {
        Command::Substitute(s) => {
            assert_eq!(s.nth, Some(3));
            assert!(s.global && s.print && s.case_insensitive);
            assert_eq!(s.write_file.as_deref(), Some("out file"));
        }
        other => panic!("expected Substitute, got {other:?}"),
    }
}

#[test]
fn copies_are_equal() {
    let cmds = parse("/a/,$!{s/x/y/2w f\ny/ab/ba/;b end};:end;1~2q3").unwrap();
    assert_eq!(format!("{:?}", cmds.clone()), format!("{cmds:?}"));
}

#[test]
fn scripts_are_read_in_order() {
    for a in ["", "# nothing", "5", "1!", "p;", "s/a/b/w f", "/x/{p;y/a/b/}", "b end", "q 3 "] {
        for b in ["", "p", "2,3{d}", ":end"] {
            let mut both = parse(a).unwrap();
            both.extend(parse(b).unwrap());
            let joined = parse(&format!("{a}\n{b}")).unwrap();
            assert_eq!(format!("{joined:?}"), format!("{both:?}"));
        }
    }
}

#[test]
fn text_may_go_on_behind_a_newline() {
    let cmds = parse("a\np").unwrap();
    assert_eq!(cmds.len(), 1);
    assert!(matches!(&cmds[0].command, Command::Append(text) if text == "p"));
}
