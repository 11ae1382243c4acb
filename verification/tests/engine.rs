//! Scripts on inputs.

use sed_rs::command;
use sed_rs::engine::Engine;
use sed_rs::Options;

fn run_sed(script: &str, input: &str) -> String {
    run_sed_opts(script, input, false)
}

fn run_sed_opts(script: &str, input: &str, quiet: bool) -> String {
    let parsed = command::parse(script).unwrap();
    let options = Options {
        quiet,
        expressions: vec![],
        script_files: vec![],
        in_place: None,
        extended_regexp: false,
        separate: false,
        null_data: false,
        args: vec![],
    };
    let engine = Engine::new(parsed, &options).unwrap();
    engine.process_stream(input.as_bytes()).unwrap()
}

#[test]
fn substitute_basic() {
    assert_eq!(run_sed("s/foo/bar/", "foo\n"), "bar\n");
}

#[test]
fn substitute_global() {
    assert_eq!(
        run_sed("s/o/0/g", "foo boo\n"),
        "f00 b00\n"
    );
}

#[test]
fn substitute_first_only() {
    assert_eq!(run_sed("s/o/0/", "foo\n"), "f0o\n");
}

#[test]
fn substitute_nth() {
    assert_eq!(run_sed("s/o/0/2", "foo boo\n"), "fo0 boo\n");
}

#[test]
fn substitute_ampersand() {
    assert_eq!(
        run_sed("s/foo/[&]/", "foo\n"),
        "[foo]\n"
    );
}

#[test]
fn substitute_backreference() {
    assert_eq!(
        run_sed("s/(f)(o+)/\\2\\1/", "foo\n"),
        "oof\n"
    );
}

#[test]
fn delete_command() {
    assert_eq!(run_sed("2d", "a\nb\nc\n"), "a\nc\n");
}

#[test]
fn print_command_quiet() {
    assert_eq!(
        run_sed_opts("2p", "a\nb\nc\n", true),
        "b\n"
    );
}

#[test]
fn address_regex() {
    assert_eq!(
        run_sed("/^b/d", "apple\nbanana\ncherry\n"),
        "apple\ncherry\n"
    );
}

#[test]
fn address_range() {
    assert_eq!(
        run_sed("2,3d", "a\nb\nc\nd\n"),
        "a\nd\n"
    );
}

#[test]
fn address_negation() {
    assert_eq!(
        run_sed("2!d", "a\nb\nc\n"),
        "b\n"
    );
}

#[test]
fn transliterate() {
    assert_eq!(
        run_sed("y/abc/xyz/", "abc\n"),
        "xyz\n"
    );
}

#[test]
fn quit_command() {
    assert_eq!(run_sed("2q", "a\nb\nc\n"), "a\nb\n");
}

#[test]
fn hold_and_get() {
    // Store line 1 in hold, append it after line 2
    assert_eq!(
        run_sed("1h;2G", "first\nsecond\n"),
        "first\nsecond\nfirst\n"
    );
}

#[test]
fn exchange() {
    assert_eq!(
        run_sed("1{h;d};2{x}", "first\nsecond\n"),
        "first\n"
    );
}

#[test]
fn labels_and_branch() {
    // Simple loop: replace one 'a' at a time with 'b', branch back if substitution made
    assert_eq!(
        run_sed(":l\ns/a/b/\nt l", "aaa\n"),
        "bbb\n"
    );
}

#[test]
fn append_text() {
    assert_eq!(
        run_sed("1a after first", "first\nsecond\n"),
        "first\nafter first\nsecond\n"
    );
}

#[test]
fn insert_text() {
    assert_eq!(
        run_sed("2i before second", "first\nsecond\n"),
        "first\nbefore second\nsecond\n"
    );
}

#[test]
fn line_number() {
    assert_eq!(
        run_sed("=", "a\nb\n"),
        "1\na\n2\nb\n"
    );
}

#[test]
fn multiple_commands() {
    assert_eq!(
        run_sed("s/a/x/; s/b/y/", "ab\n"),
        "xy\n"
    );
}

#[test]
fn last_line_address() {
    assert_eq!(
        run_sed("$d", "a\nb\nc\n"),
        "a\nb\n"
    );
}

#[test]
fn clear_pattern() {
    assert_eq!(run_sed("z", "hello\n"), "\n");
}

#[test]
fn custom_delimiter() {
    assert_eq!(
        run_sed("s|foo|bar|", "foo\n"),
        "bar\n"
    );
}

#[test]
fn case_insensitive_sub() {
    assert_eq!(
        run_sed("s/foo/bar/i", "FOO\n"),
        "bar\n"
    );
}

#[test]
fn block_with_address() {
    assert_eq!(
        run_sed("/a/ { s/a/x/; s/$/!/ }", "a\nb\n"),
        "x!\nb\n"
    );
}

#[test]
fn regex_range_address() {
    assert_eq!(
        run_sed("/start/,/end/d", "a\nstart\nb\nend\nc\n"),
        "a\nc\n"
    );
}

#[test]
fn empty_input() {
    assert_eq!(run_sed("s/a/b/", ""), "");
}

#[test]
fn passthrough_no_match() {
    assert_eq!(
        run_sed("s/xyz/abc/", "hello\n"),
        "hello\n"
    );
}

// ---------------------------------------------------------------
// Comprehensive coverage tests
// ---------------------------------------------------------------

// -- n command --

#[test]
fn n_single_line() {
    // n on the only line: print it, exit (no double-print)
    assert_eq!(run_sed("n", "a\n"), "a\n");
}

#[test]
fn n_two_lines() {
    // n on line 1: print "a", read "b" into PS, auto-print "b"
    assert_eq!(run_sed("n", "a\nb\n"), "a\nb\n");
}

#[test]
fn n_with_command_after() {
    // n reads next line, then subsequent commands operate on it
    assert_eq!(
        run_sed("n;s/b/X/", "a\nb\nc\n"),
        "a\nX\nc\n"
    );
}

#[test]
fn n_quiet_mode() {
    // With -n, n does NOT print before reading next
    assert_eq!(
        run_sed_opts("n;p", "a\nb\nc\n", true),
        "b\n"
    );
}

// -- N command --

#[test]
fn big_n_appends() {
    // N appends next line to pattern space with \n
    assert_eq!(
        run_sed("N;s/\\n/ /", "a\nb\n"),
        "a b\n"
    );
}

#[test]
fn big_n_at_end() {
    // N at last line: print and exit
    assert_eq!(
        run_sed("N", "a\nb\nc\n"),
        "a\nb\nc\n"
    );
}

// -- D command --

#[test]
fn big_d_deletes_first_line_of_pattern() {
    // N;P;D is the classic "sliding window" idiom
    assert_eq!(
        run_sed("N;P;D", "a\nb\nc\n"),
        "a\nb\nc\n"
    );
}

#[test]
fn big_d_single_line() {
    // D on single-line pattern space acts like d (deletes every line)
    assert_eq!(run_sed("D", "a\nb\n"), "");
}

// -- c command --

#[test]
fn change_single_address() {
    assert_eq!(
        run_sed("2c REPLACED", "a\nb\nc\n"),
        "a\nREPLACED\nc\n"
    );
}

#[test]
fn change_regex_address() {
    assert_eq!(
        run_sed("/b/c GONE", "a\nb\nc\n"),
        "a\nGONE\nc\n"
    );
}

// -- P command --

#[test]
fn big_p_first_line() {
    // P prints up to first \n in pattern space
    assert_eq!(
        run_sed("N;P", "first\nsecond\n"),
        "first\nfirst\nsecond\n"
    );
}

// -- i (insert) with address --

#[test]
fn insert_before_last() {
    assert_eq!(
        run_sed("$i END", "a\nb\n"),
        "a\nEND\nb\n"
    );
}

// -- a (append) with regex address --

#[test]
fn append_after_match() {
    assert_eq!(
        run_sed("/b/a AFTER", "a\nb\nc\n"),
        "a\nb\nAFTER\nc\n"
    );
}

// -- Hold space operations --

#[test]
fn hold_append_and_get() {
    // H appends to hold; G appends hold to pattern
    assert_eq!(
        run_sed("1H;2G", "first\nsecond\n"),
        "first\nsecond\n\nfirst\n"
    );
}

#[test]
fn hold_get_replace() {
    // h copies to hold; g copies from hold to pattern
    assert_eq!(
        run_sed("1h;2g", "first\nsecond\n"),
        "first\nfirst\n"
    );
}

#[test]
fn reverse_lines() {
    // Classic sed reverse: 1!G;h;$!d
    assert_eq!(
        run_sed("1!G;h;$!d", "a\nb\nc\n"),
        "c\nb\na\n"
    );
}

// -- x (exchange) --

#[test]
fn exchange_basic() {
    // Hold starts empty, so x on line 1 gives empty, hold gets "a"
    assert_eq!(
        run_sed("x", "a\nb\n"),
        "\na\n"
    );
}

// -- Address ranges --

#[test]
fn range_regex_to_regex() {
    assert_eq!(
        run_sed("/start/,/end/d", "a\nstart\nb\nend\nc\n"),
        "a\nc\n"
    );
}

#[test]
fn range_line_to_last() {
    assert_eq!(
        run_sed("2,$d", "a\nb\nc\nd\n"),
        "a\n"
    );
}

#[test]
fn range_negated() {
    // Delete everything NOT in range 2,3
    assert_eq!(
        run_sed("2,3!d", "a\nb\nc\nd\n"),
        "b\nc\n"
    );
}

#[test]
fn range_start_equals_end_on_same_line() {
    // 2,2d only deletes line 2
    assert_eq!(
        run_sed("2,2d", "a\nb\nc\n"),
        "a\nc\n"
    );
}

#[test]
fn range_regex_no_check_on_start_line() {
    // When start and end regexes could match same line,
    // end is NOT checked on start line (POSIX/GNU behavior)
    assert_eq!(
        run_sed_opts(
            "/\\[start\\]/,/\\[/p",
            "[start]\nfoo\nbar\n[end]\n",
            true,
        ),
        "[start]\nfoo\nbar\n[end]\n"
    );
}

// -- Step address --

#[test]
fn step_even_lines() {
    assert_eq!(
        run_sed("0~2d", "a\nb\nc\nd\ne\n"),
        "a\nc\ne\n"
    );
}

#[test]
fn step_odd_lines() {
    assert_eq!(
        run_sed("1~2d", "a\nb\nc\nd\ne\n"),
        "b\nd\n"
    );
}

// -- Substitute flags --

#[test]
fn sub_nth_3() {
    assert_eq!(run_sed("s/a/X/3", "aaaaa\n"), "aaXaa\n");
}

#[test]
fn sub_global_and_print() {
    assert_eq!(
        run_sed_opts("s/a/X/gp", "aaa\nbbb\n", true),
        "XXX\n"
    );
}

#[test]
fn sub_escaped_delimiter() {
    // Use | as delimiter, pattern contains |
    assert_eq!(
        run_sed("s/a\\/b/X/", "a/b\n"),
        "X\n"
    );
}

#[test]
fn sub_newline_in_replacement() {
    assert_eq!(
        run_sed("s/a/X\\nY/", "a\n"),
        "X\nY\n"
    );
}

#[test]
fn sub_tab_in_replacement() {
    assert_eq!(
        run_sed("s/a/X\\tY/", "a\n"),
        "X\tY\n"
    );
}

#[test]
fn sub_literal_ampersand() {
    // \& should be literal &
    assert_eq!(
        run_sed("s/foo/\\&/", "foo\n"),
        "&\n"
    );
}

#[test]
fn sub_literal_backslash() {
    // \\\\ in replacement → literal backslash
    assert_eq!(
        run_sed("s/a/\\\\/", "a\n"),
        "\\\n"
    );
}

// -- Branching --

#[test]
fn branch_unconditional() {
    // b skip jumps forward past the d command, preserving output
    assert_eq!(
        run_sed("b skip;d;:skip", "hello\n"),
        "hello\n"
    );
}

#[test]
fn branch_unconditional_no_label() {
    // b (no label) branches to end of script
    assert_eq!(
        run_sed("b\nd", "hello\n"),
        "hello\n"
    );
}

#[test]
fn branch_if_sub_no_match() {
    // t should NOT branch if no sub was made
    assert_eq!(
        run_sed("s/x/y/;t end;s/a/X/;:end", "abc\n"),
        "Xbc\n"
    );
}

#[test]
fn branch_if_not_sub() {
    // T branches if last sub was NOT successful
    assert_eq!(
        run_sed("s/x/y/;T skip;s/a/SHOULD_NOT/;:skip", "abc\n"),
        "abc\n"
    );
}

// -- l command (list) --

#[test]
fn list_command() {
    assert_eq!(
        run_sed("l", "a\tb\n"),
        "a\\tb$\na\tb\n"
    );
}

// -- = command (line number) with address --

#[test]
fn line_number_with_address() {
    assert_eq!(
        run_sed("2=", "a\nb\nc\n"),
        "a\n2\nb\nc\n"
    );
}

// -- z (clear pattern) --

#[test]
fn clear_pattern_in_block() {
    assert_eq!(
        run_sed("/hello/{z;s/$/EMPTY/}", "hello\nworld\n"),
        "EMPTY\nworld\n"
    );
}

// -- Multiple commands, complex scripts --

#[test]
fn strip_html_tags() {
    assert_eq!(
        run_sed("s/<[^>]*>//g", "<b>bold</b>\n"),
        "bold\n"
    );
}

#[test]
fn sed_multiline_join() {
    // Join all lines with space using N and s
    assert_eq!(
        run_sed(":a;N;s/\\n/ /;$!b a", "one\ntwo\nthree\n"),
        "one two three\n"
    );
}

#[test]
fn double_space() {
    // Classic double-spacing: G appends empty hold to pattern
    assert_eq!(
        run_sed("G", "a\nb\n"),
        "a\n\nb\n\n"
    );
}

#[test]
fn delete_empty_lines() {
    assert_eq!(
        run_sed("/^$/d", "a\n\nb\n\nc\n"),
        "a\nb\nc\n"
    );
}

#[test]
fn multiple_expressions() {
    // Simulates -e 'cmd1' -e 'cmd2' by joining with newline
    assert_eq!(
        run_sed("s/a/x/\ns/b/y/", "ab\n"),
        "xy\n"
    );
}

#[test]
fn nested_blocks() {
    assert_eq!(
        run_sed("1{/a/{s/a/X/}}", "abc\ndef\n"),
        "Xbc\ndef\n"
    );
}

// -- Edge cases --

#[test]
fn line_with_no_trailing_newline() {
    // Input without trailing newline
    assert_eq!(run_sed("s/a/X/", "abc"), "Xbc\n");
}

#[test]
fn single_empty_line() {
    assert_eq!(run_sed("s/^$/EMPTY/", "\n"), "EMPTY\n");
}

#[test]
fn substitute_with_empty_replacement() {
    assert_eq!(run_sed("s/foo//", "foobar\n"), "bar\n");
}

#[test]
fn substitute_with_empty_pattern_match() {
    // Regex that matches empty string at beginning
    assert_eq!(run_sed("s/^/PREFIX: /", "hello\n"), "PREFIX: hello\n");
}

#[test]
fn multiple_ranges_interleaved() {
    // Two separate range commands
    let input = "a\nb\nc\nd\ne\nf\n";
    assert_eq!(
        run_sed("2,3s/./X/;5,6s/./Y/", input),
        "a\nX\nX\nd\nY\nY\n"
    );
}

#[test]
fn regex_special_chars() {
    assert_eq!(
        run_sed("s/\\./X/g", "a.b.c\n"),
        "aXbXc\n"
    );
}

#[test]
fn regex_anchors() {
    assert_eq!(
        run_sed("s/^/> /", "hello\n"),
        "> hello\n"
    );
    assert_eq!(
        run_sed("s/$/ </", "hello\n"),
        "hello <\n"
    );
}

// -- q and Q --

#[test]
fn quit_prints_current_line() {
    // q should print the current line before quitting
    assert_eq!(run_sed("2q", "a\nb\nc\n"), "a\nb\n");
}

#[test]
fn quit_no_print() {
    // Q quits without printing pattern space
    assert_eq!(run_sed("2Q", "a\nb\nc\n"), "a\n");
}

// -- Complex real-world scripts --

#[test]
fn remove_trailing_whitespace() {
    assert_eq!(
        run_sed("s/[ \t]*$//", "hello   \nworld\t\t\n"),
        "hello\nworld\n"
    );
}

#[test]
fn number_lines() {
    // Print line number then line (like nl)
    assert_eq!(
        run_sed("=;s/^/  /", "a\nb\n"),
        "1\n  a\n2\n  b\n"
    );
}

#[test]
fn print_only_matches() {
    // -n with /pattern/p
    assert_eq!(
        run_sed_opts("/foo/p", "foo\nbar\nfoo2\n", true),
        "foo\nfoo2\n"
    );
}

#[test]
fn delete_first_and_last() {
    assert_eq!(
        run_sed("1d;$d", "a\nb\nc\n"),
        "b\n"
    );
}

#[test]
fn change_every_matching_line() {
    assert_eq!(
        run_sed("/old/c new", "old\nkeep\nold\n"),
        "new\nkeep\nnew\n"
    );
}

// --- Flags of the s command ---

#[test]
fn sub_nth_and_global_replaces_from_there_on() {
    assert_eq!(run_sed("s/x/y/2g", "xxxx\n"), "xyyy\n");
    assert_eq!(run_sed("s/x/y/g2", "xxxx\n"), "xyyy\n");
    assert_eq!(run_sed("s/x/y/5g", "xxxx\n"), "xxxx\n");
}

#[test]
fn sub_match_number_zero_does_not_exist() {
    assert_eq!(run_sed("s/x/y/0", "xxxx\n"), "xxxx\n");
    assert_eq!(run_sed("s/x/y/0g", "xxxx\n"), "xxxx\n");
}

#[test]
fn sub_groups_that_are_missing_are_empty() {
    assert_eq!(run_sed(r"s/(a)|(b)/[\1\2\3]/g", "ab\n"), "[a][b]\n");
    assert_eq!(run_sed(r"s/b/<\0>/", "abc\n"), "a<b>c\n");
}

#[test]
fn sub_unknown_escape_is_kept() {
    assert_eq!(run_sed(r"s/a/\q/", "a\n"), "\\q\n");
}

#[test]
fn sub_empty_matches() {
    assert_eq!(run_sed("s/x*/-/g", "abc\n"), "-a-b-c-\n");
}

#[test]
fn sub_on_wide_characters() {
    assert_eq!(run_sed("s/ö/o/g", "höhö ß\n"), "hoho ß\n");
    assert_eq!(run_sed("s/./[&]/2", "äöü\n"), "ä[ö]ü\n");
}

#[test]
fn sub_ampersand_keeps_the_line() {
    assert_eq!(run_sed("s/[a-c]+/&/g", "abc xyz cab\n"), "abc xyz cab\n");
}

// --- Addresses ---

#[test]
fn line_range_that_ends_before_it_starts() {
    assert_eq!(run_sed("3,1d", "a\nb\nc\nd\n"), "a\nb\nd\n");
}

#[test]
fn line_range_from_zero_selects_nothing() {
    assert_eq!(run_sed("0,2d", "a\nb\nc\n"), "a\nb\nc\n");
}

#[test]
fn step_address_with_first() {
    assert_eq!(run_sed_opts("2~3p", "1\n2\n3\n4\n5\n6\n7\n8\n", true), "2\n5\n8\n");
    assert_eq!(run_sed_opts("2~0p", "1\n2\n3\n", true), "2\n");
}

#[test]
fn range_that_opens_again() {
    assert_eq!(
        run_sed_opts("/a/,/b/p", "a\n1\nb\n2\na\n3\n", true),
        "a\n1\nb\na\n3\n"
    );
}

#[test]
fn address_of_a_label_does_not_count() {
    assert_eq!(run_sed("b end;d;5:end", "a\n"), "a\n");
}

#[test]
fn later_label_of_one_name_counts() {
    assert_eq!(run_sed("b x;:x;d;:x", "a\n"), "a\n");
}

#[test]
fn branch_to_unknown_label_ends_the_script() {
    assert_eq!(run_sed("b nowhere;d", "a\n"), "a\n");
}

#[test]
fn block_is_skipped_with_the_blocks_in_it() {
    assert_eq!(run_sed("2{/x/{d};s/$/!/};s/^/-/", "a\nb\n"), "-a\n-b!\n");
}

#[test]
fn branch_out_of_a_block_and_into_one() {
    assert_eq!(run_sed("b in;s/a/X/;1{s/a/Y/;:in;s/a/Z/}", "a\n"), "Z\n");
}

// --- Commands ---

#[test]
fn transliterate_first_pair_counts() {
    assert_eq!(run_sed("y/aba/xyz/", "abc\n"), "xyc\n");
}

#[test]
fn change_flushes_what_was_queued() {
    assert_eq!(run_sed("a queued\nc new", "old\n"), "new\nqueued\n");
}

#[test]
fn next_prints_the_queue_twice() {
    assert_eq!(run_sed("a queued\nn", "a\nb\n"), "a\nqueued\nb\nqueued\n");
}

#[test]
fn big_d_forgets_the_queue() {
    assert_eq!(run_sed("1{N;a queued\nD}", "a\nb\n"), "b\n");
}

#[test]
fn conditional_branch_resets_the_flag() {
    assert_eq!(run_sed("s/a/b/;t one;s/$/!/;:one;t two;s/$/?/;:two", "a\n"), "b?\n");
}

#[test]
fn list_escapes() {
    assert_eq!(
        run_sed_opts("l", "\x07\x08\x0c\x1b\r\\\x01\u{85}é\n", true),
        "\\a\\b\\f\\e\\r\\\\\\x01\\x85é$\n"
    );
}

#[test]
fn text_is_continued_on_the_next_line() {
    assert_eq!(run_sed("a\\\none\\\ntwo", "x\n"), "x\none\ntwo\n");
}

#[test]
fn insert_and_append_in_quiet_mode() {
    assert_eq!(run_sed_opts("i before\na after", "x\n", true), "before\nafter\n");
}

#[test]
fn quit_without_code_and_with_queue() {
    assert_eq!(run_sed("a queued\nq", "a\nb\n"), "a\nqueued\n");
}

#[test]
fn crlf_is_taken_off() {
    assert_eq!(run_sed("s/$/!/", "a\r\nb\n"), "a!\nb!\n");
}

// --- Ends of runs ---

fn result_of(script: &str, input: &[u8]) -> sed_rs::Result<String> {
    let parsed = command::parse(script).unwrap();
    Engine::new(parsed, &Options::default()).unwrap().process_stream(input)
}

#[test]
fn exit_code_is_an_error() {
    assert!(matches!(result_of("q3", b"a\n"), Err(sed_rs::Error::Exit(3))));
    assert!(matches!(result_of("Q4", b"a\n"), Err(sed_rs::Error::Exit(4))));
    assert_eq!(result_of("q0", b"a\n").unwrap(), "a\n");
}

#[test]
fn files_and_the_shell_are_external() {
    for script in ["r f", "R f", "w f", "W f", "e f", "s/a/b/w f"] {
        match result_of(script, b"a\n") {
            Err(sed_rs::Error::External(name)) => assert_eq!(name, "f"),
            other => panic!("unexpected result: {other:?}"),
        }
    }
    assert_eq!(result_of("2r f", b"a\n").unwrap(), "a\n");
}

#[test]
fn broken_line_is_an_error_unless_it_is_the_first() {
    assert!(matches!(
        result_of("p", b"a\n\xff\n"),
        Err(sed_rs::Error::InvalidUtf8)
    ));
    assert_eq!(result_of("p", b"\xff\na\n").unwrap(), "");
    assert_eq!(result_of("1q", b"a\nb\n\xff\n").unwrap(), "a\n");
}

#[test]
fn refused_pattern_is_reported() {
    let parsed = command::parse("/(/d").unwrap();
    assert!(matches!(
        Engine::new(parsed, &Options::default()),
        Err(sed_rs::Error::Regex(_))
    ));
    let parsed = command::parse("/(/:label").unwrap();
    assert!(Engine::new(parsed, &Options::default()).is_ok());
}

// --- Whole scripts ---

#[test]
fn reversing_twice_gives_the_input_back() {
    let input = "one\n\ntwo\nthree \n";
    let reversed = run_sed("1!G;h;$!d", input);
    assert_eq!(reversed, "three \ntwo\n\none\n");
    assert_eq!(run_sed("1!G;h;$!d", &reversed), input);
}

#[test]
fn delete_and_its_negation_split_the_lines() {
    let input = "a1\nb2\na3\nb4\na5\n";
    for address in ["2", "$", "/a/", "0~2", "2,4", "/b/,$", "2,/a/", "/3/,2", "4~2,/z/"] {
        let deleted = run_sed(&format!("{address}d"), input);
        let kept = run_sed(&format!("{address}!d"), input);
        assert_eq!(run_sed_opts(&format!("{address}p"), input, true), kept);
        let mut rest_deleted = deleted.lines().peekable();
        let mut rest_kept = kept.lines().peekable();
        for line in input.lines() {
            if rest_deleted.peek() == Some(&line) {
                rest_deleted.next();
            } else {
                assert_eq!(rest_kept.next(), Some(line));
            }
        }
        assert_eq!(rest_deleted.next(), None);
        assert_eq!(rest_kept.next(), None);
    }
}

#[test]
fn block_that_is_never_entered_makes_no_difference() {
    let input = "a\nb\nc\n";
    assert_eq!(
        run_sed("s/a/x/;/z/{s/b/y/;2{d};:in};t end;s/$/!/;:end", input),
        run_sed("s/a/x/;t end;s/$/!/;:end", input)
    );
}

#[test]
fn transliteration_by_hand_may_have_partners_to_spare() {
    let commands = vec![sed_rs::command::SedCommand {
        address: sed_rs::command::AddressRange::Every,
        command: sed_rs::command::Command::Transliterate {
            from: vec!['a'],
            to: vec!['x', 'y'],
        },
    }];
    let engine = Engine::new(commands, &Options::default()).unwrap();
    assert_eq!(engine.process_stream(b"abc\n").unwrap(), "xbc\n");
}
