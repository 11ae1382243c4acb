//! Runs that a host drives step by step.

use sed_rs::command;
use sed_rs::engine::{Engine, State, Status};
use sed_rs::input::LineReader;
use sed_rs::program::{CompiledAddress, CompiledAddressRange, CompiledCommand};
use sed_rs::{Error, Options};

fn engine(script: &str, options: &Options) -> Engine {
    Engine::new(command::parse(script).unwrap(), options).unwrap()
}

/// Step until the state waits for something or has ended.
fn advance(engine: &Engine, state: &mut State) {
    while matches!(state.status(), Status::Ready) {
        engine.step(state);
    }
}

/// A state that was given its first line and waits for something.
fn first_stop(engine: &Engine, line: &str) -> State {
    let mut state = engine.start();
    engine.supply_line(&mut state, Some((line.to_string(), true)));
    advance(engine, &mut state);
    state
}

#[test]
fn read_file_is_queued_without_trailing_space() {
    let engine = engine("r notes;p", &Options::default());
    let mut state = first_stop(&engine, "line");
    assert!(matches!(state.status(), Status::AwaitFile(path) if path == "notes"));
    state.supply_file(Some("one\ntwo \n\n".to_string()));
    advance(&engine, &mut state);
    assert!(matches!(state.status(), Status::AwaitLine(_)));
    assert_eq!(state.take_output(), "line\nline\none\ntwo\n");
    assert_eq!(state.take_output(), "");
}

#[test]
fn read_file_that_is_missing_does_nothing() {
    let engine = engine("r notes", &Options::default());
    let mut state = first_stop(&engine, "line");
    state.supply_file(None);
    advance(&engine, &mut state);
    assert_eq!(state.take_output(), "line\n");
}

#[test]
fn read_line_is_queued() {
    let engine = engine("R notes", &Options::default());
    let mut state = first_stop(&engine, "line");
    assert!(matches!(state.status(), Status::AwaitFileLine(path) if path == "notes"));
    state.supply_file_line(Some("one ".to_string()));
    advance(&engine, &mut state);
    assert_eq!(state.take_output(), "line\none \n");
    let mut state = first_stop(&engine, "line");
    state.supply_file_line(None);
    advance(&engine, &mut state);
    assert_eq!(state.take_output(), "line\n");
}

#[test]
fn write_file_appends_the_pattern_space() {
    let engine = engine("w log", &Options::default());
    let mut state = first_stop(&engine, "line");
    match state.status() {
        Status::AwaitAppend { path, text } => {
            assert_eq!(path, "log");
            assert_eq!(text, "line\n");
        }
        other => panic!("unexpected status: {other:?}"),
    }
    state.appended();
    advance(&engine, &mut state);
    assert_eq!(state.take_output(), "line\n");
}

#[test]
fn substitution_writes_and_prints() {
    let engine = engine("s/i/o/pw log", &Options::default());
    let mut state = first_stop(&engine, "line");
    assert!(matches!(
        state.status(),
        Status::AwaitAppend { path, text } if path == "log" && text == "lone\n"
    ));
    assert_eq!(state.take_output(), "lone\n");
    state.appended();
    advance(&engine, &mut state);
    assert_eq!(state.take_output(), "lone\n");
}

#[test]
fn substitution_without_match_writes_nothing() {
    let engine = engine("s/x/o/w log", &Options::default());
    let mut state = first_stop(&engine, "line");
    assert!(matches!(state.status(), Status::AwaitLine(_)));
    assert_eq!(state.take_output(), "line\n");
}

#[test]
fn file_name_is_printed() {
    let engine = engine("F", &Options::default());
    let mut state = first_stop(&engine, "line");
    assert_eq!(state.take_output(), "-\nline\n");
    state.set_file_name("notes");
    engine.supply_line(&mut state, Some(("next".to_string(), true)));
    advance(&engine, &mut state);
    assert_eq!(state.take_output(), "notes\nnext\n");
}

#[test]
fn shell_output_is_printed() {
    let engine = engine("e date; time", &Options::default());
    let mut state = first_stop(&engine, "line");
    match state.status() {
        Status::AwaitShell { command, replace } => {
            assert_eq!(command, "date; time");
            assert!(!replace);
        }
        other => panic!("unexpected status: {other:?}"),
    }
    state.supply_shell_output("now\n");
    advance(&engine, &mut state);
    assert_eq!(state.take_output(), "now\nline\n");
}

#[test]
fn shell_output_replaces_the_pattern_space() {
    let engine = engine("e", &Options::default());
    let mut state = first_stop(&engine, "echo hi");
    assert!(matches!(
        state.status(),
        Status::AwaitShell { command, replace: true } if command == "echo hi"
    ));
    state.supply_shell_output("hi\n");
    advance(&engine, &mut state);
    assert_eq!(state.take_output(), "hi\n");
}

#[test]
fn quit_code_is_reported() {
    let engine = engine("q5", &Options::default());
    let mut state = first_stop(&engine, "line");
    assert!(matches!(state.status(), Status::Finished(5)));
    assert_eq!(state.take_output(), "line\n");
    assert_eq!(state.line_number(), 1);
}

#[test]
fn end_of_input_finishes() {
    let engine = engine("p", &Options::default());
    assert!(!engine.null_data());
    let mut state = engine.start();
    assert!(matches!(state.status(), Status::AwaitLine(_)));
    engine.supply_line(&mut state, None);
    assert!(matches!(state.status(), Status::Finished(0)));
    assert_eq!(state.take_output(), "");
}

#[test]
fn lines_are_held_back_by_one() {
    let mut reader = LineReader::new(Some(b"a\r\n".to_vec()), false);
    assert!(reader.has_line());
    assert_eq!(reader.read_line(Some(b"b".to_vec())).unwrap(), Some(("a".to_string(), false)));
    assert_eq!(reader.read_line(None).unwrap(), Some(("b".to_string(), true)));
    assert!(!reader.has_line());
    assert_eq!(reader.read_line(None).unwrap(), None);
}

#[test]
fn broken_line_is_reported_one_line_ahead() {
    let mut reader = LineReader::new(Some(b"a\n".to_vec()), false);
    let result = reader.read_line(Some(vec![0xff, b'\n']));
    assert!(matches!(result, Err(Error::InvalidUtf8)));
    assert!(!LineReader::new(Some(vec![0xff]), false).has_line());
}

#[test]
fn records_with_nul_are_read_lossily() {
    let mut reader = LineReader::new(Some(vec![b'a', 0xff, b'\n', 0]), true);
    assert_eq!(
        reader.read_line(None).unwrap(),
        Some(("a\u{FFFD}\n".to_string(), true))
    );
}

/// Which of the first six lines a range of line numbers selects.
fn selected_lines(a: usize, b: usize, negated: bool) -> Vec<usize> {
    let engine = engine("p", &Options { quiet: true, ..Options::default() });
    let range = CompiledAddressRange::Range {
        start: CompiledAddress::Line(a),
        end: CompiledAddress::Line(b),
        negated,
    };
    let mut state = engine.start();
    let mut selected = vec![];
    for number in 1..7 {
        engine.supply_line(&mut state, Some(("line".to_string(), number == 6)));
        if engine.address_matches(&range, &mut state) {
            selected.push(number);
        }
        advance(&engine, &mut state);
    }
    selected
}

#[test]
fn range_of_line_numbers_is_looked_at_in_order() {
    assert_eq!(selected_lines(2, 4, false), vec![2, 3, 4]);
    assert_eq!(selected_lines(2, 4, true), vec![1, 5, 6]);
    assert_eq!(selected_lines(4, 2, false), vec![4]);
    assert_eq!(selected_lines(3, 3, false), vec![3]);
    assert_eq!(selected_lines(5, 9, false), vec![5, 6]);
    assert_eq!(selected_lines(7, 9, false), Vec::<usize>::new());
}

#[test]
fn exchanging_twice_changes_nothing() {
    let engine = engine("p;p;p", &Options { quiet: true, ..Options::default() });
    let mut state = engine.start();
    engine.supply_line(&mut state, Some(("line".to_string(), true)));
    engine.execute_one(&CompiledCommand::Print, &mut state);
    engine.execute_one(&CompiledCommand::Exchange, &mut state);
    engine.execute_one(&CompiledCommand::Print, &mut state);
    engine.execute_one(&CompiledCommand::Exchange, &mut state);
    engine.execute_one(&CompiledCommand::Print, &mut state);
    assert_eq!(state.take_output(), "line\n\nline\n");
}
