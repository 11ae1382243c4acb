//! Runs on input that comes record by record.

use sed_rs::command;
use sed_rs::engine::{Engine, Status};
use sed_rs::session::Session;
use sed_rs::{Error, Options};

fn engine(script: &str) -> Engine {
    Engine::new(command::parse(script).unwrap(), &Options::default()).unwrap()
}

/// Drive a session over records; for each piece of output, how many records had
/// been taken when it was printed.
fn drive(engine: &Engine, records: &[&[u8]]) -> Result<Vec<(usize, String)>, Error> {
    let mut taken = 0;
    let mut next = || {
        let record = records.get(taken).map(|record| record.to_vec());
        if record.is_some() {
            taken += 1;
        }
        (record, taken)
    };
    let (first, mut count) = next();
    let mut session = Session::new(engine, first);
    let mut pieces = Vec::new();
    loop {
        match session.status() {
            Status::Ready => {
                session.step();
                let text = session.take_output();
                if !text.is_empty() {
                    pieces.push((count, text));
                }
            }
            Status::AwaitLine(_) => {
                let record = if session.wants_record() {
                    let (record, now) = next();
                    count = now;
                    record
                } else {
                    None
                };
                session.feed(record)?;
                let text = session.take_output();
                if !text.is_empty() {
                    pieces.push((count, text));
                }
            }
            Status::Finished(_) => return Ok(pieces),
            other => panic!("unexpected status: {other:?}"),
        }
    }
}

#[test]
fn one_record_is_read_ahead() {
    let pieces = drive(&engine("s/^/> /"), &[b"a\n", b"b\n", b"c\n"]).unwrap();
    assert_eq!(
        pieces,
        vec![
            (2, "> a\n".to_string()),
            (3, "> b\n".to_string()),
            (3, "> c\n".to_string())
        ]
    );
}

#[test]
fn pieces_make_up_what_a_run_in_memory_gives() {
    let engine = engine("$!N;P;D");
    let pieces = drive(&engine, &[b"a\n", b"b\n", b"c"]).unwrap();
    let text: String = pieces.into_iter().map(|(_, text)| text).collect();
    assert_eq!(text, engine.process_stream(b"a\nb\nc").unwrap());
}

#[test]
fn broken_record_stops_the_session() {
    let engine = engine("p");
    assert!(matches!(
        drive(&engine, &[b"a\n", b"\xff\n"]),
        Err(Error::InvalidUtf8)
    ));
    assert_eq!(drive(&engine, &[b"\xff\n", b"a\n"]).unwrap(), vec![]);
}

#[test]
fn session_is_served_by_its_host() {
    let engine = engine("F;r one\nR two\nw three\ne four");
    let mut session = Session::new(&engine, Some(b"line\n".to_vec()));
    session.feed(None).unwrap();
    session.set_file_name("input");
    assert_eq!(session.line_number(), 1);
    while !matches!(session.status(), Status::Finished(_)) {
        match session.status() {
            Status::Ready => session.step(),
            Status::AwaitLine(_) => session.feed(None).unwrap(),
            Status::AwaitFile(path) => {
                assert_eq!(path, "one");
                session.supply_file(Some("1\n".to_string()));
            }
            Status::AwaitFileLine(path) => {
                assert_eq!(path, "two");
                session.supply_file_line(Some("2".to_string()));
            }
            Status::AwaitAppend { path, text } => {
                assert_eq!((path.as_str(), text.as_str()), ("three", "line\n"));
                session.appended();
            }
            Status::AwaitShell { command, replace } => {
                assert_eq!((command.as_str(), *replace), ("four", false));
                session.supply_shell_bytes(&vec![b'4', 0xff, b'\n']);
            }
            Status::Finished(_) => unreachable!(),
        }
    }
    assert_eq!(session.take_output(), "input\n4\u{FFFD}\nline\n1\n2\n");
}

#[test]
fn whole_session_prints_what_a_run_in_memory_prints() {
    for script in ["s/^/> /", "1!G;h;$!d", "N;P;D", "$!N;s/\\n/-/", "2q", "=;n;l", "/b/,$d"] {
        let engine = engine(script);
        let records: [&[u8]; 5] = [b"a\n", b"b\n", b"\n", b"b c\n", b"d"];
        let pieces = drive(&engine, &records).unwrap();
        let printed: String = pieces.into_iter().map(|(_, text)| text).collect();
        assert_eq!(printed, engine.process_stream(&records.concat()).unwrap(), "{script}");
    }
}

#[test]
fn session_fails_where_a_run_in_memory_fails() {
    let engine = engine("p");
    let records: [&[u8]; 3] = [b"a\n", b"b\n", b"\xff\n"];
    assert!(matches!(drive(&engine, &records), Err(Error::InvalidUtf8)));
    assert!(matches!(engine.process_stream(&records.concat()), Err(Error::InvalidUtf8)));
}
