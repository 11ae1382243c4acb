//! The command line.

use sed_rs::cli::{backup_path, prepare, preprocess_args, streams};
use sed_rs::{Error, Options};

#[test]
fn preprocess_i_flag() {
    let args = vec![
        "sed".into(),
        "-i".into(),
        "s/foo/bar/".into(),
        "file".into(),
    ];
    let processed = preprocess_args(args);
    assert_eq!(
        processed,
        vec!["sed", "--in-place", "s/foo/bar/", "file"]
    );
}

#[test]
fn preprocess_i_suffix() {
    let args =
        vec!["sed".into(), "-i.bak".into(), "s/foo/bar/".into()];
    let processed = preprocess_args(args);
    assert_eq!(
        processed,
        vec!["sed", "--in-place=.bak", "s/foo/bar/"]
    );
}

fn strings(list: &[&str]) -> Vec<String> {
    list.iter().map(|s| s.to_string()).collect()
}

#[test]
fn preprocess_stops_at_double_dash() {
    let raw = strings(&["sed", "-n", "-i", "--", "-i", "-i.bak"]);
    assert_eq!(
        preprocess_args(raw),
        vec!["sed", "-n", "--in-place", "--", "-i", "-i.bak"]
    );
}

#[test]
fn first_argument_is_the_script() {
    let options = Options { args: strings(&["p", "a", "b"]), ..Options::default() };
    let (script, files) = options.script_and_files(&vec![]).unwrap();
    assert_eq!(script, "p");
    assert_eq!(files, vec!["a", "b"]);
}

#[test]
fn expressions_and_script_files_are_joined() {
    let options = Options {
        expressions: strings(&["1d", "p"]),
        script_files: strings(&["f"]),
        args: strings(&["a"]),
        ..Options::default()
    };
    let (script, files) = options.script_and_files(&vec![Ok("q".to_string())]).unwrap();
    assert_eq!(script, "1d\np\nq");
    assert_eq!(files, vec!["a"]);
}

#[test]
fn missing_scripts_are_reported() {
    match Options::default().script_and_files(&vec![]) {
        Err(Error::Parse(message)) => assert_eq!(
            message,
            "no script provided. Usage: sed [OPTIONS] SCRIPT [FILE...]"
        ),
        other => panic!("unexpected result: {other:?}"),
    }
    let options = Options { script_files: strings(&["f"]), ..Options::default() };
    match options.script_and_files(&vec![Err("gone".to_string())]) {
        Err(Error::Parse(message)) => {
            assert_eq!(message, "couldn't read script file 'f': gone")
        }
        other => panic!("unexpected result: {other:?}"),
    }
}

#[test]
fn command_lines_are_checked() {
    let options = Options { in_place: Some(String::new()), quiet: true, ..Options::default() };
    let message_of = |script: &str, files: &[&str]| {
        match prepare(&options, script, &strings(files)) {
            Err(Error::Parse(message)) => message,
            _ => String::new(),
        }
    };
    assert_eq!(message_of("", &["a"]), "empty script");
    assert_eq!(message_of("k", &[]), "unknown command: 'k'");
    assert_eq!(message_of("p", &[]), "-i/--in-place requires at least one file argument");
    let engine = prepare(&options, "p", &strings(&["a"])).unwrap_or_else(|_| panic!("refused"));
    assert_eq!(engine.process_stream(b"x\n").unwrap(), "x\n");
}

#[test]
fn files_form_one_stream_unless_separate() {
    assert_eq!(streams(3, false), vec![(0, 3)]);
    assert_eq!(streams(3, true), vec![(0, 1), (1, 2), (2, 3)]);
    assert_eq!(streams(0, false), vec![]);
    assert_eq!(streams(0, true), vec![]);
}

#[test]
fn backups_have_the_suffix() {
    assert_eq!(backup_path("a.txt", ".bak"), Some("a.txt.bak".to_string()));
    assert_eq!(backup_path("a.txt", ""), None);
}

#[test]
fn second_pass_changes_nothing() {
    let raw = strings(&["sed", "-i", "-i.bak", "-in-place", "-n", "--", "-i", "-i.bak"]);
    let once = preprocess_args(raw);
    assert_eq!(
        once,
        strings(&[
            "sed",
            "--in-place",
            "--in-place=.bak",
            "--in-place=n-place",
            "-n",
            "--",
            "-i",
            "-i.bak",
        ])
    );
    assert_eq!(preprocess_args(once.clone()), once);
}
