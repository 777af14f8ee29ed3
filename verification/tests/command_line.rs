use steelwool::cli::{
    diagnostic, exit_code, outcome_of, parse_arguments, report_actions, report_code, stdin_actions,
    tally, Action, Arguments, Outcome, Overlay, Request, Tally,
};
use steelwool::diff::unified;
use steelwool::Error;

fn parse(args: &[&str]) -> Result<Request, String> {
    parse_arguments(&args.iter().map(|a| a.to_string()).collect())
}

fn run(args: &[&str]) -> Arguments {
    match parse(args) {
        Ok(Request::Run(arguments)) => arguments,
        other => panic!("expected a run, got {other:?}"),
    }
}

#[test]
fn files_and_modes_are_read() {
    let arguments = run(&["--check", "a.scm", "--diff", "b.scm"]);
    assert_eq!(arguments.files, vec!["a.scm".to_string(), "b.scm".to_string()]);
    assert!(arguments.check && arguments.diff && !arguments.list_different);
    assert!(!arguments.stdin);
    assert!(arguments.writes_nothing());
    assert!(!run(&["a.scm"]).writes_nothing());
    assert!(run(&["-"]).stdin);
}

#[test]
fn options_take_the_next_argument_as_their_value() {
    let arguments = run(&["--config", "x.toml", "--config-toml", "width = 3", "--set", "width=4"]);
    assert_eq!(arguments.config, Some("x.toml".to_string()));
    assert_eq!(
        arguments.overlays,
        vec![Overlay::Toml("width = 3".to_string()), Overlay::Override("width=4".to_string())]
    );
    assert_eq!(run(&["--config", "--check"]).config, Some("--check".to_string()));
}

#[test]
fn a_double_dash_ends_the_options() {
    let arguments = run(&["--", "-x", "--check"]);
    assert_eq!(arguments.files, vec!["-x".to_string(), "--check".to_string()]);
    assert!(!arguments.check);
}

#[test]
fn help_and_version_stop_reading() {
    assert_eq!(parse(&["-h", "--bogus"]), Ok(Request::Help));
    assert_eq!(parse(&["a.scm", "--help"]), Ok(Request::Help));
    assert_eq!(parse(&["-V"]), Ok(Request::Version));
    assert_eq!(parse(&["--version"]), Ok(Request::Version));
}

#[test]
fn bad_arguments_are_refused() {
    assert_eq!(parse(&["--bogus", "-h"]), Err("unknown option `--bogus`".to_string()));
    assert_eq!(parse(&["--config"]), Err("--config needs a path".to_string()));
    assert_eq!(parse(&["--config-toml"]), Err("--config-toml needs a value".to_string()));
    assert_eq!(parse(&["--set"]), Err("--set needs KEY.PATH=VALUE".to_string()));
}

#[test]
fn a_diagnostic_names_the_line_and_column() {
    let error = Error::UnclosedList { offset: 0 };
    assert_eq!(diagnostic("a.scm", "(define x", &error), "a.scm:1:1: byte 0: unclosed list");
    let error = Error::UnexpectedClose { offset: 6 };
    assert_eq!(
        diagnostic("a.scm", "(a)\n(b))", &error),
        "a.scm:2:3: byte 6: unexpected closing delimiter"
    );
    assert_eq!(
        diagnostic("a.scm", "x", &Error::NotIdempotent),
        "a.scm: internal error: formatting is not idempotent"
    );
}

#[test]
fn outcomes_say_what_formatting_came_to() {
    let source = "(define x 1)\n".to_string();
    assert_eq!(outcome_of("a", source.clone(), Ok(source.clone())), Outcome::Unchanged);
    assert_eq!(
        outcome_of("a", "(define  x 1)\n".to_string(), Ok(source.clone())),
        Outcome::Changed { source: "(define  x 1)\n".to_string(), formatted: source }
    );
    assert_eq!(
        outcome_of("a", "(f".to_string(), Err(Error::UnclosedList { offset: 0 })),
        Outcome::Failed("a:1:1: byte 0: unclosed list".to_string())
    );
}

#[test]
fn reports_follow_the_modes() {
    let changed = Outcome::Changed { source: "(a  b)\n".to_string(), formatted: "(a b)\n".to_string() };
    assert_eq!(
        report_actions(&run(&["a.scm"]), "a.scm", &changed),
        vec![Action::WriteBack("(a b)\n".to_string())]
    );
    assert_eq!(
        report_actions(&run(&["--check", "--list-different", "--diff", "a.scm"]), "a.scm", &changed),
        vec![
            Action::Stdout(unified("a.scm", "(a  b)\n", "(a b)\n")),
            Action::Stdout("a.scm\n".to_string()),
            Action::Stderr("steelwool: would reformat a.scm".to_string()),
        ]
    );
    assert_eq!(report_actions(&run(&["a.scm"]), "a.scm", &Outcome::Unchanged), vec![]);
    assert_eq!(
        report_actions(&run(&["a.scm"]), "a.scm", &Outcome::Failed("a.scm: oops".to_string())),
        vec![Action::Stderr("steelwool: a.scm: oops".to_string())]
    );
}

#[test]
fn exit_codes_put_failure_first() {
    assert_eq!(exit_code(true, true), 2);
    assert_eq!(exit_code(true, false), 2);
    assert_eq!(exit_code(false, true), 1);
    assert_eq!(exit_code(false, false), 0);
    let start = Tally { changed: false, failed: false };
    let failed = tally(start, &Outcome::Failed("x".to_string()), false);
    let changed = tally(
        failed,
        &Outcome::Changed { source: "a".to_string(), formatted: "b".to_string() },
        false,
    );
    assert_eq!(changed, Tally { changed: true, failed: true });
    assert_eq!(report_code(&run(&["--check", "a"]), changed), 2);
    let only_changed = Tally { changed: true, failed: false };
    assert_eq!(report_code(&run(&["--check", "a"]), only_changed), 1);
    assert_eq!(report_code(&run(&["a"]), only_changed), 0);
    let write_failed = tally(
        start,
        &Outcome::Changed { source: "a".to_string(), formatted: "b".to_string() },
        true,
    );
    assert!(write_failed.failed);
}

#[test]
fn standard_input_is_written_or_reported() {
    let source = "(define(f x) 1)\n".to_string();
    let formatted = "(define (f x) 1)\n".to_string();
    assert_eq!(
        stdin_actions(&run(&[]), &source, Ok(formatted.clone())),
        (vec![Action::Stdout(formatted.clone())], 0)
    );
    assert_eq!(
        stdin_actions(&run(&["--check"]), &source, Ok(formatted.clone())),
        (vec![Action::Stderr("steelwool: would reformat <stdin>".to_string())], 1)
    );
    assert_eq!(
        stdin_actions(&run(&["--check"]), &formatted, Ok(formatted.clone())),
        (vec![], 0)
    );
    assert_eq!(
        stdin_actions(&run(&[]), &"(f".to_string(), Err(Error::UnclosedList { offset: 0 })),
        (vec![Action::Stderr("steelwool: <stdin>:1:1: byte 0: unclosed list".to_string())], 2)
    );
}
