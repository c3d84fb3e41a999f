use orifude::cli::{help_text, parse, respond, usage_error_text, Command, ExitStatus, Response};
use orifude::error::OutputStream;

#[test]
fn exit_statuses_have_stable_codes() {
    assert_eq!(ExitStatus::Success.code(), 0);
    assert_eq!(ExitStatus::Failure.code(), 1);
    assert_eq!(ExitStatus::Usage.code(), 2);
}

#[test]
fn arguments_select_a_command() {
    assert_eq!(parse(None, false), Command::Play);
    assert_eq!(parse(Some("-h"), false), Command::Help);
    assert_eq!(parse(Some("--help"), false), Command::Help);
    assert_eq!(parse(Some("-V"), false), Command::Version);
    assert_eq!(parse(Some("--version"), false), Command::Version);
    assert_eq!(parse(Some("--help"), true), Command::Invalid);
    assert_eq!(parse(Some("play"), false), Command::Invalid);
    assert_eq!(parse(Some(""), false), Command::Invalid);
    assert_eq!(parse(Some("--HELP"), false), Command::Invalid);
}

#[test]
fn commands_answer_on_their_stream() {
    assert_eq!(respond(Command::Play, "1.0.2"), Response::Play);
    match respond(Command::Help, "1.0.2") {
        Response::Write { stream, text, status } => {
            assert_eq!(stream, OutputStream::Stdout);
            assert_eq!(text, help_text());
            assert!(text.starts_with("Orifude is a quiet, offline puzzle game for the terminal.\n"));
            assert_eq!(status, ExitStatus::Success);
        }
        Response::Play => panic!("help writes"),
    }
    match respond(Command::Version, "1.0.2") {
        Response::Write { stream, text, status } => {
            assert_eq!(stream, OutputStream::Stdout);
            assert_eq!(text, "orifude 1.0.2\n");
            assert_eq!(status, ExitStatus::Success);
        }
        Response::Play => panic!("version writes"),
    }
    match respond(Command::Invalid, "1.0.2") {
        Response::Write { stream, text, status } => {
            assert_eq!(stream, OutputStream::Stderr);
            assert_eq!(text, usage_error_text());
            assert!(text.starts_with("error: unsupported command-line arguments\n"));
            assert_eq!(status, ExitStatus::Usage);
        }
        Response::Play => panic!("usage errors write"),
    }
}

#[test]
fn output_errors_name_their_stream() {
    let error = orifude::error::OutputError::new(
        OutputStream::Stdout,
        std::io::Error::from(std::io::ErrorKind::BrokenPipe),
    );
    assert_eq!(error.stream(), OutputStream::Stdout);
    assert_eq!(error.source_error().kind(), std::io::ErrorKind::BrokenPipe);
    assert_eq!(error.message(), "could not write to standard output");
    assert_eq!(OutputStream::Stderr.name(), "standard error");
}
