use orifude::author::{author_task, AuthorTask};
use orifude::cli::{CommandOutcome, ExitStatus};
use orifude::author::{action_toml, check_output, installed_at, list_message, remove_message, AuthorError, MAX_AUTHOR_OUTPUT_BYTES};
use orifude::domain::paper::{Column, Coordinate, Fold, FoldDirection, LineStroke, PaperAction, Row};

fn at(row: u8, column: u8) -> Coordinate {
    Coordinate::new(Row::new(row).unwrap(), Column::new(column).unwrap())
}

#[test]
fn actions_are_written_as_inline_tables() {
    assert_eq!(
        action_toml(PaperAction::Fold(Fold::new(FoldDirection::Up, 3))),
        "{ kind = \"fold\", direction = \"up\", crease = 3 }"
    );
    assert_eq!(action_toml(PaperAction::Dot(at(0, 11))), "{ kind = \"dot\", row = 0, column = 11 }");
    assert_eq!(
        action_toml(PaperAction::Line(LineStroke::new(at(2, 1), at(2, 4)))),
        "{ kind = \"line\", start_row = 2, start_column = 1, end_row = 2, end_column = 4 }"
    );
}

#[test]
fn removal_and_listing_messages() {
    assert_eq!(remove_message("garden", true), "Removed pack garden. Saved progress was kept.\n");
    assert_eq!(remove_message("garden", false), "Pack garden is not installed.\n");
    assert_eq!(list_message(&[]), "No puzzle packs are installed.\n");
}

#[test]
fn author_errors_say_what_failed() {
    assert_eq!(AuthorError::Clock.message(), "could not read a valid installation time");
    assert_eq!(AuthorError::Command.message(), "command is not an author operation");
    assert_eq!(AuthorError::OutputLimit.message(), "author command output exceeded its limit");
    let solver = AuthorError::Solver { puzzle_id: "across".to_owned(), reason: "was cancelled" };
    assert_eq!(solver.message(), "solver was cancelled for puzzle across");
}

#[test]
fn output_is_bounded() {
    assert!(check_output("short").is_ok());
    assert!(check_output(&"x".repeat(MAX_AUTHOR_OUTPUT_BYTES)).is_ok());
    assert!(matches!(check_output(&"x".repeat(MAX_AUTHOR_OUTPUT_BYTES + 1)), Err(AuthorError::OutputLimit)));
}

#[test]
fn installation_times_come_from_the_clock() {
    assert!(matches!(installed_at(Some(1_700_000_000)), Ok(1_700_000_000)));
    assert!(matches!(installed_at(None), Err(AuthorError::Clock)));
    assert!(matches!(installed_at(Some(u64::MAX)), Err(AuthorError::Clock)));
}

#[test]
fn only_author_commands_are_author_work() {
    assert!(matches!(author_task(CommandOutcome::Play), Err(orifude::author::AuthorError::Command)));
    assert!(matches!(
        author_task(CommandOutcome::Exit(ExitStatus::Success)),
        Err(orifude::author::AuthorError::Command)
    ));
    assert_eq!(author_task(CommandOutcome::Verify("pack".to_string())).unwrap(), AuthorTask::Verify("pack".to_string()));
    assert_eq!(author_task(CommandOutcome::PackList).unwrap(), AuthorTask::List);
    assert_eq!(
        author_task(CommandOutcome::PackRemove("p".to_string())).unwrap(),
        AuthorTask::Remove("p".to_string())
    );
}
