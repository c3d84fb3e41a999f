use orifude::domain::attempt::ActionError;
use orifude::domain::paper::{
    BrushRule, CellId, Column, Coordinate, Dimensions, Fold, FoldDirection, LineStroke, PaperAction, PaperError,
    Row, StrokeAxis,
};
use orifude::domain::puzzle::{Puzzle, PuzzleError, PuzzleIdentity, PuzzleSpec};
use orifude::storage::progress::{best_against_saved, ExistingProgress};
use orifude::solver::{NeverCancel, SolveOutcome, Solver, SolverLimits};
use orifude::domain::replay::{Replay, ReplayError, ReplayMetadata};

fn at(row: u8, column: u8) -> Coordinate {
    Coordinate::new(Row::new(row).unwrap(), Column::new(column).unwrap())
}

fn identity(puzzle: &str) -> PuzzleIdentity {
    PuzzleIdentity::new("sample-pack", puzzle).unwrap()
}

/// A four-by-four sheet with the right half-fold and the dot brush, whose
/// target is the two cells that a dot at row 1, column 2 inks after the fold.
fn across() -> Puzzle {
    Puzzle::new(
        PuzzleSpec::new(identity("across"), 4, 4)
            .with_target_cells(vec![CellId::new(5).unwrap(), CellId::new(6).unwrap()])
            .with_allowed_folds(vec![Fold::new(FoldDirection::Right, 2)])
            .with_allowed_brushes(vec![BrushRule::Dot])
            .with_budgets(1, 1),
    )
    .expect("the sample puzzle is valid")
}

#[test]
fn folding_carries_a_dot_through_both_layers() {
    let puzzle = across();
    let mut attempt = puzzle.start();
    attempt.apply(PaperAction::Fold(Fold::new(FoldDirection::Right, 2))).unwrap();
    attempt.apply(PaperAction::Dot(at(1, 2))).unwrap();
    let result = attempt.result();
    assert!(result.is_success());
    assert_eq!(result.score().folds().get(), 1);
    assert_eq!(result.score().strokes().get(), 1);
    assert_eq!(attempt.ink().cell_ids(), vec![CellId::new(5).unwrap(), CellId::new(6).unwrap()]);
}

#[test]
fn a_dot_on_flat_paper_inks_one_cell() {
    let mut attempt = across().start();
    attempt.apply(PaperAction::Dot(at(1, 2))).unwrap();
    assert_eq!(attempt.ink().cell_ids(), vec![CellId::new(6).unwrap()]);
    assert!(!attempt.result().is_success());
}

#[test]
fn undo_restores_the_paper_and_counts() {
    let mut attempt = across().start();
    let before = attempt.state_key();
    attempt.apply(PaperAction::Fold(Fold::new(FoldDirection::Right, 2))).unwrap();
    assert_eq!(attempt.fold_count().get(), 1);
    attempt.undo().unwrap();
    assert_eq!(attempt.state_key(), before);
    assert_eq!(attempt.fold_count().get(), 0);
    assert_eq!(attempt.undo_count(), 1);
    assert!(matches!(attempt.undo(), Err(ActionError::Paper(PaperError::NothingToUndo))));
}

#[test]
fn reset_returns_to_the_fresh_paper() {
    let puzzle = across();
    let fresh = puzzle.start().state_key();
    let mut attempt = puzzle.start();
    attempt.apply(PaperAction::Fold(Fold::new(FoldDirection::Right, 2))).unwrap();
    attempt.apply(PaperAction::Dot(at(1, 2))).unwrap();
    attempt.reset();
    assert_eq!(attempt.state_key(), fresh);
    assert!(attempt.actions().is_empty());
}

#[test]
fn rules_and_budgets_refuse_actions() {
    let mut attempt = across().start();
    let left = Fold::new(FoldDirection::Left, 2);
    assert!(matches!(attempt.apply(PaperAction::Fold(left)), Err(ActionError::FoldNotAllowed { fold }) if fold == left));
    let line = LineStroke::new(at(0, 0), at(0, 1));
    assert!(matches!(
        attempt.apply(PaperAction::Line(line)),
        Err(ActionError::BrushNotAllowed { rule: BrushRule::Line { axis: StrokeAxis::Horizontal, length: 2 } })
    ));
    attempt.apply(PaperAction::Fold(Fold::new(FoldDirection::Right, 2))).unwrap();
    assert!(matches!(
        attempt.apply(PaperAction::Dot(at(0, 0))),
        Err(ActionError::Paper(PaperError::EmptyBrushPosition { .. }))
    ));
    assert!(matches!(
        attempt.apply(PaperAction::Fold(Fold::new(FoldDirection::Right, 2))),
        Err(ActionError::Paper(_))
    ));
    attempt.apply(PaperAction::Dot(at(0, 3))).unwrap();
    assert!(matches!(
        attempt.apply(PaperAction::Dot(at(0, 2))),
        Err(ActionError::Paper(PaperError::StrokeBudgetExhausted { .. }))
    ));
}

#[test]
fn puzzle_validation_reports_the_first_problem() {
    let base = || PuzzleSpec::new(identity("p"), 4, 4);
    assert!(matches!(
        Puzzle::new(PuzzleSpec::new(identity("p"), 3, 4)),
        Err(PuzzleError::Paper(PaperError::WidthOutOfRange { value: 3 }))
    ));
    assert!(matches!(
        Puzzle::new(PuzzleSpec::new(identity("p"), 4, 13)),
        Err(PuzzleError::Paper(PaperError::HeightOutOfRange { value: 13 }))
    ));
    assert!(matches!(
        Puzzle::new(base().with_format_version(2)),
        Err(PuzzleError::UnsupportedFormatVersion { found: 2, supported: 1 })
    ));
    assert!(matches!(
        Puzzle::new(base().with_target_cells(vec![CellId::new(3).unwrap(), CellId::new(3).unwrap()]).with_budgets(0, 1).with_allowed_brushes(vec![BrushRule::Dot])),
        Err(PuzzleError::DuplicateTargetCell { .. })
    ));
    assert!(matches!(
        Puzzle::new(base().with_target_cells(vec![CellId::new(16).unwrap()])),
        Err(PuzzleError::Paper(PaperError::CellOutsidePaper { cell_count: 16, .. }))
    ));
    let right = Fold::new(FoldDirection::Right, 2);
    assert!(matches!(
        Puzzle::new(base().with_allowed_folds(vec![right, right]).with_budgets(1, 0)),
        Err(PuzzleError::DuplicateAllowedFold { fold }) if fold == right
    ));
    assert!(matches!(
        Puzzle::new(base().with_allowed_folds(vec![Fold::new(FoldDirection::Up, 4)]).with_budgets(1, 0)),
        Err(PuzzleError::AllowedCreaseOutsidePaper { extent: 4, .. })
    ));
    assert!(matches!(
        Puzzle::new(base().with_allowed_brushes(vec![BrushRule::Line { axis: StrokeAxis::Vertical, length: 5 }]).with_budgets(0, 1)),
        Err(PuzzleError::LineLengthOutOfRange { axis: StrokeAxis::Vertical, length: 5, extent: 4 })
    ));
    assert!(matches!(
        Puzzle::new(base().with_allowed_folds(vec![right])),
        Err(PuzzleError::FoldRulesWithoutBudget)
    ));
    assert!(matches!(Puzzle::new(base().with_budgets(1, 0)), Err(PuzzleError::FoldBudgetWithoutRules)));
    assert!(matches!(
        Puzzle::new(base().with_allowed_brushes(vec![BrushRule::Dot])),
        Err(PuzzleError::BrushRulesWithoutBudget)
    ));
    assert!(matches!(Puzzle::new(base().with_budgets(0, 1)), Err(PuzzleError::StrokeBudgetWithoutRules)));
    assert!(matches!(
        Puzzle::new(base().with_target_cells(vec![CellId::new(1).unwrap()])),
        Err(PuzzleError::TargetNeedsStroke)
    ));
    assert!(matches!(
        Puzzle::new(base().with_budgets(13, 0)),
        Err(PuzzleError::Paper(PaperError::FoldBudgetOutOfRange { value: 13 }))
    ));
}

#[test]
fn rules_are_kept_in_rule_order() {
    let puzzle = Puzzle::new(
        PuzzleSpec::new(identity("order"), 6, 6)
            .with_allowed_folds(vec![Fold::new(FoldDirection::Down, 1), Fold::new(FoldDirection::Left, 3)])
            .with_allowed_brushes(vec![BrushRule::Line { axis: StrokeAxis::Horizontal, length: 3 }, BrushRule::Dot])
            .with_budgets(2, 2),
    )
    .unwrap();
    assert_eq!(puzzle.allowed_folds(), &[Fold::new(FoldDirection::Left, 3), Fold::new(FoldDirection::Down, 1)]);
    assert_eq!(
        puzzle.allowed_brushes(),
        &[BrushRule::Dot, BrushRule::Line { axis: StrokeAxis::Horizontal, length: 3 }]
    );
}

#[test]
fn identities_follow_the_portable_grammar() {
    assert!(PuzzleIdentity::new("a-b-9", "x").is_ok());
    assert!(PuzzleIdentity::new("", "x").is_err());
    assert!(PuzzleIdentity::new("-a", "x").is_err());
    assert!(PuzzleIdentity::new("a--b", "x").is_err());
    assert!(PuzzleIdentity::new("A", "x").is_err());
    assert!(PuzzleIdentity::new("a", &"x".repeat(65)).is_err());
    assert!(PuzzleIdentity::new("a", &"x".repeat(64)).is_ok());
}

#[test]
fn lines_are_canonical_and_aligned() {
    let line = LineStroke::new(at(2, 3), at(2, 0));
    assert_eq!(line.start(), at(2, 0));
    assert_eq!(line.end(), at(2, 3));
    assert_eq!(line.axis_and_length(), Ok((StrokeAxis::Horizontal, 4)));
    assert_eq!(LineStroke::new(at(1, 1), at(1, 1)).axis_and_length(), Err(PaperError::LineIsTooShort));
    assert!(matches!(
        LineStroke::new(at(0, 0), at(1, 1)).axis_and_length(),
        Err(PaperError::LineIsNotAxisAligned { .. })
    ));
}

#[test]
fn sizes_and_coordinates_are_bounded() {
    assert!(Dimensions::new(4, 12).is_ok());
    assert_eq!(Dimensions::new(13, 4), Err(PaperError::WidthOutOfRange { value: 13 }));
    assert_eq!(Row::new(12), Err(PaperError::RowOutOfRange { value: 12 }));
    assert_eq!(Column::new(12), Err(PaperError::ColumnOutOfRange { value: 12 }));
    assert_eq!(CellId::new(144), Err(PaperError::CellIdOutOfRange { value: 144 }));
    let d = Dimensions::new(5, 4).unwrap();
    assert_eq!(d.cell_count(), 20);
    assert_eq!(d.cell_id(at(2, 3)).unwrap().get(), 13);
    assert_eq!(d.original_coordinate(CellId::new(13).unwrap()).unwrap(), at(2, 3));
    assert!(d.cell_id(at(4, 0)).is_err());
}

#[test]
fn replays_are_bound_to_their_puzzle() {
    let puzzle = across();
    let actions = vec![PaperAction::Fold(Fold::new(FoldDirection::Right, 2)), PaperAction::Dot(at(1, 2))];
    let replay = Replay::new(ReplayMetadata::current(&puzzle), actions.clone()).unwrap();
    assert!(replay.execute(&puzzle).unwrap().result().is_success());
    let other = Puzzle::new(
        PuzzleSpec::new(identity("other"), 4, 4)
            .with_target_cells(vec![CellId::new(5).unwrap(), CellId::new(6).unwrap()])
            .with_allowed_folds(vec![Fold::new(FoldDirection::Right, 2)])
            .with_allowed_brushes(vec![BrushRule::Dot])
            .with_budgets(1, 1),
    )
    .unwrap();
    assert!(matches!(replay.execute(&other), Err(ReplayError::PuzzleIdentityMismatch)));
    let too_long = vec![PaperAction::Dot(at(0, 0)); 65];
    assert!(matches!(
        Replay::new(ReplayMetadata::current(&puzzle), too_long),
        Err(ReplayError::TooManyActions { count: 65, limit: 64 })
    ));
    let failing = Replay::new(ReplayMetadata::current(&puzzle), vec![PaperAction::Dot(at(1, 2)), PaperAction::Dot(at(1, 1))]).unwrap();
    assert!(matches!(failing.execute(&puzzle), Err(ReplayError::Action { index: 1, .. })));
}

#[test]
fn messages_read_as_sentences() {
    assert_eq!(PaperError::NothingToUndo.message(), "there is no paper action to undo");
    assert_eq!(PaperError::WidthOutOfRange { value: 3 }.message(), "paper width 3 must be between 4 and 12");
    assert_eq!(
        PaperError::EmptyBrushPosition { coordinate: at(1, 2) }.message(),
        "cannot stamp empty position (1, 2)"
    );
    assert_eq!(
        ActionError::FoldNotAllowed { fold: Fold::new(FoldDirection::Left, 2) }.message(),
        "the puzzle does not allow the left fold at crease 2"
    );
    assert_eq!(ReplayError::PuzzleIdentityMismatch.message(), "replay belongs to another puzzle");
    assert_eq!(
        ReplayError::TooManyActions { count: 65, limit: 64 }.message(),
        "replay has 65 actions, above the 64-action limit"
    );
    assert_eq!(FoldDirection::Up.name(), "up");
    assert_eq!(PuzzleError::TargetNeedsStroke.message(), PuzzleError::TargetNeedsStroke.message());
}

#[test]
fn replaying_an_attempt_gives_it_back() {
    let puzzle = across();
    let mut attempt = puzzle.start();
    attempt.apply(PaperAction::Fold(Fold::new(FoldDirection::Right, 2))).unwrap();
    attempt.apply(PaperAction::Dot(at(0, 3))).unwrap();
    attempt.undo().unwrap();
    attempt.apply(PaperAction::Dot(at(1, 2))).unwrap();
    attempt.mark_hint_used();

    let replayed = Replay::from_attempt(&attempt).execute(&puzzle).expect("the replay executes");
    assert!(replayed.state_key().same(&attempt.state_key()));
    assert!(replayed.ink().same(attempt.ink()));
    assert_eq!(replayed.actions(), attempt.actions());
    assert_eq!(replayed.undo_count(), 0);
    assert!(!replayed.hints_used());
    assert_eq!(attempt.undo_count(), 1);
}

#[test]
fn a_completion_competes_only_with_its_own_puzzle() {
    let saved = across();
    let other = Puzzle::new(
        PuzzleSpec::new(identity("elsewhere"), 4, 4)
            .with_allowed_folds(vec![Fold::new(FoldDirection::Right, 2)])
            .with_allowed_brushes(vec![BrushRule::Dot])
            .with_budgets(1, 1),
    )
    .unwrap();
    let previous = ExistingProgress { attempt_count: 1, best_folds: 1, best_strokes: 1, best_replay_id: 7 };
    assert!(best_against_saved(&saved, &other, previous, 0, 0).is_err());
    assert!(!best_against_saved(&saved, &saved, previous, 1, 1).unwrap());
    assert!(best_against_saved(&saved, &saved, previous, 1, 0).unwrap());
}

#[test]
fn the_solver_finds_the_cheapest_solution_or_says_there_is_none() {
    match Solver::solve(&across(), SolverLimits::default(), &NeverCancel) {
        SolveOutcome::Solved(solution) => {
            assert_eq!(solution.score().folds().get(), 1);
            assert_eq!(solution.score().strokes().get(), 1);
            assert!(solution.replay().actions().len() <= 20);
        }
        _ => panic!("the sample puzzle has a solution"),
    }
    let apart = Puzzle::new(
        PuzzleSpec::new(identity("apart"), 4, 4)
            .with_target_cells(vec![CellId::new(0).unwrap(), CellId::new(15).unwrap()])
            .with_allowed_folds(vec![Fold::new(FoldDirection::Right, 2)])
            .with_allowed_brushes(vec![BrushRule::Dot])
            .with_budgets(1, 1),
    )
    .unwrap();
    assert!(matches!(Solver::solve(&apart, SolverLimits::default(), &NeverCancel), SolveOutcome::Unsolved(_)));
}
