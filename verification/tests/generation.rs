use orifude::content::generator;
use orifude::domain::paper::{BrushRule, CellId, Fold, FoldDirection};
use orifude::domain::puzzle::{Puzzle, PuzzleIdentity, PuzzleSpec};
use orifude::generator::{
    CalendarDate, CalendarDateError, GenerationError, GenerationOutcome, GenerationSeed, Generator, GeneratorConfig,
};
use orifude::solver::{state_admission, ExhaustionReason, InvalidSolverInput, NeverCancel, SolveOutcome, Solver, SolverLimits};

#[test]
fn calendar_dates_follow_the_gregorian_calendar() {
    assert!(CalendarDate::new(2024, 2, 29).is_ok());
    assert_eq!(CalendarDate::new(2023, 2, 29), Err(CalendarDateError::Day { found: 29, maximum: 28 }));
    assert_eq!(CalendarDate::new(1900, 2, 29), Err(CalendarDateError::Day { found: 29, maximum: 28 }));
    assert!(CalendarDate::new(2000, 2, 29).is_ok());
    assert_eq!(CalendarDate::new(2024, 13, 1), Err(CalendarDateError::Month { found: 13 }));
    assert_eq!(CalendarDate::new(2024, 4, 3).unwrap().label(), "2024-04-03");
}

#[test]
fn daily_seeds_are_stable_and_distinct() {
    let day = CalendarDate::new(2025, 6, 1).unwrap();
    let next = CalendarDate::new(2025, 6, 2).unwrap();
    assert_eq!(GenerationSeed::for_date(day), GenerationSeed::for_date(day));
    assert_ne!(GenerationSeed::for_date(day).value(), GenerationSeed::for_date(next).value());
    assert_eq!(GenerationSeed::current(7).compatibility_version(), 1);
    assert_eq!(GenerationSeed::current(255).label(), "v1-00000000000000ff");
    assert!(GenerationSeed::for_date_with_version(2, day).is_err());
}

#[test]
fn generation_is_deterministic_for_a_seed() {
    let generator = generator("orifude-endless").unwrap();
    let first = generator.generate(GenerationSeed::current(11), &NeverCancel);
    let second = generator.generate(GenerationSeed::current(11), &NeverCancel);
    match (first, second) {
        (GenerationOutcome::Generated { puzzle: a, .. }, GenerationOutcome::Generated { puzzle: b, .. }) => {
            assert_eq!(a.puzzle(), b.puzzle());
            assert_eq!(a.solution().replay().actions(), b.solution().replay().actions());
            assert!(a.puzzle().identity().puzzle_id().starts_with("paper-v1-000000000000000b-"));
        }
        _ => panic!("the endless policy generates from this seed"),
    }
    assert!(matches!(
        generator.generate(GenerationSeed::new(2, 11), &NeverCancel),
        GenerationOutcome::Invalid(GenerationError::UnsupportedCompatibility { found: 2, supported: 1 })
    ));
}

#[test]
fn policies_are_checked_before_generation() {
    let base = || GeneratorConfig::new("pack", 4, 4).unwrap();
    assert!(matches!(Generator::new(base()), Err(GenerationError::NeedsFold)));
    let folds = vec![Fold::new(FoldDirection::Left, 2)];
    let with_fold = base().with_rules(folds.clone(), vec![]).unwrap().with_budgets(1, 0);
    assert!(matches!(Generator::new(with_fold), Err(GenerationError::NeedsBrush)));
    let no_attempts = base()
        .with_rules(folds.clone(), vec![BrushRule::Dot])
        .unwrap()
        .with_budgets(1, 1)
        .with_attempt_limit(0);
    assert!(matches!(Generator::new(no_attempts), Err(GenerationError::AttemptLimit { found: 0, maximum: 512 })));
    let over_budget = base()
        .with_rules(folds, vec![BrushRule::Dot])
        .unwrap()
        .with_budgets(1, 1)
        .with_source_action_range(2, 3);
    assert!(matches!(
        Generator::new(over_budget),
        Err(GenerationError::SourceActionsExceedBudget { maximum: 3, budget: 2 })
    ));
    assert!(matches!(GeneratorConfig::new("Bad", 4, 4), Err(GenerationError::Puzzle(_))));
}

#[test]
fn the_solver_finds_a_shortest_solution() {
    let puzzle = Puzzle::new(
        PuzzleSpec::new(PuzzleIdentity::new("sample-pack", "across").unwrap(), 4, 4)
            .with_target_cells(vec![CellId::new(5).unwrap(), CellId::new(6).unwrap()])
            .with_allowed_folds(vec![Fold::new(FoldDirection::Right, 2)])
            .with_allowed_brushes(vec![BrushRule::Dot])
            .with_budgets(1, 2),
    )
    .unwrap();
    match Solver::solve(&puzzle, SolverLimits::default(), &NeverCancel) {
        SolveOutcome::Solved(solution) => {
            assert_eq!(solution.replay().actions().len(), 2);
            assert_eq!(solution.score().folds().get() + solution.score().strokes().get(), 2);
            assert!(solution.replay().execute(&puzzle).unwrap().result().is_success());
        }
        other => panic!("expected a solution, got {other:?}"),
    }
    assert!(matches!(
        Solver::solve(&puzzle, SolverLimits::new(0, 1024, 4), &NeverCancel),
        SolveOutcome::Invalid(InvalidSolverInput::VisitedStateLimit { found: 0, maximum: 250_000 })
    ));
    assert!(matches!(
        SolverLimits::new(10, 10, 21).validate(),
        Err(InvalidSolverInput::DepthLimit { found: 21, maximum: 20 })
    ));
}

#[test]
fn an_impossible_target_is_unsolved() {
    let puzzle = Puzzle::new(
        PuzzleSpec::new(PuzzleIdentity::new("sample-pack", "apart").unwrap(), 4, 4)
            .with_target_cells(vec![CellId::new(0).unwrap(), CellId::new(15).unwrap()])
            .with_allowed_brushes(vec![BrushRule::Dot])
            .with_budgets(0, 1),
    )
    .unwrap();
    assert!(matches!(Solver::solve(&puzzle, SolverLimits::default(), &NeverCancel), SolveOutcome::Unsolved(_)));
}

#[test]
fn a_generated_par_is_the_best_score_the_solver_finds() {
    let generator = generator("orifude-endless").unwrap();
    let generated = match generator.generate(GenerationSeed::current(7), &NeverCancel) {
        GenerationOutcome::Generated { puzzle, stats } => {
            assert_eq!(stats.attempted_candidates(), puzzle.candidate_attempt() + 1);
            puzzle
        }
        _ => panic!("the endless policy generates from this seed"),
    };
    let par = generated.puzzle().par().expect("a generated puzzle has a par");
    assert_eq!(par.folds(), generated.solution().score().folds());
    assert_eq!(par.strokes(), generated.solution().score().strokes());
    match Solver::solve(generated.puzzle(), SolverLimits::default(), &NeverCancel) {
        SolveOutcome::Solved(best) => {
            assert_eq!(best.score().folds(), par.folds());
            assert_eq!(best.score().strokes(), par.strokes());
        }
        _ => panic!("a generated puzzle is solvable within the policy's limits"),
    }
}

#[test]
fn the_solver_stops_at_its_state_and_memory_limits() {
    let puzzle = Puzzle::new(
        PuzzleSpec::new(PuzzleIdentity::new("sample-pack", "across").unwrap(), 4, 4)
            .with_target_cells(vec![CellId::new(5).unwrap(), CellId::new(6).unwrap()])
            .with_allowed_folds(vec![Fold::new(FoldDirection::Right, 2)])
            .with_allowed_brushes(vec![BrushRule::Dot])
            .with_budgets(1, 2),
    )
    .unwrap();
    let memory = SolverLimits::default().max_memory_bytes();
    match Solver::solve(&puzzle, SolverLimits::new(1, memory, 4), &NeverCancel) {
        SolveOutcome::Exhausted { reason: ExhaustionReason::VisitedStates, stats } => {
            assert_eq!(stats.visited_states(), 1);
            assert!(stats.retained_memory_bytes() <= memory);
        }
        other => panic!("expected the state limit to stop the search, got {other:?}"),
    }
    match Solver::solve(&puzzle, SolverLimits::new(1000, 1, 4), &NeverCancel) {
        SolveOutcome::Exhausted { reason: ExhaustionReason::Memory, stats } => {
            assert_eq!(stats.visited_states(), 0);
        }
        other => panic!("expected the memory limit to stop the search, got {other:?}"),
    }
}

#[test]
fn a_state_is_kept_only_within_both_limits() {
    let limits = SolverLimits::new(3, 1000, 4);
    assert_eq!(state_admission(3, 100, 10, limits), Err(ExhaustionReason::VisitedStates));
    assert_eq!(state_admission(2, 995, 10, limits), Err(ExhaustionReason::Memory));
    assert_eq!(state_admission(2, 990, 10, limits), Ok(1000));
    assert_eq!(state_admission(0, 100, 10, limits), Ok(110));
}
