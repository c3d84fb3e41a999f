use orifude::content::{generator, journey_group, journey_groups, lesson, BranchGift};
use orifude::domain::paper::{FoldDirection, PaperAction};
use orifude::domain::replay::{Replay, ReplayMetadata};
use orifude::generator::{GenerationError, GenerationOutcome, GenerationSeed};
use orifude::solver::NeverCancel;

#[test]
fn player_generation_policy_produces_a_replay_verified_paper() {
    let generator = generator("orifude-endless").expect("generation policy");
    let outcome = generator.generate(GenerationSeed::current(7), &NeverCancel);
    let GenerationOutcome::Generated { puzzle, .. } = outcome else {
        panic!("fixed player seed should generate a paper");
    };

    assert!(
        puzzle
            .solution()
            .replay()
            .execute(puzzle.puzzle())
            .expect("generated replay executes")
            .result()
            .is_success()
    );
}

#[test]
fn the_lesson_is_solved_by_its_recorded_actions() {
    let paper = lesson().expect("the lesson builds");
    let replay = Replay::new(ReplayMetadata::current(paper.puzzle()), paper.solution().to_vec())
        .expect("recorded replay");
    let attempt = replay.execute(paper.puzzle()).expect("replay executes");
    assert!(attempt.result().is_success());
    assert_eq!(paper.title(), "One fold, one mark");
    assert_eq!(paper.puzzle().identity().pack_id(), "orifude-lesson");
    assert_eq!(paper.puzzle().identity().puzzle_id(), "one-fold");
    assert_eq!(paper.cues().len(), 3);
    assert_eq!(paper.solution().len(), 2);
    match paper.solution()[0] {
        PaperAction::Fold(fold) => {
            assert_eq!(fold.direction(), FoldDirection::Right);
            assert_eq!(fold.crease(), 2);
        }
        _ => panic!("the lesson starts with a fold"),
    }
    match paper.solution()[1] {
        PaperAction::Dot(c) => {
            assert_eq!(c.row().get(), 1);
            assert_eq!(c.column().get(), 2);
        }
        _ => panic!("the lesson ends with a dot"),
    }
    let target = paper.puzzle().target();
    assert_eq!(target.cell_ids().len(), 2);
}

#[test]
fn journey_groups_are_eight_chapters_of_five() {
    let groups = journey_groups();
    assert_eq!(groups.len(), 8);
    for (index, group) in groups.iter().enumerate() {
        assert_eq!(group.first_paper, index * 5);
        assert_eq!(group.paper_count, 5);
    }
    assert_eq!(groups.last().unwrap().first_paper + groups.last().unwrap().paper_count, 40);
    assert_eq!(groups[0].title, "Ink on paper");
    assert_eq!(groups[7].gift, BranchGift::Canopy);
}

#[test]
fn every_journey_paper_has_one_chapter() {
    for paper in 0..40usize {
        let (index, group) = journey_group(paper).expect("a journey paper has a chapter");
        assert_eq!(index, paper / 5);
        assert!(group.first_paper <= paper && paper < group.first_paper + group.paper_count);
    }
    assert!(journey_group(40).is_none());
    assert!(journey_group(usize::MAX).is_none());
    assert_eq!(journey_group(12).unwrap().1.title, "Gathered layers");
}

#[test]
fn gift_labels() {
    assert_eq!(BranchGift::Leaf.label(), "a first leaf");
    assert_eq!(BranchGift::PaperBoat.label(), "a folded boat");
    assert_eq!(BranchGift::Canopy.label(), "the full canopy");
}

#[test]
fn the_endless_policy_refuses_an_invalid_pack_identifier() {
    assert!(matches!(generator("Bad Id"), Err(GenerationError::Puzzle(_))));
    assert!(matches!(generator(""), Err(GenerationError::Puzzle(_))));
}

#[test]
fn a_generated_paper_follows_the_endless_policy() {
    let generator = generator("orifude-endless").expect("generation policy");
    let outcome = generator.generate(GenerationSeed::current(7), &NeverCancel);
    let GenerationOutcome::Generated { puzzle, .. } = outcome else {
        panic!("fixed player seed should generate a paper");
    };
    let paper = puzzle.puzzle();
    let score = puzzle.solution().score();
    assert_eq!(paper.identity().pack_id(), "orifude-endless");
    assert!(paper.identity().puzzle_id().starts_with("paper-v1-0000000000000007-"));
    assert_eq!(paper.dimensions().width().get(), 4);
    assert_eq!(paper.dimensions().height().get(), 4);
    assert_eq!(paper.fold_budget().get(), 2);
    assert_eq!(paper.stroke_budget().get(), 1);
    assert_eq!(paper.allowed_folds().len(), 4);
    let par = paper.par().expect("a generated paper has a par");
    assert_eq!(par.folds().get(), score.folds().get());
    assert_eq!(par.strokes().get(), score.strokes().get());
    assert!(score.folds().get() > 0);
    assert!(score.strokes().get() > 0);
    assert!(puzzle.candidate_attempt() < 64);
}
