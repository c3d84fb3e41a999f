//! Playable puzzle attempts.

use vstd::prelude::*;

use crate::domain::paper::state::{height_at, PaperModel};
use crate::domain::paper::{
    ActionCount, BrushRule, CellId, Coordinate, Dimensions, Fold, FoldCount, InkPattern, LineStroke, Paper,
    PaperAction, PaperError, PaperStateKey, PhysicalCell, StackView, StrokeCount,
};
use crate::domain::puzzle::{Puzzle, PuzzleView};
use crate::domain::score::{AttemptResult, Score};
use crate::domain::replay::{lemma_replays_reset, lemma_replays_step, lemma_replays_undo, run};

verus! {

/// Why a puzzle refuses an action before the paper sees it, if it does.
pub open spec fn rule_error(p: PuzzleView, action: PaperAction) -> Option<ActionError> {
    match action {
        PaperAction::Fold(f) => if p.folds.contains(f) {
            None
        } else {
            Some(ActionError::FoldNotAllowed { fold: f })
        },
        PaperAction::Dot(_) => if p.brushes.contains(BrushRule::Dot) {
            None
        } else {
            Some(ActionError::BrushNotAllowed { rule: BrushRule::Dot })
        },
        PaperAction::Line(line) => match line.spec_axis_and_length() {
            Err(e) => Some(ActionError::Paper(e)),
            Ok((axis, length)) => if p.brushes.contains(BrushRule::Line { axis, length }) {
                None
            } else {
                Some(ActionError::BrushNotAllowed { rule: BrushRule::Line { axis, length } })
            },
        },
    }
}

/// The paper after one action of an attempt on puzzle `p`.
pub open spec fn attempt_step(p: PuzzleView, m: PaperModel, action: PaperAction) -> Result<PaperModel, ActionError> {
    match rule_error(p, action) {
        Some(e) => Err(e),
        None => match m.apply_step(action) {
            Ok(next) => Ok(next),
            Err(e) => Err(ActionError::Paper(e)),
        },
    }
}

/// The actions behind a paper, in the order in which they were made.
pub open spec fn history_actions(m: PaperModel) -> Seq<PaperAction> {
    m.history.map_values(|e: (crate::domain::paper::state::PaperState, PaperAction)| e.1)
}

/// Whether a paper is exactly what replaying its own history on the puzzle gives.
pub open spec fn replays_to(p: PuzzleView, m: PaperModel) -> bool {
    run(p, history_actions(m), history_actions(m).len() as int) == Ok::<PaperModel, (int, ActionError)>(m)
}

/// The fresh paper of a puzzle.
pub open spec fn fresh_paper(p: PuzzleView) -> PaperModel {
    PaperModel::fresh(p.dims, p.fold_budget, p.stroke_budget, ActionCount::spec_of(64))
}

fn contains_rule<T: crate::domain::puzzle::RuleKey>(rules: &[T], rule: T) -> (r: bool)
    ensures
        r == rules@.contains(rule),
{
    let key = rule.rule_key();
    let mut i: usize = 0;
    while i < rules.len()
        invariant
            i <= rules@.len(),
            key as int == rule.key(),
            forall|k: int| 0 <= k < i ==> rules@[k] != rule,
        decreases rules@.len() - i,
    {
        proof {
            T::lemma_key_injective(rules@[i as int], rule);
        }
        if rules[i].rule_key() == key {
            return true;
        }
        i = i + 1;
    }
    false
}

/// One attempt at a puzzle: its paper and its personal history.
#[derive(Clone, Debug, PartialEq, Eq)]
pub struct Attempt {
    puzzle: Puzzle,
    paper: Paper,
    undo_count: u64,
    hints_used: bool,
}

impl Attempt {
    pub closed spec fn puzzle_view(&self) -> PuzzleView {
        self.puzzle.view()
    }

    pub closed spec fn paper_model(&self) -> PaperModel {
        self.paper.model()
    }

    pub closed spec fn undos(&self) -> u64 {
        self.undo_count
    }

    pub closed spec fn hints(&self) -> bool {
        self.hints_used
    }

    pub closed spec fn ink_value(&self) -> InkPattern {
        self.paper.ink_value()
    }

    /// The invariant of every attempt.
    pub closed spec fn wf(&self) -> bool {
        &&& self.puzzle.wf()
        &&& self.paper.wf()
        &&& self.paper.model().dims == self.puzzle.view().dims
        &&& self.paper.model().fold_limit == self.puzzle.view().fold_budget
        &&& self.paper.model().stroke_limit == self.puzzle.view().stroke_budget
        &&& self.paper.model().action_limit.value() == 64
        &&& replays_to(self.puzzle.view(), self.paper.model())
    }

    /// Whether the ink matches the puzzle target exactly.
    pub open spec fn solved(&self) -> bool {
        self.paper_model().state.ink == self.puzzle_view().target.cells()
    }

    /// An attempt's paper is what replaying its own successful actions gives.
    pub proof fn lemma_replays(&self)
        requires
            self.wf(),
        ensures
            replays_to(self.puzzle_view(), self.paper_model()),
    {
    }

    pub proof fn lemma_wf(&self)
        requires
            self.wf(),
        ensures
            self.paper_model().wf(),
            self.puzzle_view().dims == self.paper_model().dims,
            self.puzzle_view().target.dims() == self.paper_model().dims,
            self.paper_model().fold_limit == self.puzzle_view().fold_budget,
            self.paper_model().stroke_limit == self.puzzle_view().stroke_budget,
            self.paper_model().action_limit == ActionCount::spec_of(64),
            self.ink_value().cells() == self.paper_model().state.ink,
            self.ink_value().dims() == self.paper_model().dims,
    {
        ActionCount::lemma_spec_of(64);
        self.paper.lemma_wf();
    }

    /// Starts a fresh attempt on a validated puzzle.
    pub fn new(puzzle: Puzzle) -> (r: Self)
        requires
            puzzle.wf(),
        ensures
            r.wf(),
            r.puzzle_view() == puzzle.view(),
            r.paper_model() == fresh_paper(puzzle.view()),
            r.undos() == 0,
            !r.hints(),
    {
        let spec = puzzle.paper_spec();
        proof {
            puzzle.view().dims.lemma_wf();
        }
        let paper = match Paper::new(spec) {
            Ok(paper) => paper,
            Err(_) => vstd::pervasive::unreached(),
        };
        proof {
            let m = paper.model();
            Dimensions::lemma_eq(m.dims, puzzle.view().dims);
            FoldCount::lemma_spec_of(m.fold_limit.value());
            FoldCount::lemma_spec_of(puzzle.view().fold_budget.value());
            StrokeCount::lemma_spec_of(m.stroke_limit.value());
            StrokeCount::lemma_spec_of(puzzle.view().stroke_budget.value());
            ActionCount::lemma_spec_of(64);
            ActionCount::lemma_spec_of(m.action_limit.value());
        }
        Attempt { puzzle, paper, undo_count: 0, hints_used: false }
    }

    pub fn puzzle(&self) -> (r: &Puzzle)
        ensures
            r.view() == self.puzzle_view(),
            self.wf() ==> r.wf(),
    {
        &self.puzzle
    }

    pub fn dimensions(&self) -> (r: Dimensions)
        ensures
            r == self.paper_model().dims,
    {
        self.paper.dimensions()
    }

    pub fn fold_count(&self) -> (r: FoldCount)
        ensures
            r.value() as int == self.paper_model().state.folds,
    {
        self.paper.fold_count()
    }

    pub fn stroke_count(&self) -> (r: StrokeCount)
        ensures
            r.value() as int == self.paper_model().state.strokes,
    {
        self.paper.stroke_count()
    }

    pub fn action_count(&self) -> (r: ActionCount)
        ensures
            r.value() as int == self.paper_model().state.actions,
    {
        self.paper.action_count()
    }

    pub fn ink(&self) -> (r: InkPattern)
        ensures
            r == self.ink_value(),
            r.cells() == self.paper_model().state.ink,
    {
        self.paper.ink()
    }

    pub fn undo_count(&self) -> (r: u64)
        ensures
            r == self.undos(),
    {
        self.undo_count
    }

    pub fn hints_used(&self) -> (r: bool)
        ensures
            r == self.hints(),
    {
        self.hints_used
    }

    pub fn cell_ids(&self) -> (r: Vec<CellId>)
        requires
            self.wf(),
        ensures
            r@.len() == self.paper_model().state.cells.len(),
            forall|k: int| 0 <= k < r@.len() ==> (#[trigger] r@[k]).value() as int == k,
    {
        self.paper.cell_ids()
    }

    pub fn physical_cell(&self, cell_id: CellId) -> (r: Option<PhysicalCell>)
        ensures
            (cell_id.value() as int) < self.paper_model().state.cells.len() ==> r == Some(
                self.paper_model().state.cells[cell_id.value() as int],
            ),
            (cell_id.value() as int) >= self.paper_model().state.cells.len() ==> r is None,
    {
        self.paper.physical_cell(cell_id)
    }

    /// Derives one bottom-to-top stack into caller-owned storage.
    pub fn stack_at(&self, coordinate: Coordinate, stack: &mut StackView) -> (r: Result<(), ActionError>)
        requires
            self.wf(),
        ensures
            r is Ok <==> self.paper_model().dims.contains(coordinate),
            r matches Err(e) ==> e == ActionError::Paper(self.paper_model().dims.outside_error(coordinate))
                && *final(stack) == *old(stack),
            r is Ok ==> final(stack).ids().len() == height_at(self.paper_model().state.cells, coordinate),
            r is Ok ==> forall|k: int| 0 <= k < final(stack).ids().len() ==> {
                let id = (#[trigger] final(stack).ids()[k]).value() as int;
                &&& 0 <= id < self.paper_model().state.cells.len()
                &&& self.paper_model().state.cells[id].at() == coordinate
                &&& self.paper_model().state.cells[id].level() == k
            },
    {
        match self.paper.stack_at(coordinate, stack) {
            Ok(()) => Ok(()),
            Err(error) => Err(ActionError::Paper(error)),
        }
    }

    pub fn state_key(&self) -> (r: PaperStateKey)
        ensures
            r.key_view() == (self.paper_model().dims, self.paper_model().state.cells, self.ink_value(),
                self.paper_model().state.folds, self.paper_model().state.strokes),
    {
        self.paper.state_key()
    }

    /// The successful actions, oldest first.
    pub fn actions(&self) -> (r: Vec<PaperAction>)
        ensures
            r@.len() == self.paper_model().history.len(),
            forall|k: int| 0 <= k < r@.len() ==> r@[k] == #[trigger] self.paper_model().history[k].1,
    {
        self.paper.actions()
    }

    /// Applies one puzzle-approved action.
    pub fn apply(&mut self, action: PaperAction) -> (r: Result<(), ActionError>)
        requires
            old(self).wf(),
        ensures
            final(self).wf(),
            final(self).puzzle_view() == old(self).puzzle_view(),
            final(self).undos() == old(self).undos(),
            final(self).hints() == old(self).hints(),
            attempt_step(old(self).puzzle_view(), old(self).paper_model(), action) matches Ok(m) ==> r is Ok
                && final(self).paper_model() == m,
            attempt_step(old(self).puzzle_view(), old(self).paper_model(), action) matches Err(e) ==> r
                == Err::<(), ActionError>(e) && *final(self) == *old(self),
    {
        match action {
            PaperAction::Fold(fold) => {
                if !contains_rule(self.puzzle.allowed_folds(), fold) {
                    return Err(ActionError::FoldNotAllowed { fold });
                }
            },
            PaperAction::Dot(_) => {
                if !contains_rule(self.puzzle.allowed_brushes(), BrushRule::Dot) {
                    return Err(ActionError::BrushNotAllowed { rule: BrushRule::Dot });
                }
            },
            PaperAction::Line(line) => {
                let (axis, length) = match line.axis_and_length() {
                    Ok(pair) => pair,
                    Err(error) => return Err(ActionError::Paper(error)),
                };
                let rule = BrushRule::Line { axis, length };
                if !contains_rule(self.puzzle.allowed_brushes(), rule) {
                    return Err(ActionError::BrushNotAllowed { rule });
                }
            },
        }
        let ghost before = self.paper.model();
        proof {
            if attempt_step(self.puzzle.view(), before, action) is Ok {
                lemma_replays_step(self.puzzle.view(), before, action);
            }
        }
        match self.paper.apply(action) {
            Ok(()) => Ok(()),
            Err(error) => Err(ActionError::Paper(error)),
        }
    }

    /// Applies one puzzle-approved fold.
    pub fn fold(&mut self, fold: Fold) -> (r: Result<(), ActionError>)
        requires
            old(self).wf(),
        ensures
            final(self).wf(),
            final(self).puzzle_view() == old(self).puzzle_view(),
            attempt_step(old(self).puzzle_view(), old(self).paper_model(), PaperAction::Fold(fold)) matches Ok(m)
                ==> r is Ok && final(self).paper_model() == m,
            attempt_step(old(self).puzzle_view(), old(self).paper_model(), PaperAction::Fold(fold)) matches Err(e)
                ==> r == Err::<(), ActionError>(e) && *final(self) == *old(self),
    {
        self.apply(PaperAction::Fold(fold))
    }

    /// Applies one puzzle-approved dot.
    pub fn stamp_dot(&mut self, coordinate: Coordinate) -> (r: Result<(), ActionError>)
        requires
            old(self).wf(),
        ensures
            final(self).wf(),
            final(self).puzzle_view() == old(self).puzzle_view(),
            attempt_step(old(self).puzzle_view(), old(self).paper_model(), PaperAction::Dot(coordinate)) matches Ok(
                m,
            ) ==> r is Ok && final(self).paper_model() == m,
            attempt_step(old(self).puzzle_view(), old(self).paper_model(), PaperAction::Dot(coordinate)) matches Err(
                e,
            ) ==> r == Err::<(), ActionError>(e) && *final(self) == *old(self),
    {
        self.apply(PaperAction::Dot(coordinate))
    }

    /// Applies one puzzle-approved line.
    pub fn stamp_line(&mut self, line: LineStroke) -> (r: Result<(), ActionError>)
        requires
            old(self).wf(),
        ensures
            final(self).wf(),
            final(self).puzzle_view() == old(self).puzzle_view(),
            attempt_step(old(self).puzzle_view(), old(self).paper_model(), PaperAction::Line(line)) matches Ok(m)
                ==> r is Ok && final(self).paper_model() == m,
            attempt_step(old(self).puzzle_view(), old(self).paper_model(), PaperAction::Line(line)) matches Err(e)
                ==> r == Err::<(), ActionError>(e) && *final(self) == *old(self),
    {
        self.apply(PaperAction::Line(line))
    }

    /// Restores the complete state before the most recent successful action.
    pub fn undo(&mut self) -> (r: Result<(), ActionError>)
        requires
            old(self).wf(),
        ensures
            final(self).wf(),
            final(self).puzzle_view() == old(self).puzzle_view(),
            final(self).hints() == old(self).hints(),
            old(self).paper_model().undo_step() matches Ok(m) ==> r is Ok && final(self).paper_model() == m
                && final(self).undos() == if old(self).undos() == u64::MAX {
                u64::MAX
            } else {
                (old(self).undos() + 1) as u64
            },
            old(self).paper_model().undo_step() matches Err(e) ==> r == Err::<(), ActionError>(ActionError::Paper(e))
                && *final(self) == *old(self),
    {
        proof {
            if self.paper.model().undo_step() is Ok {
                lemma_replays_undo(self.puzzle.view(), self.paper.model());
            }
        }
        match self.paper.undo() {
            Ok(()) => {},
            Err(error) => return Err(ActionError::Paper(error)),
        }
        self.undo_count = self.undo_count.saturating_add(1);
        Ok(())
    }

    /// Restores the fresh paper and clears the replayable action sequence.
    pub fn reset(&mut self)
        requires
            old(self).wf(),
        ensures
            final(self).wf(),
            final(self).puzzle_view() == old(self).puzzle_view(),
            final(self).undos() == old(self).undos(),
            final(self).hints() == old(self).hints(),
            final(self).paper_model() == old(self).paper_model().reset_step(),
    {
        proof {
            self.lemma_wf();
            lemma_replays_reset(self.puzzle.view(), self.paper.model());
        }
        self.paper.reset();
    }

    pub fn mark_hint_used(&mut self)
        ensures
            final(self).hints(),
            final(self).puzzle_view() == old(self).puzzle_view(),
            final(self).paper_model() == old(self).paper_model(),
            final(self).undos() == old(self).undos(),
            old(self).wf() ==> final(self).wf(),
    {
        self.hints_used = true;
    }

    /// Compares the complete physical-cell ink state with the puzzle target.
    pub fn result(&self) -> (r: AttemptResult)
        requires
            self.wf(),
        ensures
            r.comparison_value().exact() == self.solved(),
            r.comparison_value().missing_cells().cells() == self.puzzle_view().target.cells().difference(
                self.paper_model().state.ink,
            ),
            r.comparison_value().extra_cells().cells() == self.paper_model().state.ink.difference(
                self.puzzle_view().target.cells(),
            ),
            r.score_value().fold_part().value() as int == self.paper_model().state.folds,
            r.score_value().stroke_part().value() as int == self.paper_model().state.strokes,
            r.undo_value() == self.undos(),
            r.hints_value() == self.hints(),
            r.par_value() == AttemptResult::par_outcome(r.comparison_value(), r.score_value(), self.puzzle_view().par),
    {
        let comparison = match self.paper.compare_ink(self.puzzle.target()) {
            Ok(comparison) => comparison,
            Err(_) => vstd::pervasive::unreached(),
        };
        AttemptResult::new(
            comparison,
            Score::new(self.paper.fold_count(), self.paper.stroke_count()),
            self.undo_count,
            self.hints_used,
            self.puzzle.par(),
        )
    }
}

#[derive(Clone, Debug, PartialEq, Eq)]
pub enum ActionError {
    FoldNotAllowed { fold: Fold },
    BrushNotAllowed { rule: BrushRule },
    Paper(PaperError),
}

} // verus!
