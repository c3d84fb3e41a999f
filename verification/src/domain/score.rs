//! Puzzle results and solution ordering.

use vstd::prelude::*;

use crate::domain::paper::{FoldCount, InkComparison, StrokeCount};

verus! {

/// The fold and stroke counts a solution should not exceed.
#[derive(Clone, Copy, Debug, PartialEq, Eq, Hash, Structural)]
pub struct Par {
    folds: FoldCount,
    strokes: StrokeCount,
}

impl Par {
    pub closed spec fn fold_part(self) -> FoldCount {
        self.folds
    }

    pub closed spec fn stroke_part(self) -> StrokeCount {
        self.strokes
    }

    /// The par with the given counts.
    pub closed spec fn spec_of(folds: FoldCount, strokes: StrokeCount) -> Par {
        Par { folds, strokes }
    }

    pub fn new(folds: FoldCount, strokes: StrokeCount) -> (r: Self)
        ensures
            r.fold_part() == folds,
            r.stroke_part() == strokes,
            r == Par::spec_of(folds, strokes),
    {
        Par { folds, strokes }
    }

    /// A par is made of its two counts, and is rebuilt from them.
    pub proof fn lemma_spec_of(folds: FoldCount, strokes: StrokeCount)
        ensures
            Par::spec_of(folds, strokes).fold_part() == folds,
            Par::spec_of(folds, strokes).stroke_part() == strokes,
            forall|p: Par| #[trigger] Par::spec_of(p.fold_part(), p.stroke_part()) == p,
    {
    }

    pub fn folds(self) -> (r: FoldCount)
        ensures
            r == self.fold_part(),
    {
        self.folds
    }

    pub fn strokes(self) -> (r: StrokeCount)
        ensures
            r == self.stroke_part(),
    {
        self.strokes
    }
}

/// The folds and strokes a result used.
#[derive(Clone, Copy, Debug, PartialEq, Eq, Hash, PartialOrd, Ord, Structural)]
pub struct Score {
    folds: FoldCount,
    strokes: StrokeCount,
}

impl Score {
    pub closed spec fn fold_part(self) -> FoldCount {
        self.folds
    }

    pub closed spec fn stroke_part(self) -> StrokeCount {
        self.strokes
    }

    /// Two scores with the same parts are the same score.
    pub proof fn lemma_ext(a: Score, b: Score)
        requires
            a.fold_part() == b.fold_part(),
            a.stroke_part() == b.stroke_part(),
        ensures
            a == b,
    {
    }

    /// Whether a score stays within a par.
    pub open spec fn within(self, par: Par) -> bool {
        self.fold_part().value() <= par.fold_part().value() && self.stroke_part().value()
            <= par.stroke_part().value()
    }

    pub fn new(folds: FoldCount, strokes: StrokeCount) -> (r: Self)
        ensures
            r.fold_part() == folds,
            r.stroke_part() == strokes,
    {
        Score { folds, strokes }
    }

    pub fn folds(self) -> (r: FoldCount)
        ensures
            r == self.fold_part(),
    {
        self.folds
    }

    pub fn strokes(self) -> (r: StrokeCount)
        ensures
            r == self.stroke_part(),
    {
        self.strokes
    }

    pub fn meets(self, par: Par) -> (r: bool)
        ensures
            r == self.within(par),
    {
        self.folds.get() <= par.folds.get() && self.strokes.get() <= par.strokes.get()
    }
}

/// The outcome of an attempt against its puzzle target.
#[derive(Clone, Copy, Debug, PartialEq, Eq)]
pub struct AttemptResult {
    comparison: InkComparison,
    score: Score,
    undo_count: u64,
    hints_used: bool,
    meets_par: Option<bool>,
}

impl AttemptResult {
    pub closed spec fn comparison_value(self) -> InkComparison {
        self.comparison
    }

    pub closed spec fn score_value(self) -> Score {
        self.score
    }

    pub closed spec fn undo_value(self) -> u64 {
        self.undo_count
    }

    pub closed spec fn hints_value(self) -> bool {
        self.hints_used
    }

    pub closed spec fn par_value(self) -> Option<bool> {
        self.meets_par
    }

    /// A result meets its par exactly when it matches the target and uses no
    /// more folds and no more strokes than the par: one fold or stroke over
    /// either count never meets it, whatever the other count.
    pub proof fn lemma_meets_par(comparison: InkComparison, score: Score, par: Par)
        ensures
            AttemptResult::par_outcome(comparison, score, Some(par)) == Some(
                comparison.exact() && score.fold_part().value() <= par.fold_part().value()
                    && score.stroke_part().value() <= par.stroke_part().value(),
            ),
            score.fold_part().value() > par.fold_part().value() ==> AttemptResult::par_outcome(
                comparison,
                score,
                Some(par),
            ) == Some(false),
            score.stroke_part().value() > par.stroke_part().value() ==> AttemptResult::par_outcome(
                comparison,
                score,
                Some(par),
            ) == Some(false),
            AttemptResult::par_outcome(comparison, score, None) is None,
    {
    }

    /// Whether the result met its par, when the puzzle has one: an exact match within par.
    pub open spec fn par_outcome(comparison: InkComparison, score: Score, par: Option<Par>) -> Option<bool> {
        match par {
            Some(p) => Some(comparison.exact() && score.within(p)),
            None => None,
        }
    }

    pub fn new(comparison: InkComparison, score: Score, undo_count: u64, hints_used: bool, par: Option<Par>) -> (r:
        Self)
        ensures
            r.comparison_value() == comparison,
            r.score_value() == score,
            r.undo_value() == undo_count,
            r.hints_value() == hints_used,
            r.par_value() == AttemptResult::par_outcome(comparison, score, par),
    {
        let meets_par = match par {
            Some(par) => Some(comparison.is_exact() && score.meets(par)),
            None => None,
        };
        AttemptResult { comparison, score, undo_count, hints_used, meets_par }
    }

    pub fn comparison(self) -> (r: InkComparison)
        ensures
            r == self.comparison_value(),
    {
        self.comparison
    }

    /// Whether the ink matches the target exactly.
    pub fn is_success(self) -> (r: bool)
        ensures
            r == self.comparison_value().exact(),
    {
        self.comparison.is_exact()
    }

    pub fn score(self) -> (r: Score)
        ensures
            r == self.score_value(),
    {
        self.score
    }

    pub fn undo_count(self) -> (r: u64)
        ensures
            r == self.undo_value(),
    {
        self.undo_count
    }

    pub fn hints_used(self) -> (r: bool)
        ensures
            r == self.hints_value(),
    {
        self.hints_used
    }

    pub fn meets_par(self) -> (r: Option<bool>)
        ensures
            r == self.par_value(),
    {
        self.meets_par
    }
}

} // verus!
