//! Bounded deterministic puzzle search.

use std::collections::HashMap;
use std::sync::atomic::{AtomicBool, Ordering};

use vstd::prelude::*;

use crate::domain::attempt::{attempt_step, fresh_paper, Attempt};
use crate::domain::paper::state::{key_digest, PaperModel, PhysicalCell};
use crate::domain::paper::{
    coordinate_le, coordinate_of, lemma_coordinate_of, lemma_coordinate_of_self, BrushRule, Coordinate, Dimensions, InkPattern, LineStroke,
    PaperAction, PaperStateKey,
    StrokeAxis, MAX_FOLD_ACTIONS, MAX_STROKE_ACTIONS,
};
use crate::domain::puzzle::{brush_bad, revision_of, Puzzle, PuzzleView};
use crate::domain::replay::{
    compatibility_error, lemma_run_ext, lemma_run_history, lemma_run_same_rules, lemma_run_prefix_ok, lemma_run_wf, run, Replay,
};
use crate::domain::score::Score;

verus! {

pub const MAX_SOLVER_VISITED_STATES: usize = 250_000;
pub const MAX_SOLVER_MEMORY_BYTES: usize = 128 * 1024 * 1024;
pub const MAX_SOLVER_DEPTH: u8 = MAX_FOLD_ACTIONS + MAX_STROKE_ACTIONS;
pub const MAX_CANDIDATE_ACTIONS: usize = 1_772;

const RETAINED_STATE_MARGIN_BYTES: usize = 512;
const SEARCH_BASE_MARGIN_BYTES: usize = 64 * 1024;
const NO_NODE: u32 = 4_294_967_295;

/// Independent bounds on one search.
#[derive(Clone, Copy, Debug, PartialEq, Eq)]
pub struct SolverLimits {
    visited_states: usize,
    memory_bytes: usize,
    depth: u8,
}

impl SolverLimits {
    pub closed spec fn view(self) -> (usize, usize, u8) {
        (self.visited_states, self.memory_bytes, self.depth)
    }

    pub fn new(max_visited_states: usize, max_memory_bytes: usize, max_depth: u8) -> (r: Self)
        ensures
            r.view() == (max_visited_states, max_memory_bytes, max_depth),
    {
        SolverLimits { visited_states: max_visited_states, memory_bytes: max_memory_bytes, depth: max_depth }
    }

    pub fn max_visited_states(self) -> (r: usize)
        ensures
            r == self.view().0,
    {
        self.visited_states
    }

    pub fn max_memory_bytes(self) -> (r: usize)
        ensures
            r == self.view().1,
    {
        self.memory_bytes
    }

    pub fn max_depth(self) -> (r: u8)
        ensures
            r == self.view().2,
    {
        self.depth
    }

    /// Validates all independent solver resource limits.
    pub fn validate(self) -> (r: Result<(), InvalidSolverInput>)
        ensures
            r is Ok <==> limits_error(self) is None,
            r matches Err(e) ==> limits_error(self) == Some(e),
    {
        validate_limits(self)
    }
}

impl SolverLimits {
    /// The engine-wide maximum limits.
    pub closed spec fn spec_default() -> SolverLimits {
        SolverLimits { visited_states: 250_000, memory_bytes: 134_217_728, depth: 20 }
    }
}

/// The default solver limits are the largest that a caller may ask for, and valid.
pub proof fn lemma_default_limits_valid()
    ensures
        limits_error(SolverLimits::spec_default()) is None,
        SolverLimits::spec_default().view() == (250_000usize, 134_217_728usize, 20u8),
{
}

impl Default for SolverLimits {
    fn default() -> (r: Self)
        ensures
            r.view() == (MAX_SOLVER_VISITED_STATES, MAX_SOLVER_MEMORY_BYTES, MAX_SOLVER_DEPTH),
            r == SolverLimits::spec_default(),
    {
        SolverLimits::new(MAX_SOLVER_VISITED_STATES, MAX_SOLVER_MEMORY_BYTES, MAX_SOLVER_DEPTH)
    }
}

#[allow(inconsistent_fields)]
#[derive(Clone, Copy, Debug, PartialEq, Eq)]
pub enum InvalidSolverInput {
    VisitedStateLimit { found: usize, maximum: usize },
    MemoryLimit { found: usize, maximum: usize },
    DepthLimit { found: u8, maximum: u8 },
}

#[derive(Clone, Copy, Debug, PartialEq, Eq, Structural)]
pub enum ExhaustionReason {
    VisitedStates,
    Memory,
    Depth,
}

/// Why solver limits are refused, if they are.
pub open spec fn limits_error(limits: SolverLimits) -> Option<InvalidSolverInput> {
    let (visited, memory, depth) = limits.view();
    if visited == 0 || visited > 250_000 {
        Some(InvalidSolverInput::VisitedStateLimit { found: visited, maximum: 250_000usize })
    } else if memory == 0 || memory > 128 * 1024 * 1024 {
        Some(InvalidSolverInput::MemoryLimit { found: memory, maximum: 134_217_728usize })
    } else if depth > 20 {
        Some(InvalidSolverInput::DepthLimit { found: depth, maximum: 20 })
    } else {
        None
    }
}

fn validate_limits(limits: SolverLimits) -> (r: Result<(), InvalidSolverInput>)
    ensures
        r is Ok <==> limits_error(limits) is None,
        r matches Err(e) ==> limits_error(limits) == Some(e),
{
    if limits.visited_states == 0 || limits.visited_states > MAX_SOLVER_VISITED_STATES {
        return Err(InvalidSolverInput::VisitedStateLimit {
            found: limits.visited_states,
            maximum: MAX_SOLVER_VISITED_STATES,
        });
    }
    if limits.memory_bytes == 0 || limits.memory_bytes > MAX_SOLVER_MEMORY_BYTES {
        return Err(InvalidSolverInput::MemoryLimit { found: limits.memory_bytes, maximum: MAX_SOLVER_MEMORY_BYTES });
    }
    if limits.depth > MAX_SOLVER_DEPTH {
        return Err(InvalidSolverInput::DepthLimit { found: limits.depth, maximum: MAX_SOLVER_DEPTH });
    }
    Ok(())
}

/// Counters of one search.
#[derive(Clone, Copy, Debug, PartialEq, Eq)]
pub struct SolveStats {
    visited_states: usize,
    expanded_states: usize,
    checked_actions: usize,
    retained_memory_bytes: usize,
    maximum_frontier: usize,
    deepest_state: u8,
}

impl SolveStats {
    pub closed spec fn view(self) -> (usize, usize, usize, usize, usize, u8) {
        (
            self.visited_states,
            self.expanded_states,
            self.checked_actions,
            self.retained_memory_bytes,
            self.maximum_frontier,
            self.deepest_state,
        )
    }

    pub fn visited_states(self) -> (r: usize)
        ensures
            r == self.view().0,
    {
        self.visited_states
    }

    pub fn expanded_states(self) -> (r: usize)
        ensures
            r == self.view().1,
    {
        self.expanded_states
    }

    pub fn checked_actions(self) -> (r: usize)
        ensures
            r == self.view().2,
    {
        self.checked_actions
    }

    /// The conservative retained-allocation charge used by the solver.
    pub fn retained_memory_bytes(self) -> (r: usize)
        ensures
            r == self.view().3,
    {
        self.retained_memory_bytes
    }

    pub fn maximum_frontier(self) -> (r: usize)
        ensures
            r == self.view().4,
    {
        self.maximum_frontier
    }

    pub fn deepest_state(self) -> (r: u8)
        ensures
            r == self.view().5,
    {
        self.deepest_state
    }
}

impl Default for SolveStats {
    fn default() -> (r: Self)
        ensures
            r.view() == (0usize, 0usize, 0usize, 0usize, 0usize, 0u8),
    {
        SolveStats {
            visited_states: 0,
            expanded_states: 0,
            checked_actions: 0,
            retained_memory_bytes: 0,
            maximum_frontier: 0,
            deepest_state: 0,
        }
    }
}

/// Whether the search should stop early.
pub trait Cancellation {
    /// Whether this token promises never to report a cancellation; a token
    /// promises nothing unless it says so.
    open spec fn never_cancels(&self) -> bool {
        false
    }

    fn is_cancelled(&self) -> (r: bool)
        ensures
            self.never_cancels() ==> !r,
    ;
}

/// A cancellation that never happens.
#[derive(Clone, Copy, Debug, Default, PartialEq, Eq)]
pub struct NeverCancel;

impl Cancellation for NeverCancel {
    open spec fn never_cancels(&self) -> bool {
        true
    }

    fn is_cancelled(&self) -> (r: bool)
        ensures
            !r,
    {
        false
    }
}

/// A cancellation that another thread can raise.
#[derive(Debug, Default)]
pub struct CancellationFlag {
    cancelled: AtomicBool,
}

impl CancellationFlag {
    pub fn new() -> Self {
        CancellationFlag { cancelled: AtomicBool::new(false) }
    }

    pub fn cancel(&self) {
        self.cancelled.store(true, Ordering::Release);
    }
}

impl Cancellation for CancellationFlag {
    fn is_cancelled(&self) -> bool {
        self.cancelled.load(Ordering::Acquire)
    }
}

// ---------------------------------------------------------------------------
// The action catalog
// ---------------------------------------------------------------------------

/// Every dot, in row-major order.
pub open spec fn dot_actions(d: Dimensions) -> Seq<PaperAction> {
    Seq::new((d.h() * d.w()) as nat, |i: int| PaperAction::Dot(coordinate_of(i / d.w(), i % d.w())))
}

/// Every horizontal line of one length, by row, then by first column.
pub open spec fn horizontal_actions(d: Dimensions, length: int) -> Seq<PaperAction> {
    let q = d.w() - length + 1;
    Seq::new(
        (d.h() * q) as nat,
        |i: int|
            PaperAction::Line(
                LineStroke::spec_of(coordinate_of(i / q, i % q), coordinate_of(i / q, i % q + length - 1)),
            ),
    )
}

/// Every vertical line of one length, by first row, then by column.
pub open spec fn vertical_actions(d: Dimensions, length: int) -> Seq<PaperAction> {
    Seq::new(
        ((d.h() - length + 1) * d.w()) as nat,
        |i: int|
            PaperAction::Line(
                LineStroke::spec_of(coordinate_of(i / d.w(), i % d.w()), coordinate_of(i / d.w() + length - 1, i % d.w())),
            ),
    )
}

pub open spec fn rule_actions(d: Dimensions, rule: BrushRule) -> Seq<PaperAction> {
    match rule {
        BrushRule::Dot => dot_actions(d),
        BrushRule::Line { axis: StrokeAxis::Horizontal, length } => horizontal_actions(d, length as int),
        BrushRule::Line { axis: StrokeAxis::Vertical, length } => vertical_actions(d, length as int),
    }
}

pub open spec fn brush_actions(d: Dimensions, rules: Seq<BrushRule>, k: int) -> Seq<PaperAction>
    decreases k,
{
    if k <= 0 {
        Seq::empty()
    } else {
        brush_actions(d, rules, k - 1) + rule_actions(d, rules[k - 1])
    }
}

/// Every candidate action of a puzzle: its folds, then each brush at every position.
pub open spec fn catalog(p: PuzzleView) -> Seq<PaperAction> {
    p.folds.map_values(|f| PaperAction::Fold(f)) + brush_actions(p.dims, p.brushes, p.brushes.len() as int)
}

proof fn lemma_row_major(i: int, q: int, row: int, col: int)
    requires
        q > 0,
        0 <= col < q,
        i == row * q + col,
    ensures
        i / q == row,
        i % q == col,
{
    vstd::arithmetic::div_mod::lemma_fundamental_div_mod_converse(i, q, row, col);
}

proof fn lemma_rule_len(d: Dimensions, rule: BrushRule)
    requires
        d.wf(),
        !brush_bad(d, rule),
    ensures
        rule_actions(d, rule).len() <= 144,
{
    d.lemma_wf();
    let w = d.w();
    let h = d.h();
    match rule {
        BrushRule::Dot => {
            assert(h * w <= 144) by (nonlinear_arith)
                requires
                    h <= 12,
                    w <= 12,
                    h >= 0,
                    w >= 0,
            ;
        },
        BrushRule::Line { axis: StrokeAxis::Horizontal, length } => {
            let q = w - length + 1;
            assert(h * q <= 144) by (nonlinear_arith)
                requires
                    0 <= h <= 12,
                    0 <= q <= 12,
            ;
        },
        BrushRule::Line { axis: StrokeAxis::Vertical, length } => {
            let q = h - length + 1;
            assert(q * w <= 144) by (nonlinear_arith)
                requires
                    0 <= w <= 12,
                    0 <= q <= 12,
            ;
        },
    }
}

/// Every brush rule of a valid puzzle has at least one position.
pub proof fn lemma_rule_len_positive(d: Dimensions, rule: BrushRule)
    requires
        d.wf(),
        !brush_bad(d, rule),
    ensures
        rule_actions(d, rule).len() >= 1,
{
    d.lemma_wf();
    let w = d.w();
    let h = d.h();
    match rule {
        BrushRule::Dot => {
            assert(h * w >= 1) by (nonlinear_arith)
                requires
                    h >= 1,
                    w >= 1,
            ;
        },
        BrushRule::Line { axis: StrokeAxis::Horizontal, length } => {
            let q = w - length + 1;
            assert(h * q >= 1) by (nonlinear_arith)
                requires
                    h >= 1,
                    q >= 1,
            ;
        },
        BrushRule::Line { axis: StrokeAxis::Vertical, length } => {
            let q = h - length + 1;
            assert(q * w >= 1) by (nonlinear_arith)
                requires
                    w >= 1,
                    q >= 1,
            ;
        },
    }
}

/// The brush part of a catalog has at least one action per rule.
pub proof fn lemma_brush_actions_positive(d: Dimensions, rules: Seq<BrushRule>, k: int)
    requires
        d.wf(),
        0 <= k <= rules.len(),
        forall|j: int| 0 <= j < rules.len() ==> !brush_bad(d, #[trigger] rules[j]),
    ensures
        brush_actions(d, rules, k).len() >= k,
    decreases k,
{
    if k > 0 {
        lemma_brush_actions_positive(d, rules, k - 1);
        lemma_rule_len_positive(d, rules[k - 1]);
    }
}

/// Folds come first in a catalog, and every later action is a brush.
pub proof fn lemma_catalog_layout(p: PuzzleView)
    requires
        p.dims.wf(),
        forall|j: int| 0 <= j < p.brushes.len() ==> !brush_bad(p.dims, #[trigger] p.brushes[j]),
    ensures
        catalog(p).len() >= p.folds.len() + p.brushes.len(),
        catalog(p).len() == p.folds.len() + brush_actions(p.dims, p.brushes, p.brushes.len() as int).len(),
        catalog(p).len() <= p.folds.len() + 144 * p.brushes.len(),
{
    lemma_brush_actions_positive(p.dims, p.brushes, p.brushes.len() as int);
    lemma_brush_actions_len(p.dims, p.brushes, p.brushes.len() as int);
}

/// No brush action of the catalog is a fold.
pub proof fn lemma_brush_actions_not_fold(d: Dimensions, rules: Seq<BrushRule>, k: int)
    ensures
        forall|j: int| 0 <= j < brush_actions(d, rules, k).len() ==> !(#[trigger] brush_actions(d, rules, k)[j] is Fold),
    decreases k,
{
    if k > 0 {
        lemma_brush_actions_not_fold(d, rules, k - 1);
        let prev = brush_actions(d, rules, k - 1);
        let more = rule_actions(d, rules[k - 1]);
        assert forall|j: int| 0 <= j < brush_actions(d, rules, k).len() implies !(#[trigger] brush_actions(
            d,
            rules,
            k,
        )[j] is Fold) by {
            if j >= prev.len() {
                assert(brush_actions(d, rules, k)[j] == more[j - prev.len()]);
            } else {
                assert(brush_actions(d, rules, k)[j] == prev[j]);
            }
        }
    }
}

proof fn lemma_brush_actions_len(d: Dimensions, rules: Seq<BrushRule>, k: int)
    requires
        d.wf(),
        0 <= k <= rules.len(),
        forall|j: int| 0 <= j < rules.len() ==> !brush_bad(d, #[trigger] rules[j]),
    ensures
        brush_actions(d, rules, k).len() <= 144 * k,
    decreases k,
{
    if k > 0 {
        lemma_brush_actions_len(d, rules, k - 1);
        lemma_rule_len(d, rules[k - 1]);
    }
}

/// The number of candidate actions of a puzzle.
fn catalog_capacity(puzzle: &Puzzle) -> (r: usize)
    requires
        puzzle.wf(),
    ensures
        r == catalog(puzzle.view()).len(),
        r <= 44 + 144 * 23,
{
    let ghost p = puzzle.view();
    let dimensions = puzzle.dimensions();
    let (w, h) = (dimensions.width().get(), dimensions.height().get());
    let brushes = puzzle.allowed_brushes();
    let mut count = puzzle.allowed_folds().len();
    let mut k: usize = 0;
    while k < brushes.len()
        invariant
            brushes@ == p.brushes,
            dimensions == p.dims,
            p.brushes.len() <= 23,
            p.folds.len() <= 44,
            w as int == p.dims.w(),
            h as int == p.dims.h(),
            p.dims.wf(),
            forall|j: int| 0 <= j < p.brushes.len() ==> !brush_bad(p.dims, #[trigger] p.brushes[j]),
            k <= brushes@.len(),
            count == p.folds.len() + brush_actions(p.dims, p.brushes, k as int).len(),
        decreases brushes@.len() - k,
    {
        proof {
            lemma_brush_actions_len(p.dims, p.brushes, k as int);
            lemma_rule_len(p.dims, p.brushes[k as int]);
            assert(!brush_bad(p.dims, p.brushes[k as int]));
        }
        let additional: usize = match brushes[k] {
            BrushRule::Dot => {
                proof {
                    assert(h as int * w as int == w as int * h as int && h as int * w as int >= 0) by (nonlinear_arith)
                        requires
                            h >= 0,
                            w >= 0,
                    ;
                    assert(rule_actions(p.dims, p.brushes[k as int]) == dot_actions(p.dims));
                }
                let c = dimensions.cell_count();
                assert(c as int == rule_actions(p.dims, p.brushes[k as int]).len());
                c
            },
            BrushRule::Line { axis: StrokeAxis::Horizontal, length } => {
                let q = (w - length + 1) as usize;
                proof {
                    assert(h as int * q as int <= 144 && h as int * q as int >= 0) by (nonlinear_arith)
                        requires
                            0 <= h <= 12,
                            0 <= q <= 12,
                    ;
                }
                proof {
                    assert(rule_actions(p.dims, p.brushes[k as int]) == horizontal_actions(p.dims, length as int));
                }
                let c = h as usize * q;
                assert(c as int == rule_actions(p.dims, p.brushes[k as int]).len());
                c
            },
            BrushRule::Line { axis: StrokeAxis::Vertical, length } => {
                let q = (h - length + 1) as usize;
                proof {
                    assert(w as int * q as int <= 144 && w as int * q as int >= 0) by (nonlinear_arith)
                        requires
                            0 <= w <= 12,
                            0 <= q <= 12,
                    ;
                    assert(q as int * w as int == w as int * q as int) by (nonlinear_arith);
                }
                proof {
                    assert(rule_actions(p.dims, p.brushes[k as int]) == vertical_actions(p.dims, length as int));
                }
                let c = w as usize * q;
                assert(c as int == rule_actions(p.dims, p.brushes[k as int]).len());
                c
            },
        };
        proof {
            let rule = p.brushes[k as int];
            assert(additional as int == rule_actions(p.dims, rule).len());
        }
        count = count + additional;
        k = k + 1;
    }
    proof {
        lemma_brush_actions_len(p.dims, p.brushes, p.brushes.len() as int);
    }
    count
}

#[derive(Clone, Copy, Debug, PartialEq, Eq)]
pub enum CatalogError {
    Allocation,
}

/// Every candidate action of a puzzle, in catalog order.
pub fn action_catalog(puzzle: &Puzzle) -> (r: Result<Vec<PaperAction>, CatalogError>)
    requires
        puzzle.wf(),
    ensures
        r matches Ok(v) ==> v@ == catalog(puzzle.view()),
{
    let ghost p = puzzle.view();
    let dimensions = puzzle.dimensions();
    let capacity = catalog_capacity(puzzle);
    let mut actions: Vec<PaperAction> = Vec::new();
    if actions.try_reserve(capacity).is_err() {
        return Err(CatalogError::Allocation);
    }
    let folds = puzzle.allowed_folds();
    let mut i: usize = 0;
    while i < folds.len()
        invariant
            folds@ == p.folds,
            i <= folds@.len(),
            actions@ == p.folds.map_values(|f| PaperAction::Fold(f)).subrange(0, i as int),
        decreases folds@.len() - i,
    {
        actions.push(PaperAction::Fold(folds[i]));
        i = i + 1;
        assert(actions@ =~= p.folds.map_values(|f| PaperAction::Fold(f)).subrange(0, i as int));
    }
    assert(actions@ =~= p.folds.map_values(|f| PaperAction::Fold(f)) + brush_actions(p.dims, p.brushes, 0));
    let (w, h) = (dimensions.width().get(), dimensions.height().get());
    let brushes = puzzle.allowed_brushes();
    let mut k: usize = 0;
    while k < brushes.len()
        invariant
            brushes@ == p.brushes,
            dimensions == p.dims,
            p.dims.wf(),
            w as int == p.dims.w(),
            h as int == p.dims.h(),
            forall|j: int| 0 <= j < p.brushes.len() ==> !brush_bad(p.dims, #[trigger] p.brushes[j]),
            k <= brushes@.len(),
            actions@ == p.folds.map_values(|f| PaperAction::Fold(f)) + brush_actions(p.dims, p.brushes, k as int),
        decreases brushes@.len() - k,
    {
        let rule = brushes[k];
        let ghost base = actions@;
        proof {
            assert(!brush_bad(p.dims, rule));
            p.dims.lemma_wf();
        }
        match rule {
            BrushRule::Dot => {
                let mut row: u8 = 0;
                while row < h
                    invariant
                        dimensions == p.dims,
                        p.dims.wf(),
                        w as int == p.dims.w(),
                        h as int == p.dims.h(),
                        row <= h,
                        actions@ == base + dot_actions(p.dims).subrange(0, row as int * w as int),
                    decreases h - row,
                {
                    let mut column: u8 = 0;
                    while column < w
                        invariant
                            dimensions == p.dims,
                            p.dims.wf(),
                            w as int == p.dims.w(),
                            h as int == p.dims.h(),
                            row < h,
                            column <= w,
                            actions@ == base + dot_actions(p.dims).subrange(0, row as int * w as int + column as int),
                        decreases w - column,
                    {
                        let coordinate = match dimensions.coordinate(row, column) {
                            Ok(c) => c,
                            Err(_) => vstd::pervasive::unreached(),
                        };
                        actions.push(PaperAction::Dot(coordinate));
                        proof {
                            let i = row as int * w as int + column as int;
                            lemma_row_major(i, w as int, row as int, column as int);
                            assert(i < h as int * w as int) by (nonlinear_arith)
                                requires
                                    0 <= row < h,
                                    0 <= column < w,
                                    i == row * w + column,
                            ;
                            crate::domain::paper::lemma_coordinate_of_self(coordinate);
                            assert(dot_actions(p.dims)[i] == PaperAction::Dot(coordinate));
                            assert(actions@ =~= base + dot_actions(p.dims).subrange(0, i + 1));
                        }
                        column = column + 1;
                    }
                    proof {
                        assert((row as int + 1) * w as int == row as int * w as int + w as int) by (nonlinear_arith);
                    }
                    row = row + 1;
                }
                proof {
                    assert(h as int * w as int == dot_actions(p.dims).len());
                    assert(actions@ =~= base + dot_actions(p.dims));
                }
            },
            BrushRule::Line { axis: StrokeAxis::Horizontal, length } => {
                let start_columns = w - length + 1;
                let ghost q = start_columns as int;
                let ghost seq = horizontal_actions(p.dims, length as int);
                let mut row: u8 = 0;
                while row < h
                    invariant
                        dimensions == p.dims,
                        p.dims.wf(),
                        w as int == p.dims.w(),
                        h as int == p.dims.h(),
                        2 <= length <= w,
                        start_columns as int == q,
                        q == w - length + 1,
                        seq == horizontal_actions(p.dims, length as int),
                        row <= h,
                        actions@ == base + seq.subrange(0, row as int * q),
                    decreases h - row,
                {
                    let mut column: u8 = 0;
                    while column < start_columns
                        invariant
                            dimensions == p.dims,
                            p.dims.wf(),
                            w as int == p.dims.w(),
                            h as int == p.dims.h(),
                            2 <= length <= w,
                            start_columns as int == q,
                            q == w - length + 1,
                            seq == horizontal_actions(p.dims, length as int),
                            row < h,
                            column <= start_columns,
                            actions@ == base + seq.subrange(0, row as int * q + column as int),
                        decreases start_columns - column,
                    {
                        let start = match dimensions.coordinate(row, column) {
                            Ok(c) => c,
                            Err(_) => vstd::pervasive::unreached(),
                        };
                        let end = match dimensions.coordinate(row, column + length - 1) {
                            Ok(c) => c,
                            Err(_) => vstd::pervasive::unreached(),
                        };
                        actions.push(PaperAction::Line(LineStroke::new(start, end)));
                        proof {
                            let i = row as int * q + column as int;
                            lemma_row_major(i, q, row as int, column as int);
                            assert(i < h as int * q) by (nonlinear_arith)
                                requires
                                    0 <= row < h,
                                    0 <= column < q,
                                    i == row * q + column,
                            ;
                            crate::domain::paper::lemma_coordinate_of_self(start);
                            crate::domain::paper::lemma_coordinate_of_self(end);
                            assert(seq[i] == PaperAction::Line(LineStroke::spec_of(start, end)));
                            assert(actions@ =~= base + seq.subrange(0, i + 1));
                        }
                        column = column + 1;
                    }
                    proof {
                        assert((row as int + 1) * q == row as int * q + q) by (nonlinear_arith);
                    }
                    row = row + 1;
                }
                proof {
                    assert(actions@ =~= base + seq);
                }
            },
            BrushRule::Line { axis: StrokeAxis::Vertical, length } => {
                let start_rows = h - length + 1;
                let ghost seq = vertical_actions(p.dims, length as int);
                let mut row: u8 = 0;
                while row < start_rows
                    invariant
                        dimensions == p.dims,
                        p.dims.wf(),
                        w as int == p.dims.w(),
                        h as int == p.dims.h(),
                        2 <= length <= h,
                        start_rows == h - length + 1,
                        seq == vertical_actions(p.dims, length as int),
                        row <= start_rows,
                        actions@ == base + seq.subrange(0, row as int * w as int),
                    decreases start_rows - row,
                {
                    let mut column: u8 = 0;
                    while column < w
                        invariant
                            dimensions == p.dims,
                            p.dims.wf(),
                            w as int == p.dims.w(),
                            h as int == p.dims.h(),
                            2 <= length <= h,
                            start_rows == h - length + 1,
                            seq == vertical_actions(p.dims, length as int),
                            row < start_rows,
                            column <= w,
                            actions@ == base + seq.subrange(0, row as int * w as int + column as int),
                        decreases w - column,
                    {
                        let start = match dimensions.coordinate(row, column) {
                            Ok(c) => c,
                            Err(_) => vstd::pervasive::unreached(),
                        };
                        let end = match dimensions.coordinate(row + length - 1, column) {
                            Ok(c) => c,
                            Err(_) => vstd::pervasive::unreached(),
                        };
                        actions.push(PaperAction::Line(LineStroke::new(start, end)));
                        proof {
                            let i = row as int * w as int + column as int;
                            lemma_row_major(i, w as int, row as int, column as int);
                            assert(i < start_rows as int * w as int) by (nonlinear_arith)
                                requires
                                    0 <= row < start_rows,
                                    0 <= column < w,
                                    i == row * w + column,
                            ;
                            crate::domain::paper::lemma_coordinate_of_self(start);
                            crate::domain::paper::lemma_coordinate_of_self(end);
                            assert(seq[i] == PaperAction::Line(LineStroke::spec_of(start, end)));
                            assert(actions@ =~= base + seq.subrange(0, i + 1));
                        }
                        column = column + 1;
                    }
                    proof {
                        assert((row as int + 1) * w as int == row as int * w as int + w as int) by (nonlinear_arith);
                    }
                    row = row + 1;
                }
                proof {
                    assert(actions@ =~= base + seq);
                }
            },
        }
        proof {
            assert(brush_actions(p.dims, p.brushes, k + 1) == brush_actions(p.dims, p.brushes, k as int) + rule_actions(
                p.dims,
                p.brushes[k as int],
            ));
            assert(actions@ =~= p.folds.map_values(|f| PaperAction::Fold(f)) + brush_actions(
                p.dims,
                p.brushes,
                k + 1,
            ));
        }
        k = k + 1;
    }
    Ok(actions)
}

// ---------------------------------------------------------------------------
// Solutions and outcomes
// ---------------------------------------------------------------------------

/// Whether a replay solves a puzzle with the given score: it binds to the puzzle,
/// every action succeeds, the ink matches the target, and the counts are the score.
pub open spec fn solves(p: PuzzleView, replay: Replay, score: Score) -> bool {
    &&& compatibility_error(replay.metadata_view(), p, revision_of(p)) is None
    &&& run(p, replay.actions_view(), replay.actions_view().len() as int) matches Ok(m)
    &&& m.state.ink == p.target.cells()
    &&& score.fold_part().value() == m.state.folds
    &&& score.stroke_part().value() == m.state.strokes
}

/// A verified solution with its search counters.
#[derive(Clone, Debug, PartialEq, Eq)]
pub struct Solution {
    replay: Replay,
    score: Score,
    stats: SolveStats,
}

impl Solution {
    pub closed spec fn replay_view(&self) -> Replay {
        self.replay
    }

    pub closed spec fn score_view(&self) -> Score {
        self.score
    }

    pub closed spec fn stats_view(&self) -> SolveStats {
        self.stats
    }

    pub fn replay(&self) -> (r: &Replay)
        ensures
            *r == self.replay_view(),
    {
        &self.replay
    }

    pub fn score(&self) -> (r: Score)
        ensures
            r == self.score_view(),
    {
        self.score
    }

    pub fn stats(&self) -> (r: SolveStats)
        ensures
            r == self.stats_view(),
    {
        self.stats
    }

    /// The same solution bound to another replay of its actions.
    pub fn with_replay(self, replay: Replay) -> (r: Self)
        ensures
            r.replay_view() == replay,
            r.score_view() == self.score_view(),
            r.stats_view() == self.stats_view(),
    {
        Solution { replay, ..self }
    }
}

#[derive(Clone, Debug, PartialEq, Eq)]
pub enum SolveOutcome {
    Solved(Solution),
    Unsolved(SolveStats),
    Exhausted { reason: ExhaustionReason, stats: SolveStats },
    Cancelled(SolveStats),
    Invalid(InvalidSolverInput),
}

// ---------------------------------------------------------------------------
// Memory charges
// ---------------------------------------------------------------------------

/// The bytes charged for the cells of one retained state.
pub open spec fn payload_charge(d: Dimensions) -> int {
    d.cells_len() * vstd::layout::size_of::<PhysicalCell>()
}

/// The bytes charged for one retained search state.
pub open spec fn state_charge(d: Dimensions) -> int {
    payload_charge(d) + vstd::layout::size_of::<PaperStateKey>() + vstd::layout::size_of::<SearchNode>()
        + vstd::layout::size_of::<(Score, u32, u32)>() + 512
}

/// The bytes charged before any state is retained.
pub open spec fn base_charge(d: Dimensions, depth: int, catalog_len: int) -> int {
    65536 + (payload_charge(d) + 256) * (depth + 2) + catalog_len * vstd::layout::size_of::<PaperAction>()
}

proof fn lemma_mul_nonneg(a: int, b: int)
    requires
        a >= 0,
        b >= 0,
    ensures
        a * b >= 0,
{
    assert(a * b >= 0) by (nonlinear_arith)
        requires
            a >= 0,
            b >= 0,
    ;
}

fn cell_payload_bytes(puzzle: &Puzzle) -> (r: Option<usize>)
    ensures
        r matches Some(b) ==> b as int == payload_charge(puzzle.view().dims),
        r is None ==> payload_charge(puzzle.view().dims) > usize::MAX,
{
    puzzle.dimensions().cell_count().checked_mul(core::mem::size_of::<PhysicalCell>())
}

fn state_memory_charge(puzzle: &Puzzle) -> (r: Option<usize>)
    ensures
        r matches Some(b) ==> b as int == state_charge(puzzle.view().dims),
        r is None ==> state_charge(puzzle.view().dims) > usize::MAX,
{
    let payload = cell_payload_bytes(puzzle)?;
    let bytes = payload.checked_add(core::mem::size_of::<PaperStateKey>())?;
    let bytes = bytes.checked_add(core::mem::size_of::<SearchNode>())?;
    let bytes = bytes.checked_add(core::mem::size_of::<(Score, u32, u32)>())?;
    bytes.checked_add(RETAINED_STATE_MARGIN_BYTES)
}

fn search_base_memory(puzzle: &Puzzle, limits: SolverLimits, catalog_len: usize) -> (r: Option<usize>)
    ensures
        r matches Some(b) ==> b as int == base_charge(puzzle.view().dims, limits.view().2 as int, catalog_len as int),
        r is None ==> base_charge(puzzle.view().dims, limits.view().2 as int, catalog_len as int) > usize::MAX,
{
    let ghost d = puzzle.view().dims;
    let ghost depth = limits.view().2 as int;
    let ghost cat = catalog_len as int * vstd::layout::size_of::<PaperAction>();
    let payload = match cell_payload_bytes(puzzle) {
        Some(payload) => payload,
        None => {
            proof {
                let x = payload_charge(d) + 256;
                assert(x * (depth + 2) >= x) by (nonlinear_arith)
                    requires
                        x >= 0,
                        depth >= 0,
                ;
                lemma_mul_nonneg(catalog_len as int, vstd::layout::size_of::<PaperAction>() as int);
            }
            return None;
        },
    };
    let padded = match payload.checked_add(256) {
        Some(padded) => padded,
        None => {
            proof {
                let x = payload_charge(d) + 256;
                assert(x * (depth + 2) >= x) by (nonlinear_arith)
                    requires
                        x >= 0,
                        depth >= 0,
                ;
                lemma_mul_nonneg(catalog_len as int, vstd::layout::size_of::<PaperAction>() as int);
            }
            return None;
        },
    };
    let history_bytes = match padded.checked_mul(limits.depth as usize + 2) {
        Some(history_bytes) => history_bytes,
        None => {
            proof {
                lemma_mul_nonneg(catalog_len as int, vstd::layout::size_of::<PaperAction>() as int);
            }
            return None;
        },
    };
    let bytes = match SEARCH_BASE_MARGIN_BYTES.checked_add(history_bytes) {
        Some(bytes) => bytes,
        None => {
            proof {
                lemma_mul_nonneg(catalog_len as int, vstd::layout::size_of::<PaperAction>() as int);
            }
            return None;
        },
    };
    let catalog_bytes = match catalog_len.checked_mul(core::mem::size_of::<PaperAction>()) {
        Some(catalog_bytes) => catalog_bytes,
        None => return None,
    };
    bytes.checked_add(catalog_bytes)
}

// ---------------------------------------------------------------------------
// Search nodes and the paths that reach them
// ---------------------------------------------------------------------------

#[derive(Clone, Copy, Debug, PartialEq, Eq)]
struct SearchNode {
    parent: u32,
    action: Option<PaperAction>,
    depth: u8,
    score: Score,
}

/// The actions from the fresh paper to node `n`, oldest first.
spec fn path(nodes: Seq<SearchNode>, n: int) -> Seq<PaperAction>
    decreases n,
{
    if 0 <= n < nodes.len() && nodes[n].action is Some && (nodes[n].parent as int) < n {
        path(nodes, nodes[n].parent as int).push(nodes[n].action->Some_0)
    } else {
        Seq::empty()
    }
}

/// Node `n` records a path that replays, with its depth and score.
spec fn node_reached(p: PuzzleView, nodes: Seq<SearchNode>, n: int) -> bool {
    let node = nodes[n];
    let path = path(nodes, n);
    &&& node.parent == NO_NODE || (node.parent as int) < n
    &&& (node.parent == NO_NODE) == (node.action is None)
    &&& node.depth as int == path.len()
    &&& path.len() <= 20
    &&& run(p, path, path.len() as int) is Ok
    &&& node.score.fold_part().value() == run(p, path, path.len() as int)->Ok_0.state.folds
    &&& node.score.stroke_part().value() == run(p, path, path.len() as int)->Ok_0.state.strokes
}

spec fn search_ok(p: PuzzleView, nodes: Seq<SearchNode>) -> bool {
    forall|n: int| 0 <= n < nodes.len() ==> #[trigger] node_reached(p, nodes, n)
}

/// Node `n`'s recorded path writes its lines start first.
spec fn path_ordered(nodes: Seq<SearchNode>, n: int) -> bool {
    lines_in_order(path(nodes, n), path(nodes, n).len() as int)
}

proof fn lemma_path_stable(nodes: Seq<SearchNode>, x: SearchNode, n: int)
    requires
        0 <= n < nodes.len(),
    ensures
        path(nodes.push(x), n) == path(nodes, n),
    decreases n,
{
    let nodes2 = nodes.push(x);
    assert(nodes2[n] == nodes[n]);
    if nodes[n].action is Some && (nodes[n].parent as int) < n {
        lemma_path_stable(nodes, x, nodes[n].parent as int);
    }
}

proof fn lemma_search_push(p: PuzzleView, nodes: Seq<SearchNode>, x: SearchNode)
    requires
        search_ok(p, nodes),
        node_reached(p, nodes.push(x), nodes.len() as int),
    ensures
        search_ok(p, nodes.push(x)),
{
    assert forall|n: int| 0 <= n < nodes.push(x).len() implies #[trigger] node_reached(p, nodes.push(x), n) by {
        if n < nodes.len() {
            lemma_path_stable(nodes, x, n);
            assert(node_reached(p, nodes, n));
            assert(nodes.push(x)[n] == nodes[n]);
        }
    }
}

/// The paper of search node `k`: its path replayed from the fresh sheet.
spec fn node_state(p: PuzzleView, nodes: Seq<SearchNode>, k: int) -> PaperModel {
    run(p, path(nodes, k), path(nodes, k).len() as int)->Ok_0
}

/// Whether a state key names the cells, ink, and counts of a paper.
spec fn key_names(kv: (Dimensions, Seq<PhysicalCell>, InkPattern, int, int), m: PaperModel) -> bool {
    &&& kv.1 == m.state.cells
    &&& kv.2.cells() == m.state.ink
    &&& kv.3 == m.state.folds
    &&& kv.4 == m.state.strokes
}

/// Whether some action sequence no longer than `depth`, writing its lines start
/// first, takes the puzzle's fresh sheet to a paper in state `s`.
pub open spec fn reachable_state(p: PuzzleView, depth: int, s: crate::domain::paper::state::PaperState) -> bool {
    exists|actions: Seq<PaperAction>|
        lines_in_order(actions, actions.len() as int) && actions.len() <= depth && #[trigger] run(
            p,
            actions,
            actions.len() as int,
        ) is Ok && run(p, actions, actions.len() as int)->Ok_0.state == s
}

/// Whether the puzzle's sheet reaches at least `count` distinct states through
/// action sequences no longer than `depth` that write their lines start first.
pub open spec fn reaches_states(p: PuzzleView, depth: int, count: int) -> bool {
    exists|states: Set<crate::domain::paper::state::PaperState>|
        states.finite() && states.len() >= count && forall|s: crate::domain::paper::state::PaperState|
            #[trigger] states.contains(s) ==> reachable_state(p, depth, s)
}

/// Reaching states depends on a puzzle's sheet, rules and budgets, not on its target.
pub proof fn lemma_reaches_same_rules(p1: PuzzleView, p2: PuzzleView, depth: int, count: int)
    requires
        p1.dims == p2.dims,
        p1.fold_budget == p2.fold_budget,
        p1.stroke_budget == p2.stroke_budget,
        p1.folds == p2.folds,
        p1.brushes == p2.brushes,
        reaches_states(p1, depth, count),
    ensures
        reaches_states(p2, depth, count),
{
    let states = choose|states: Set<crate::domain::paper::state::PaperState>|
        states.finite() && states.len() >= count && forall|s: crate::domain::paper::state::PaperState|
            #[trigger] states.contains(s) ==> reachable_state(p1, depth, s);
    assert forall|s: crate::domain::paper::state::PaperState| #[trigger] states.contains(s) implies reachable_state(
        p2,
        depth,
        s,
    ) by {
        let acts = choose|actions: Seq<PaperAction>|
            lines_in_order(actions, actions.len() as int) && actions.len() <= depth && #[trigger] run(
                p1,
                actions,
                actions.len() as int,
            ) is Ok && run(p1, actions, actions.len() as int)->Ok_0.state == s;
        lemma_run_same_rules(p1, p2, acts, acts.len() as int);
    }
}

/// The states of the kept nodes are reachable and pairwise distinct.
proof fn lemma_kept_states(p: PuzzleView, nodes: Seq<SearchNode>, keys: Seq<PaperStateKey>, depth: int)
    requires
        search_ok(p, nodes),
        keys.len() == nodes.len(),
        keys_name_nodes(p, keys, nodes),
        keys_distinct(p, keys),
        forall|k: int| 0 <= k < nodes.len() ==> (#[trigger] nodes[k]).depth <= depth,
        forall|k: int| 0 <= k < nodes.len() ==> #[trigger] path_ordered(nodes, k),
    ensures
        reaches_states(p, depth, nodes.len() as int),
{
    let states = Seq::new(nodes.len(), |k: int| node_state(p, nodes, k).state);
    assert forall|i: int, j: int| 0 <= i < states.len() && 0 <= j < states.len() && i != j implies states[i]
        != states[j] by {
        assert(node_reached(p, nodes, i));
        assert(node_reached(p, nodes, j));
        assert(key_names(keys[i].key_view(), node_state(p, nodes, i)));
        assert(key_names(keys[j].key_view(), node_state(p, nodes, j)));
        if states[i] == states[j] {
            crate::domain::paper::InkPattern::lemma_ext(keys[i].key_view().2, keys[j].key_view().2);
            assert(keys[i].key_view() == keys[j].key_view());
        }
    }
    assert(states.no_duplicates());
    states.unique_seq_to_set();
    let set = states.to_set();
    assert forall|s: crate::domain::paper::state::PaperState| #[trigger] set.contains(s) implies reachable_state(
        p,
        depth,
        s,
    ) by {
        let k = choose|k: int| 0 <= k < states.len() && states[k] == s;
        assert(node_reached(p, nodes, k));
        assert(path_ordered(nodes, k));
        let acts = path(nodes, k);
        assert(run(p, acts, acts.len() as int) is Ok);
    }
    vstd::seq_lib::seq_to_set_is_finite(states);
    assert(set.finite() && set.len() >= nodes.len());
}

/// Every retained key is of the puzzle's sheet, and no two are alike.
spec fn keys_distinct(p: PuzzleView, keys: Seq<PaperStateKey>) -> bool {
    &&& forall|k: int|
        0 <= k < keys.len() ==> (#[trigger] keys[k].key_view()).0 == p.dims && keys[k].key_view().2.dims() == p.dims
    &&& forall|i: int, j: int|
        #![trigger keys[i], keys[j]]
        0 <= i < keys.len() && 0 <= j < keys.len() && i != j ==> keys[i].key_view() != keys[j].key_view()
}

/// Every retained key names the paper of its node.
spec fn keys_name_nodes(p: PuzzleView, keys: Seq<PaperStateKey>, nodes: Seq<SearchNode>) -> bool {
    forall|k: int| 0 <= k < nodes.len() ==> key_names(#[trigger] keys[k].key_view(), node_state(p, nodes, k))
}

/// Whether a catalog action succeeds from a paper and, unless it folds, changes
/// the ink.
pub open spec fn productive_step(p: PuzzleView, m: PaperModel, a: PaperAction) -> bool {
    &&& catalog(p).contains(a)
    &&& attempt_step(p, m, a) is Ok
    &&& (a is Fold || attempt_step(p, m, a)->Ok_0.state.ink != m.state.ink)
}

/// Whether the first `n` actions are catalog actions that each succeed and each,
/// unless it folds, change the ink.
pub open spec fn productive_run(p: PuzzleView, actions: Seq<PaperAction>, n: int) -> bool
    decreases n,
{
    if n <= 0 {
        true
    } else {
        &&& productive_run(p, actions, n - 1)
        &&& run(p, actions, n - 1) is Ok
        &&& productive_step(p, run(p, actions, n - 1)->Ok_0, actions[n - 1])
    }
}

/// Whether the actions are a productive solution: every action a catalog action
/// that succeeds and, unless it folds, changes the ink, ending with exactly the
/// target inked.
pub open spec fn productive_solution(p: PuzzleView, actions: Seq<PaperAction>) -> bool {
    &&& productive_run(p, actions, actions.len() as int)
    &&& run(p, actions, actions.len() as int) is Ok
    &&& run(p, actions, actions.len() as int)->Ok_0.state.ink == p.target.cells()
}

/// A move the search follows from a paper: a productive step that keeps the ink
/// inside the target.
spec fn followed(p: PuzzleView, m: PaperModel, a: PaperAction) -> bool {
    &&& productive_step(p, m, a)
    &&& attempt_step(p, m, a)->Ok_0.state.ink.subset_of(p.target.cells())
}

/// Whether some retained key names a paper.
spec fn key_retained(keys: Seq<PaperStateKey>, m: PaperModel) -> bool {
    exists|j: int| 0 <= j < keys.len() && key_names(#[trigger] keys[j].key_view(), m)
}

/// A node the search is done with: its paper is not solved, and either the depth
/// limit stopped the search, or its budgets are spent, or every move the search
/// follows from it reaches a retained key.
spec fn closed(
    p: PuzzleView,
    nodes: Seq<SearchNode>,
    keys: Seq<PaperStateKey>,
    limited: bool,
    bounds: (int, int),
    k: int,
) -> bool {
    let m = node_state(p, nodes, k);
    &&& m.state.ink != p.target.cells()
    &&& (nodes[k].depth >= bounds.0 || (nodes[k].depth >= bounds.1 && limited) || (nodes[k].depth < bounds.1
        && forall|a: PaperAction| #[trigger] followed(p, m, a) ==> key_retained(keys, attempt_step(p, m, a)->Ok_0)))
}

/// Two papers with one state take the same steps to the same states.
proof fn lemma_step_same_state(p: PuzzleView, m1: PaperModel, m2: PaperModel, a: PaperAction)
    requires
        m1.state == m2.state,
        m1.dims == m2.dims,
        m1.fold_limit == m2.fold_limit,
        m1.stroke_limit == m2.stroke_limit,
        m1.action_limit == m2.action_limit,
    ensures
        attempt_step(p, m1, a) is Ok <==> attempt_step(p, m2, a) is Ok,
        attempt_step(p, m1, a) is Ok ==> attempt_step(p, m1, a)->Ok_0.state == attempt_step(p, m2, a)->Ok_0.state,
{
    let m3 = PaperModel { history: m1.history, ..m2 };
    assert(m3 == m1);
}

/// Whether a paper has the cells, ink, and folds of another, with no more strokes
/// or actions spent, on the same size and budgets.
spec fn no_worse(m2: PaperModel, m: PaperModel) -> bool {
    &&& m2.state.cells == m.state.cells
    &&& m2.state.ink == m.state.ink
    &&& m2.state.folds == m.state.folds
    &&& m2.state.strokes <= m.state.strokes
    &&& m2.state.actions <= m.state.actions
    &&& m2.dims == m.dims
    &&& m2.fold_limit == m.fold_limit
    &&& m2.stroke_limit == m.stroke_limit
    &&& m2.action_limit == m.action_limit
}

/// A paper that is no worse than another takes every step the other takes, and
/// stays no worse.
proof fn lemma_step_no_worse(p: PuzzleView, m: PaperModel, m2: PaperModel, a: PaperAction)
    requires
        no_worse(m2, m),
        attempt_step(p, m, a) is Ok,
    ensures
        attempt_step(p, m2, a) is Ok,
        no_worse(attempt_step(p, m2, a)->Ok_0, attempt_step(p, m, a)->Ok_0),
{
    match a {
        PaperAction::Fold(f) => {
            assert(m2.fold_step(f) is Ok);
        },
        PaperAction::Dot(c) => {
            assert(m2.dot_step(c) is Ok);
        },
        PaperAction::Line(l) => {
            assert(m2.line_step(l) is Ok);
        },
    }
}

/// Every action of one brush rule is among the brush actions of the rules up to `k`.
proof fn lemma_brush_actions_contain(d: Dimensions, rules: Seq<BrushRule>, k: int, j: int, x: PaperAction)
    requires
        0 <= j < k <= rules.len(),
        rule_actions(d, rules[j]).contains(x),
    ensures
        brush_actions(d, rules, k).contains(x),
    decreases k,
{
    let prev = brush_actions(d, rules, k - 1);
    let more = rule_actions(d, rules[k - 1]);
    assert(brush_actions(d, rules, k) == prev + more);
    if j < k - 1 {
        lemma_brush_actions_contain(d, rules, k - 1, j, x);
        let i = choose|i: int| 0 <= i < prev.len() && prev[i] == x;
        assert((prev + more)[i] == x);
    } else {
        let i = choose|i: int| 0 <= i < more.len() && more[i] == x;
        assert((prev + more)[prev.len() + i] == x);
    }
}

/// Every dot on the paper is a dot action.
proof fn lemma_dot_in_catalog(d: Dimensions, c: Coordinate)
    requires
        d.wf(),
        d.contains(c),
    ensures
        dot_actions(d).contains(PaperAction::Dot(c)),
{
    let w = d.w();
    let i = c.r() * w + c.c();
    lemma_row_major(i, w, c.r(), c.c());
    assert(0 <= i < d.h() * w) by (nonlinear_arith)
        requires
            0 <= c.r() < d.h(),
            0 <= c.c() < w,
            i == c.r() * w + c.c(),
    ;
    lemma_coordinate_of_self(c);
    assert(dot_actions(d)[i] == PaperAction::Dot(c));
}

/// Every canonical line of an allowed length on the paper is a line action.
proof fn lemma_line_in_catalog(d: Dimensions, l: LineStroke)
    requires
        d.wf(),
        d.contains(l.start_value()),
        d.contains(l.end_value()),
        coordinate_le(l.start_value(), l.end_value()),
        l.spec_axis_and_length() is Ok,
    ensures
        rule_actions(
            d,
            BrushRule::Line { axis: l.spec_axis_and_length()->Ok_0.0, length: l.spec_axis_and_length()->Ok_0.1 },
        ).contains(PaperAction::Line(l)),
{
    let st = l.start_value();
    let en = l.end_value();
    let (axis, length) = l.spec_axis_and_length()->Ok_0;
    let len = length as int;
    LineStroke::lemma_spec_of(st, en);
    lemma_coordinate_of_self(st);
    lemma_coordinate_of_self(en);
    if st.r() == en.r() {
        let q = d.w() - len + 1;
        let i = st.r() * q + st.c();
        assert(en.c() == st.c() + len - 1);
        lemma_row_major(i, q, st.r(), st.c());
        assert(0 <= i < d.h() * q) by (nonlinear_arith)
            requires
                0 <= st.r() < d.h(),
                0 <= st.c() < q,
                i == st.r() * q + st.c(),
        ;
        let h = horizontal_actions(d, len);
        assert(h[i] == PaperAction::Line(l));
        assert(h.contains(PaperAction::Line(l)));
    } else {
        let w = d.w();
        let i = st.r() * w + st.c();
        assert(en.r() == st.r() + len - 1);
        lemma_row_major(i, w, st.r(), st.c());
        assert(0 <= i < (d.h() - len + 1) * w) by (nonlinear_arith)
            requires
                0 <= st.r() < d.h() - len + 1,
                0 <= st.c() < w,
                i == st.r() * w + st.c(),
        ;
        let v = vertical_actions(d, len);
        assert(v[i] == PaperAction::Line(l));
        assert(v.contains(PaperAction::Line(l)));
    }
}

/// Every action that succeeds from a paper of a puzzle, with a line written start
/// first, is a catalog action.
proof fn lemma_step_in_catalog(p: PuzzleView, m: PaperModel, a: PaperAction)
    requires
        p.dims.wf(),
        m.dims == p.dims,
        attempt_step(p, m, a) is Ok,
        a matches PaperAction::Line(l) ==> coordinate_le(l.start_value(), l.end_value()),
    ensures
        catalog(p).contains(a),
{
    let folds = p.folds.map_values(|f| PaperAction::Fold(f));
    let brushes = brush_actions(p.dims, p.brushes, p.brushes.len() as int);
    assert(catalog(p) == folds + brushes);
    match a {
        PaperAction::Fold(f) => {
            let i = choose|i: int| 0 <= i < p.folds.len() && p.folds[i] == f;
            assert((folds + brushes)[i] == a);
        },
        PaperAction::Dot(c) => {
            let j = choose|j: int| 0 <= j < p.brushes.len() && p.brushes[j] == BrushRule::Dot;
            lemma_dot_in_catalog(p.dims, c);
            lemma_brush_actions_contain(p.dims, p.brushes, p.brushes.len() as int, j, a);
            let i = choose|i: int| 0 <= i < brushes.len() && brushes[i] == a;
            assert((folds + brushes)[folds.len() + i] == a);
        },
        PaperAction::Line(l) => {
            let (axis, length) = l.spec_axis_and_length()->Ok_0;
            let rule = BrushRule::Line { axis, length };
            let j = choose|j: int| 0 <= j < p.brushes.len() && p.brushes[j] == rule;
            lemma_line_in_catalog(p.dims, l);
            lemma_brush_actions_contain(p.dims, p.brushes, p.brushes.len() as int, j, a);
            let i = choose|i: int| 0 <= i < brushes.len() && brushes[i] == a;
            assert((folds + brushes)[folds.len() + i] == a);
        },
    }
}

/// Whether every line among the first `n` actions is written start first, as the
/// library writes every line it makes.
pub open spec fn lines_in_order(actions: Seq<PaperAction>, n: int) -> bool {
    forall|i: int|
        0 <= i < n ==> (#[trigger] actions[i] matches PaperAction::Line(l) ==> coordinate_le(
            l.start_value(),
            l.end_value(),
        ))
}

/// Whether the actions, replayed from the fresh sheet, leave exactly the target inked.
pub open spec fn solution_from_start(p: PuzzleView, actions: Seq<PaperAction>) -> bool {
    &&& run(p, actions, actions.len() as int) is Ok
    &&& run(p, actions, actions.len() as int)->Ok_0.state.ink == p.target.cells()
}

/// Any sequence of actions, with its lines written start first, still solves
/// the puzzle it solved, with the same folds and strokes.
pub proof fn lemma_in_order_solution(p: PuzzleView, actions: Seq<PaperAction>)
    ensures
        ({
            let ordered = actions.map_values(|a: PaperAction| crate::domain::replay::in_order(a));
            &&& ordered.len() == actions.len()
            &&& lines_in_order(ordered, ordered.len() as int)
            &&& solution_from_start(p, actions) ==> {
                &&& solution_from_start(p, ordered)
                &&& run(p, ordered, ordered.len() as int)->Ok_0.state.folds == run(
                    p,
                    actions,
                    actions.len() as int,
                )->Ok_0.state.folds
                &&& run(p, ordered, ordered.len() as int)->Ok_0.state.strokes == run(
                    p,
                    actions,
                    actions.len() as int,
                )->Ok_0.state.strokes
            }
        }),
{
    let ordered = actions.map_values(|a: PaperAction| crate::domain::replay::in_order(a));
    crate::domain::replay::lemma_run_in_order(p, actions, actions.len() as int);
    assert forall|i: int| 0 <= i < ordered.len() implies (#[trigger] ordered[i] matches PaperAction::Line(l)
        ==> coordinate_le(l.start_value(), l.end_value())) by {
        let a = actions[i];
        assert(ordered[i] == crate::domain::replay::in_order(a));
        if let PaperAction::Line(l) = a {
            LineStroke::lemma_spec_of(l.end_value(), l.start_value());
        }
    }
}

/// A puzzle that no sequence with its lines written start first solves is
/// solved by no sequence of actions at all.
pub proof fn lemma_unsolved_for_every_sequence(p: PuzzleView, actions: Seq<PaperAction>)
    requires
        forall|other: Seq<PaperAction>|
            lines_in_order(other, other.len() as int) ==> !#[trigger] solution_from_start(p, other),
    ensures
        !solution_from_start(p, actions),
{
    lemma_in_order_solution(p, actions);
    let ordered = actions.map_values(|a: PaperAction| crate::domain::replay::in_order(a));
    assert(!solution_from_start(p, ordered));
}

/// No solution of a puzzle is longer than its fold and stroke budgets together.
pub proof fn lemma_solution_within_budgets(puzzle: Puzzle, actions: Seq<PaperAction>)
    requires
        puzzle.wf(),
        solution_from_start(puzzle.view(), actions),
    ensures
        actions.len() <= puzzle.view().fold_budget.value() + puzzle.view().stroke_budget.value(),
{
    let p = puzzle.view();
    crate::domain::paper::ActionCount::lemma_spec_of(64);
    crate::domain::replay::lemma_run_wf(p, actions, actions.len() as int);
    crate::domain::replay::lemma_run_history(p, actions, actions.len() as int);
}

/// A score no worse than every solution that writes its lines start first and
/// fits a depth limit at least the budgets is no worse than every solution.
pub proof fn lemma_best_for_every_sequence(
    puzzle: Puzzle,
    depth: int,
    folds: int,
    strokes: int,
    actions: Seq<PaperAction>,
)
    requires
        puzzle.wf(),
        puzzle.view().fold_budget.value() + puzzle.view().stroke_budget.value() <= depth,
        forall|other: Seq<PaperAction>|
            lines_in_order(other, other.len() as int) && other.len() <= depth && #[trigger] solution_from_start(
                puzzle.view(),
                other,
            ) ==> score_le(
                folds,
                strokes,
                run(puzzle.view(), other, other.len() as int)->Ok_0.state.folds,
                run(puzzle.view(), other, other.len() as int)->Ok_0.state.strokes,
            ),
        solution_from_start(puzzle.view(), actions),
    ensures
        score_le(
            folds,
            strokes,
            run(puzzle.view(), actions, actions.len() as int)->Ok_0.state.folds,
            run(puzzle.view(), actions, actions.len() as int)->Ok_0.state.strokes,
        ),
{
    let p = puzzle.view();
    lemma_in_order_solution(p, actions);
    let ordered = actions.map_values(|a: PaperAction| crate::domain::replay::in_order(a));
    lemma_solution_within_budgets(puzzle, ordered);
    assert(solution_from_start(p, ordered));
}

/// A productive prefix depends only on the actions in it.
proof fn lemma_productive_ext(p: PuzzleView, a: Seq<PaperAction>, b: Seq<PaperAction>, n: int)
    requires
        forall|i: int| 0 <= i < n ==> a[i] == b[i],
    ensures
        productive_run(p, a, n) == productive_run(p, b, n),
    decreases n,
{
    if n > 0 {
        lemma_productive_ext(p, a, b, n - 1);
        lemma_run_ext(p, a, b, n - 1);
    }
}

/// Any run, with its lines written start first, leaves out its brushes that do
/// not change the ink and becomes a productive run that reaches a paper no worse.
proof fn lemma_normalize(p: PuzzleView, actions: Seq<PaperAction>, n: int) -> (kept: Seq<PaperAction>)
    requires
        0 <= n <= actions.len(),
        run(p, actions, n) is Ok,
        p.dims.wf(),
        lines_in_order(actions, n),
    ensures
        kept.len() <= n,
        productive_run(p, kept, kept.len() as int),
        run(p, kept, kept.len() as int) is Ok,
        no_worse(run(p, kept, kept.len() as int)->Ok_0, run(p, actions, n)->Ok_0),
    decreases n,
{
    if n == 0 {
        Seq::empty()
    } else {
        lemma_run_prefix_ok(p, actions, n, n - 1);
        assert(lines_in_order(actions, n - 1));
        let prev = lemma_normalize(p, actions, n - 1);
        let m = run(p, actions, n - 1)->Ok_0;
        let m2 = run(p, prev, prev.len() as int)->Ok_0;
        let a = actions[n - 1];
        lemma_step_no_worse(p, m, m2, a);
        let next = attempt_step(p, m, a)->Ok_0;
        let next2 = attempt_step(p, m2, a)->Ok_0;
        if !(a is Fold) && next.state.ink == m.state.ink {
            match a {
                PaperAction::Dot(c) => {
                    assert(next.state.cells == m.state.cells);
                },
                PaperAction::Line(l) => {
                    assert(next.state.cells == m.state.cells);
                },
                PaperAction::Fold(_) => {},
            }
            prev
        } else {
            let kept = prev.push(a);
            lemma_run_ext(p, kept, prev, prev.len() as int);
            lemma_productive_ext(p, kept, prev, prev.len() as int);
            lemma_run_history(p, actions, n - 1);
            lemma_step_in_catalog(p, m2, a);
            assert(run(p, kept, kept.len() as int) == Ok::<PaperModel, (int, crate::domain::attempt::ActionError)>(next2));
            kept
        }
    }
}

/// When every node is closed and the depth limit never stopped the search, no
/// run with its lines written start first solves the puzzle.
proof fn lemma_closed_no_solution(
    p: PuzzleView,
    nodes: Seq<SearchNode>,
    keys: Seq<PaperStateKey>,
    bounds: (int, int),
    actions: Seq<PaperAction>,
)
    requires
        search_ok(p, nodes),
        keys_name_nodes(p, keys, nodes),
        keys.len() == nodes.len(),
        nodes.len() >= 1,
        path(nodes, 0).len() == 0,
        fresh_paper(p).limits_wf(),
        bounds.0 == p.fold_budget.value() + p.stroke_budget.value(),
        forall|k: int| 0 <= k < nodes.len() ==> #[trigger] closed(p, nodes, keys, false, bounds, k),
        lines_in_order(actions, actions.len() as int),
    ensures
        !solution_from_start(p, actions),
{
    if solution_from_start(p, actions) {
        let kept = lemma_normalize(p, actions, actions.len() as int);
        lemma_closed_unsolved(p, nodes, keys, bounds, kept);
        assert(productive_solution(p, kept));
    }
}

/// Every line of one brush rule's actions is written start first.
proof fn lemma_rule_lines_in_order(d: Dimensions, rule: BrushRule, i: int)
    requires
        d.wf(),
        !brush_bad(d, rule),
        0 <= i < rule_actions(d, rule).len(),
    ensures
        rule_actions(d, rule)[i] matches PaperAction::Line(l) ==> coordinate_le(l.start_value(), l.end_value()),
{
    d.lemma_wf();
    match rule {
        BrushRule::Dot => {},
        BrushRule::Line { axis, length } => {
            let len = length as int;
            if axis == StrokeAxis::Horizontal {
                let q = d.w() - len + 1;
                assert(0 <= i / q < d.h() && 0 <= i % q < q) by (nonlinear_arith)
                    requires
                        q > 0,
                        0 <= i < d.h() * q,
                ;
                let r = i / q;
                let c = i % q;
                lemma_coordinate_of(r, c);
                lemma_coordinate_of(r, c + len - 1);
                LineStroke::lemma_spec_of(coordinate_of(r, c), coordinate_of(r, c + len - 1));
            } else {
                let w = d.w();
                assert(0 <= i / w < d.h() - len + 1 && 0 <= i % w < w) by (nonlinear_arith)
                    requires
                        w > 0,
                        0 <= i < (d.h() - len + 1) * w,
                ;
                let r = i / w;
                let c = i % w;
                lemma_coordinate_of(r, c);
                lemma_coordinate_of(r + len - 1, c);
                LineStroke::lemma_spec_of(coordinate_of(r, c), coordinate_of(r + len - 1, c));
            }
        },
    }
}

/// Every line of the catalog is written start first.
pub proof fn lemma_catalog_lines_in_order(p: PuzzleView, a: PaperAction)
    requires
        p.dims.wf(),
        forall|j: int| 0 <= j < p.brushes.len() ==> !brush_bad(p.dims, #[trigger] p.brushes[j]),
        catalog(p).contains(a),
    ensures
        a matches PaperAction::Line(l) ==> coordinate_le(l.start_value(), l.end_value()),
{
    let folds = p.folds.map_values(|f| PaperAction::Fold(f));
    let k = p.brushes.len() as int;
    assert(catalog(p) == folds + brush_actions(p.dims, p.brushes, k));
    let i = choose|i: int| 0 <= i < catalog(p).len() && catalog(p)[i] == a;
    if i >= folds.len() {
        lemma_brush_lines_in_order(p.dims, p.brushes, k, i - folds.len());
    }
}

/// Every line of the brush actions is written start first.
proof fn lemma_brush_lines_in_order(d: Dimensions, rules: Seq<BrushRule>, k: int, i: int)
    requires
        d.wf(),
        0 <= k <= rules.len(),
        forall|j: int| 0 <= j < rules.len() ==> !brush_bad(d, #[trigger] rules[j]),
        0 <= i < brush_actions(d, rules, k).len(),
    ensures
        brush_actions(d, rules, k)[i] matches PaperAction::Line(l) ==> coordinate_le(l.start_value(), l.end_value()),
    decreases k,
{
    let prev = brush_actions(d, rules, k - 1);
    let more = rule_actions(d, rules[k - 1]);
    assert(brush_actions(d, rules, k) == prev + more);
    if i < prev.len() {
        lemma_brush_lines_in_order(d, rules, k - 1, i);
    } else {
        lemma_rule_lines_in_order(d, rules[k - 1], i - prev.len());
    }
}

/// A paper whose counts reach both budgets takes no further step.
proof fn lemma_no_step_when_spent(p: PuzzleView, m: PaperModel, a: PaperAction)
    requires
        m.wf(),
        m.state.actions >= m.fold_limit.value() + m.stroke_limit.value(),
    ensures
        attempt_step(p, m, a) is Err,
{
}

/// The ink of a run only grows.
proof fn lemma_run_ink_grows(p: PuzzleView, actions: Seq<PaperAction>, i: int, n: int)
    requires
        0 <= i <= n,
        run(p, actions, n) is Ok,
    ensures
        run(p, actions, i) is Ok,
        run(p, actions, i)->Ok_0.state.ink.subset_of(run(p, actions, n)->Ok_0.state.ink),
    decreases n - i,
{
    if i < n {
        lemma_run_ink_grows(p, actions, i, n - 1);
        let m = run(p, actions, n - 1)->Ok_0;
        crate::domain::paper::state::lemma_apply_keeps_ink(m, actions[n - 1]);
    }
}

/// A node that waits in the frontier or that the search is done with.
spec fn settled(
    f: Frontier,
    p: PuzzleView,
    nodes: Seq<SearchNode>,
    keys: Seq<PaperStateKey>,
    limited: bool,
    bounds: (int, int),
    k: int,
) -> bool {
    f.waiting(k) || closed(p, nodes, keys, limited, bounds, k)
}

/// The frontier bucket of a score: folds count nine, strokes one.
spec fn bucket_of(score: Score) -> int {
    score.fold_part().value() * 9 + score.stroke_part().value()
}

/// The frontier bucket of a paper's counts.
spec fn paper_bucket(m: PaperModel) -> int {
    m.state.folds * 9 + m.state.strokes
}

/// A step never takes back a fold or a stroke.
proof fn lemma_step_counts_grow(p: PuzzleView, m: PaperModel, a: PaperAction)
    requires
        attempt_step(p, m, a) is Ok,
    ensures
        attempt_step(p, m, a)->Ok_0.state.folds >= m.state.folds,
        attempt_step(p, m, a)->Ok_0.state.strokes >= m.state.strokes,
{
}

/// The bucket of a run's paper only grows.
proof fn lemma_bucket_grows(p: PuzzleView, actions: Seq<PaperAction>, i: int, n: int)
    requires
        0 <= i <= n,
        run(p, actions, n) is Ok,
    ensures
        run(p, actions, i) is Ok,
        paper_bucket(run(p, actions, i)->Ok_0) <= paper_bucket(run(p, actions, n)->Ok_0),
    decreases n - i,
{
    lemma_run_prefix_ok(p, actions, n, i);
    if i < n {
        lemma_bucket_grows(p, actions, i, n - 1);
        lemma_run_prefix_ok(p, actions, n, n - 1);
        lemma_step_counts_grow(p, run(p, actions, n - 1)->Ok_0, actions[n - 1]);
    }
}

/// Along a productive solution no longer than the depth limit, some paper has the
/// key of a node that waits in the frontier, in a bucket no higher than the
/// solution's, or the paper's key is retained.
proof fn lemma_waiting_on_path(
    p: PuzzleView,
    nodes: Seq<SearchNode>,
    keys: Seq<PaperStateKey>,
    f: Frontier,
    limited: bool,
    bounds: (int, int),
    actions: Seq<PaperAction>,
    i: int,
    n: int,
)
    requires
        search_ok(p, nodes),
        keys_name_nodes(p, keys, nodes),
        keys.len() == nodes.len(),
        nodes.len() >= 1,
        path(nodes, 0).len() == 0,
        fresh_paper(p).limits_wf(),
        bounds.0 == p.fold_budget.value() + p.stroke_budget.value(),
        forall|k: int| 0 <= k < nodes.len() ==> #[trigger] settled(f, p, nodes, keys, limited, bounds, k),
        0 <= i <= n,
        n <= bounds.1,
        productive_run(p, actions, n),
        run(p, actions, n) is Ok,
        run(p, actions, n)->Ok_0.state.ink.subset_of(p.target.cells()),
    ensures
        run(p, actions, i) is Ok,
        (exists|j: int|
            0 <= j < nodes.len() && #[trigger] f.waiting(j) && bucket_of(nodes[j].score) <= paper_bucket(
                run(p, actions, n)->Ok_0,
            )) || key_retained(keys, run(p, actions, i)->Ok_0),
    decreases i,
{
    lemma_run_ink_grows(p, actions, i, n);
    lemma_bucket_grows(p, actions, i, n);
    if i == 0 {
        assert(node_reached(p, nodes, 0));
        assert(node_state(p, nodes, 0) == fresh_paper(p));
        assert(key_names(keys[0].key_view(), run(p, actions, 0)->Ok_0));
    } else {
        lemma_waiting_on_path(p, nodes, keys, f, limited, bounds, actions, i - 1, n);
        lemma_productive_prefix(p, actions, i, n);
        let m = run(p, actions, i - 1)->Ok_0;
        if key_retained(keys, m) {
            let a = actions[i - 1];
            let j = choose|j: int| 0 <= j < keys.len() && key_names(#[trigger] keys[j].key_view(), m);
            let s = node_state(p, nodes, j);
            assert(node_reached(p, nodes, j));
            assert(key_names(keys[j].key_view(), s));
            let sp = path(nodes, j);
            lemma_run_wf(p, sp, sp.len() as int);
            lemma_run_wf(p, actions, i - 1);
            lemma_run_history(p, sp, sp.len() as int);
            lemma_run_history(p, actions, i - 1);
            assert(s.state == m.state);
            lemma_bucket_grows(p, actions, i - 1, n);
            assert(settled(f, p, nodes, keys, limited, bounds, j));
            if f.waiting(j) {
                assert(bucket_of(nodes[j].score) == paper_bucket(m));
            } else {
                lemma_step_same_state(p, s, m, a);
                lemma_run_ink_grows(p, actions, i, n);
                if nodes[j].depth >= bounds.0 {
                    lemma_no_step_when_spent(p, s, a);
                }
                assert(followed(p, s, a));
                let next = attempt_step(p, s, a)->Ok_0;
                assert(key_retained(keys, next));
                let j2 = choose|j2: int| 0 <= j2 < keys.len() && key_names(#[trigger] keys[j2].key_view(), next);
                assert(key_names(keys[j2].key_view(), run(p, actions, i)->Ok_0));
            }
        }
    }
}

/// Score order: fewer folds first, then fewer strokes.
pub open spec fn score_le(folds: int, strokes: int, other_folds: int, other_strokes: int) -> bool {
    folds < other_folds || (folds == other_folds && strokes <= other_strokes)
}

/// The node the frontier hands out first scores no worse than any solution no
/// longer than the depth limit with its lines written start first.
proof fn lemma_first_is_best(
    p: PuzzleView,
    nodes: Seq<SearchNode>,
    keys: Seq<PaperStateKey>,
    f: Frontier,
    limited: bool,
    bounds: (int, int),
    best: int,
    actions: Seq<PaperAction>,
)
    requires
        search_ok(p, nodes),
        keys_name_nodes(p, keys, nodes),
        keys.len() == nodes.len(),
        nodes.len() >= 1,
        path(nodes, 0).len() == 0,
        fresh_paper(p).limits_wf(),
        bounds.0 == p.fold_budget.value() + p.stroke_budget.value(),
        forall|k: int| 0 <= k < nodes.len() ==> #[trigger] settled(f, p, nodes, keys, limited, bounds, k),
        f.wf(nodes.len() as int),
        forall|b: int, i: int|
            0 <= b < SCORE_BUCKETS && 0 <= i < f.buckets@[b]@.len() ==> bucket_of(
                nodes[#[trigger] f.buckets@[b]@[i] as int].score,
            ) == b,
        0 <= best < nodes.len(),
        f.first_waiting(best),
        lines_in_order(actions, actions.len() as int),
        actions.len() <= bounds.1,
        solution_from_start(p, actions),
    ensures
        score_le(
            nodes[best].score.fold_part().value() as int,
            nodes[best].score.stroke_part().value() as int,
            run(p, actions, actions.len() as int)->Ok_0.state.folds,
            run(p, actions, actions.len() as int)->Ok_0.state.strokes,
        ),
{
    let n = actions.len() as int;
    let m = run(p, actions, n)->Ok_0;
    let kept = lemma_normalize(p, actions, n);
    let k = kept.len() as int;
    let mk = run(p, kept, k)->Ok_0;
    lemma_waiting_on_path(p, nodes, keys, f, limited, bounds, kept, k, k);
    if !(exists|j: int| 0 <= j < nodes.len() && #[trigger] f.waiting(j) && bucket_of(nodes[j].score) <= paper_bucket(mk)) {
        let j = choose|j: int| 0 <= j < keys.len() && key_names(#[trigger] keys[j].key_view(), mk);
        assert(settled(f, p, nodes, keys, limited, bounds, j));
        assert(key_names(keys[j].key_view(), node_state(p, nodes, j)));
        assert(f.waiting(j));
        assert(node_reached(p, nodes, j));
        let sp = path(nodes, j);
        lemma_run_wf(p, sp, sp.len() as int);
        assert(bucket_of(nodes[j].score) == paper_bucket(mk));
    }
    let j = choose|j: int| 0 <= j < nodes.len() && #[trigger] f.waiting(j) && bucket_of(nodes[j].score) <= paper_bucket(mk);
    let (bj, ij) = choose|bj: int, ij: int|
        0 <= bj < SCORE_BUCKETS && f.heads@[bj] <= ij < f.buckets@[bj]@.len() && #[trigger] f.buckets@[bj]@[ij] as int == j;
    assert(f.waiting_at(bj, j));
    let b0 = choose|b0: int|
        0 <= b0 < SCORE_BUCKETS && #[trigger] f.waiting_at(b0, best) && forall|b: int, y: int|
            0 <= b < b0 ==> !#[trigger] f.waiting_at(b, y);
    let i0 = choose|i0: int| f.heads@[b0] <= i0 < f.buckets@[b0]@.len() && #[trigger] f.buckets@[b0]@[i0] as int == best;
    assert(bucket_of(nodes[best].score) == b0);
    assert(bucket_of(nodes[j].score) == bj);
    assert(b0 <= bj);
    assert(node_reached(p, nodes, best));
    let sb = path(nodes, best);
    lemma_run_wf(p, sb, sb.len() as int);
    lemma_run_history(p, sb, sb.len() as int);
    lemma_run_wf(p, actions, n);
    lemma_run_history(p, actions, n);
}

/// A closed node stays closed when the search retains another node, and when the
/// depth limit stops it.
proof fn lemma_closed_stable(
    p: PuzzleView,
    nodes: Seq<SearchNode>,
    keys: Seq<PaperStateKey>,
    x: SearchNode,
    key: PaperStateKey,
    limited: bool,
    bounds: (int, int),
    k: int,
)
    requires
        0 <= k < nodes.len(),
        keys.len() == nodes.len(),
        closed(p, nodes, keys, limited, bounds, k),
    ensures
        closed(p, nodes.push(x), keys.push(key), limited, bounds, k),
        closed(p, nodes, keys, true, bounds, k),
{
    lemma_path_stable(nodes, x, k);
    assert(nodes.push(x)[k] == nodes[k]);
    let m = node_state(p, nodes, k);
    assert(node_state(p, nodes.push(x), k) == m);
    assert forall|a: PaperAction| #[trigger] followed(p, m, a) && key_retained(keys, attempt_step(p, m, a)->Ok_0) implies key_retained(
        keys.push(key),
        attempt_step(p, m, a)->Ok_0,
    ) by {
        let j = choose|j: int| 0 <= j < keys.len() && key_names(#[trigger] keys[j].key_view(), attempt_step(p, m, a)->Ok_0);
        assert(keys.push(key)[j] == keys[j]);
    }
}

/// When every node is closed and the depth limit never stopped the search, every
/// paper a productive run inside the target reaches has a retained key.
proof fn lemma_closed_reaches(
    p: PuzzleView,
    nodes: Seq<SearchNode>,
    keys: Seq<PaperStateKey>,
    bounds: (int, int),
    actions: Seq<PaperAction>,
    i: int,
    n: int,
)
    requires
        search_ok(p, nodes),
        keys_name_nodes(p, keys, nodes),
        keys.len() == nodes.len(),
        nodes.len() >= 1,
        path(nodes, 0).len() == 0,
        fresh_paper(p).limits_wf(),
        bounds.0 == p.fold_budget.value() + p.stroke_budget.value(),
        forall|k: int| 0 <= k < nodes.len() ==> #[trigger] closed(p, nodes, keys, false, bounds, k),
        0 <= i <= n,
        productive_run(p, actions, n),
        run(p, actions, n) is Ok,
        run(p, actions, n)->Ok_0.state.ink.subset_of(p.target.cells()),
    ensures
        run(p, actions, i) is Ok,
        key_retained(keys, run(p, actions, i)->Ok_0),
    decreases i,
{
    lemma_run_ink_grows(p, actions, i, n);
    if i == 0 {
        assert(node_reached(p, nodes, 0));
        assert(node_state(p, nodes, 0) == fresh_paper(p));
        assert(key_names(keys[0].key_view(), run(p, actions, 0)->Ok_0));
    } else {
        lemma_closed_reaches(p, nodes, keys, bounds, actions, i - 1, n);
        lemma_productive_prefix(p, actions, i, n);
        let m = run(p, actions, i - 1)->Ok_0;
        let a = actions[i - 1];
        let j = choose|j: int| 0 <= j < keys.len() && key_names(#[trigger] keys[j].key_view(), m);
        let s = node_state(p, nodes, j);
        assert(node_reached(p, nodes, j));
        assert(key_names(keys[j].key_view(), s));
        let sp = path(nodes, j);
        lemma_run_wf(p, sp, sp.len() as int);
        lemma_run_wf(p, actions, i - 1);
        lemma_run_history(p, sp, sp.len() as int);
        lemma_run_history(p, actions, i - 1);
        assert(s.state == m.state);
        lemma_step_same_state(p, s, m, a);
        lemma_run_ink_grows(p, actions, i, n);
        assert(closed(p, nodes, keys, false, bounds, j));
        if nodes[j].depth >= bounds.0 {
            lemma_no_step_when_spent(p, s, a);
        }
        assert(followed(p, s, a));
        let next = attempt_step(p, s, a)->Ok_0;
        assert(key_retained(keys, next));
        let j2 = choose|j2: int| 0 <= j2 < keys.len() && key_names(#[trigger] keys[j2].key_view(), next);
        assert(key_names(keys[j2].key_view(), run(p, actions, i)->Ok_0));
    }
}

/// A productive run is productive in every prefix.
proof fn lemma_productive_prefix(p: PuzzleView, actions: Seq<PaperAction>, i: int, n: int)
    requires
        1 <= i <= n,
        productive_run(p, actions, n),
    ensures
        productive_run(p, actions, i),
        run(p, actions, i - 1) is Ok,
        productive_step(p, run(p, actions, i - 1)->Ok_0, actions[i - 1]),
    decreases n - i,
{
    if i < n {
        lemma_productive_prefix(p, actions, i, n - 1);
    }
}

/// When every node is closed and the depth limit never stopped the search, no
/// productive run solves the puzzle.
proof fn lemma_closed_unsolved(
    p: PuzzleView,
    nodes: Seq<SearchNode>,
    keys: Seq<PaperStateKey>,
    bounds: (int, int),
    actions: Seq<PaperAction>,
)
    requires
        search_ok(p, nodes),
        keys_name_nodes(p, keys, nodes),
        keys.len() == nodes.len(),
        nodes.len() >= 1,
        path(nodes, 0).len() == 0,
        fresh_paper(p).limits_wf(),
        bounds.0 == p.fold_budget.value() + p.stroke_budget.value(),
        forall|k: int| 0 <= k < nodes.len() ==> #[trigger] closed(p, nodes, keys, false, bounds, k),
    ensures
        !productive_solution(p, actions),
{
    if productive_solution(p, actions) {
        let n = actions.len() as int;
        lemma_closed_reaches(p, nodes, keys, bounds, actions, n, n);
        let m = run(p, actions, n)->Ok_0;
        let j = choose|j: int| 0 <= j < keys.len() && key_names(#[trigger] keys[j].key_view(), m);
        assert(closed(p, nodes, keys, false, bounds, j));
        assert(key_names(keys[j].key_view(), node_state(p, nodes, j)));
    }
}

// ---------------------------------------------------------------------------
// The frontier: a bucket queue by score, first in first out within a score
// ---------------------------------------------------------------------------

const SCORE_BUCKETS: usize = 117;

spec fn pending_sum(s: Seq<int>, k: int) -> int
    decreases k,
{
    if k <= 0 {
        0
    } else {
        pending_sum(s, k - 1) + s[k - 1]
    }
}

spec fn pending_of(buckets: Seq<Vec<u32>>, heads: Seq<usize>) -> Seq<int> {
    Seq::new(SCORE_BUCKETS as nat, |b: int| buckets[b]@.len() - heads[b])
}

proof fn lemma_pending_update(s: Seq<int>, b: int, v: int, k: int)
    requires
        0 <= b < s.len(),
        0 <= k <= s.len(),
    ensures
        b < k ==> pending_sum(s.update(b, v), k) == pending_sum(s, k) - s[b] + v,
        b >= k ==> pending_sum(s.update(b, v), k) == pending_sum(s, k),
    decreases k,
{
    if k > 0 {
        lemma_pending_update(s, b, v, k - 1);
    }
}

proof fn lemma_pending_nonneg(s: Seq<int>, k: int)
    requires
        0 <= k <= s.len(),
        forall|j: int| 0 <= j < k ==> #[trigger] s[j] >= 0,
    ensures
        pending_sum(s, k) >= 0,
        forall|j: int| 0 <= j < k ==> pending_sum(s, k) >= #[trigger] s[j],
    decreases k,
{
    if k > 0 {
        lemma_pending_nonneg(s, k - 1);
    }
}

proof fn lemma_pending_zero(s: Seq<int>, k: int)
    requires
        0 <= k <= s.len(),
        forall|j: int| 0 <= j < k ==> #[trigger] s[j] == 0,
    ensures
        pending_sum(s, k) == 0,
    decreases k,
{
    if k > 0 {
        lemma_pending_zero(s, k - 1);
    }
}

struct Frontier {
    buckets: Vec<Vec<u32>>,
    heads: Vec<usize>,
    pending: usize,
}

impl Frontier {
    /// Whether node `x` waits in the frontier.
    spec fn waiting(&self, x: int) -> bool {
        exists|b: int, i: int|
            0 <= b < SCORE_BUCKETS && self.heads@[b] <= i < self.buckets@[b]@.len() && #[trigger] self.buckets@[b]@[i]
                as int == x
    }

    /// Whether node `x` waits in bucket `b`.
    spec fn waiting_at(&self, b: int, x: int) -> bool {
        exists|i: int| self.heads@[b] <= i < self.buckets@[b]@.len() && #[trigger] self.buckets@[b]@[i] as int == x
    }

    /// Whether node `x` waits in the lowest bucket that holds a waiting node.
    spec fn first_waiting(&self, x: int) -> bool {
        exists|b0: int|
            0 <= b0 < SCORE_BUCKETS && #[trigger] self.waiting_at(b0, x) && forall|b: int, y: int|
                0 <= b < b0 ==> !#[trigger] self.waiting_at(b, y)
    }

    spec fn wf(&self, bound: int) -> bool {
        &&& self.buckets@.len() == SCORE_BUCKETS
        &&& self.heads@.len() == SCORE_BUCKETS
        &&& forall|b: int| 0 <= b < SCORE_BUCKETS ==> self.heads@[b] <= (#[trigger] self.buckets@[b])@.len()
        &&& forall|b: int, i: int| 0 <= b < SCORE_BUCKETS && 0 <= i < self.buckets@[b]@.len() ==> (#[trigger] self.buckets@[b]@[i]) < bound
        &&& self.pending as int == pending_sum(pending_of(self.buckets@, self.heads@), SCORE_BUCKETS as int)
        &&& self.pending <= bound
        &&& bound <= 250_000
    }

    fn new() -> (r: Self)
        ensures
            r.wf(0),
    {
        let mut buckets: Vec<Vec<u32>> = Vec::new();
        let mut heads: Vec<usize> = Vec::new();
        let mut b: usize = 0;
        while b < SCORE_BUCKETS
            invariant
                b <= SCORE_BUCKETS,
                buckets@.len() == b,
                heads@.len() == b,
                forall|j: int| 0 <= j < b ==> (#[trigger] buckets@[j])@.len() == 0 && heads@[j] == 0,
            decreases SCORE_BUCKETS - b,
        {
            buckets.push(Vec::new());
            heads.push(0);
            b = b + 1;
        }
        let r = Frontier { buckets, heads, pending: 0 };
        proof {
            lemma_pending_zero(pending_of(r.buckets@, r.heads@), SCORE_BUCKETS as int);
        }
        r
    }

    fn push(&mut self, score: Score, node: u32, bound: Ghost<int>)
        requires
            old(self).wf(bound@),
            (node as int) < bound@ + 1,
            bound@ < 250_000,
        ensures
            final(self).wf(bound@ + 1),
            final(self).pending == old(self).pending + 1,
            final(self).waiting(node as int),
            forall|x: int| old(self).waiting(x) ==> #[trigger] final(self).waiting(x),
            final(self).heads@ == old(self).heads@,
            forall|b: int|
                0 <= b < SCORE_BUCKETS ==> (#[trigger] final(self).buckets@[b])@ == if b == bucket_of(score) {
                    old(self).buckets@[b]@.push(node)
                } else {
                    old(self).buckets@[b]@
                },
    {
        let bucket = score.folds().get() as usize * 9 + score.strokes().get() as usize;
        let ghost buckets0 = self.buckets@;
        let ghost heads0 = self.heads@;
        let mut entries: Vec<u32> = Vec::new();
        std::mem::swap(&mut entries, &mut self.buckets[bucket]);
        entries.push(node);
        self.buckets[bucket] = entries;
        proof {
            let s0 = pending_of(buckets0, heads0);
            lemma_pending_update(s0, bucket as int, s0[bucket as int] + 1, SCORE_BUCKETS as int);
            assert(pending_of(self.buckets@, self.heads@) =~= s0.update(bucket as int, s0[bucket as int] + 1));
            assert forall|b: int, i: int| 0 <= b < SCORE_BUCKETS && 0 <= i < self.buckets@[b]@.len() implies (#[trigger] self.buckets@[b]@[i]) < bound@ + 1 by {
                if b != bucket {
                    assert(self.buckets@[b] == buckets0[b]);
                } else if i < buckets0[b]@.len() {
                    assert(self.buckets@[b]@[i] == buckets0[b]@[i]);
                }
            }
            assert forall|b: int| 0 <= b < SCORE_BUCKETS implies self.heads@[b] <= (#[trigger] self.buckets@[b])@.len() by {
                if b != bucket {
                    assert(self.buckets@[b] == buckets0[b]);
                }
            }
        }
        self.pending = self.pending + 1;
        proof {
            assert(self.buckets@[bucket as int]@[buckets0[bucket as int]@.len() as int] == node);
            assert(self.heads@[bucket as int] <= buckets0[bucket as int]@.len());
            assert forall|x: int| old(self).waiting(x) implies #[trigger] self.waiting(x) by {
                let (b, i) = choose|b: int, i: int|
                    0 <= b < SCORE_BUCKETS && heads0[b] <= i < buckets0[b]@.len() && #[trigger] buckets0[b]@[i] as int
                        == x;
                if b == bucket {
                    assert(self.buckets@[b]@[i] == buckets0[b]@[i]);
                } else {
                    assert(self.buckets@[b] == buckets0[b]);
                }
                assert(self.heads@[b] == heads0[b]);
            }
        }
    }

    /// The first node of the lowest nonempty score bucket.
    fn pop(&mut self, bound: Ghost<int>) -> (r: Option<u32>)
        requires
            old(self).wf(bound@),
        ensures
            final(self).wf(bound@),
            r matches Some(n) ==> (n as int) < bound@ && final(self).pending == old(self).pending - 1,
            r is None ==> final(self).pending == old(self).pending && old(self).pending == 0,
            r is None ==> forall|x: int| !#[trigger] old(self).waiting(x),
            final(self).buckets@ == old(self).buckets@,
            r matches Some(n) ==> old(self).first_waiting(n as int),
            forall|x: int| #[trigger] old(self).waiting(x) && r != Some(x as u32) ==> final(self).waiting(x),
    {
        let mut b: usize = 0;
        while b < SCORE_BUCKETS
            invariant
                self.wf(bound@),
                *self == *old(self),
                b <= SCORE_BUCKETS,
                forall|j: int| 0 <= j < b ==> self.heads@[j] == (#[trigger] self.buckets@[j])@.len(),
            decreases SCORE_BUCKETS - b,
        {
            let head = self.heads[b];
            if head < self.buckets[b].len() {
                let node = self.buckets[b][head];
                let ghost heads0 = self.heads@;
                proof {
                    let s0 = pending_of(self.buckets@, heads0);
                    lemma_pending_nonneg(s0, SCORE_BUCKETS as int);
                    assert(s0[b as int] >= 1);
                }
                self.heads[b] = head + 1;
                proof {
                    let s0 = pending_of(self.buckets@, heads0);
                    lemma_pending_update(s0, b as int, s0[b as int] - 1, SCORE_BUCKETS as int);
                    assert(pending_of(self.buckets@, self.heads@) =~= s0.update(b as int, s0[b as int] - 1));
                    assert forall|j: int| 0 <= j < SCORE_BUCKETS implies self.heads@[j] <= (#[trigger] self.buckets@[j])@.len() by {
                        if j != b {
                            assert(self.heads@[j] == heads0[j]);
                        }
                    }
                }
                self.pending = self.pending - 1;
                proof {
                    let o = *old(self);
                    assert(o.buckets@[b as int]@[head as int] == node);
                    assert(o.waiting_at(b as int, node as int));
                    assert forall|bb: int, x: int| 0 <= bb < b implies !#[trigger] o.waiting_at(bb, x) by {
                        assert(o.heads@[bb] == o.buckets@[bb]@.len());
                    }
                    assert(o.first_waiting(node as int));
                    assert forall|x: int| #[trigger] o.waiting(x) && Some(node) != Some(x as u32) implies self.waiting(x) by {
                        let (bx, ix) = choose|bx: int, ix: int|
                            0 <= bx < SCORE_BUCKETS && o.heads@[bx] <= ix < o.buckets@[bx]@.len() && #[trigger] o.buckets@[bx]@[ix]
                                as int == x;
                        if bx == b && ix == head {
                            assert(x == node);
                        } else {
                            assert(self.buckets@[bx]@[ix] == o.buckets@[bx]@[ix]);
                        }
                    }
                }
                return Some(node);
            }
            b = b + 1;
        }
        proof {
            lemma_pending_zero(pending_of(self.buckets@, self.heads@), SCORE_BUCKETS as int);
        }
        None
    }
}


// ---------------------------------------------------------------------------
// The visited states: node indices filed under the digests of their states
// ---------------------------------------------------------------------------

/// Whether each node with these digests is filed under its own digest, and
/// every filed node is one of them under its own digest.
spec fn placed_in(buckets: Map<u64, Vec<u32>>, digests: Seq<u64>) -> bool {
    &&& forall|n: int|
        0 <= n < digests.len() ==> buckets.contains_key(#[trigger] digests[n]) && buckets[digests[n]]@.contains(
            n as u32,
        )
    &&& forall|d: u64, i: int|
        buckets.contains_key(d) && 0 <= i < buckets[d]@.len() ==> (#[trigger] buckets[d]@[i] as int) < digests.len()
            && digests[buckets[d]@[i] as int] == d
}

/// The digest of every retained key, in node order.
spec fn key_digests(keys: Seq<PaperStateKey>) -> Seq<u64> {
    keys.map_values(|k: PaperStateKey| key_digest(k.key_view()))
}

struct StateTable {
    buckets: HashMap<u64, Vec<u32>>,
}

impl StateTable {
    /// Every retained node is filed under the digest of its state.
    spec fn placed(&self, digests: Seq<u64>) -> bool {
        placed_in(self.buckets@, digests)
    }

    fn new() -> (r: Self)
        ensures
            r.placed(Seq::empty()),
    {
        StateTable { buckets: HashMap::new() }
    }

    /// Whether a state with this key and digest was retained.
    fn contains(&self, keys: &Vec<PaperStateKey>, key: &PaperStateKey, digest: u64) -> (r: bool)
        requires
            self.placed(key_digests(keys@)),
            keys@.len() <= 250_000,
            digest == key_digest(key.key_view()),
        ensures
            r <==> exists|i: int| 0 <= i < keys@.len() && #[trigger] keys@[i].key_view() == key.key_view(),
    {
        broadcast use vstd::std_specs::hash::group_hash_axioms;

        let ghost ds = key_digests(keys@);
        match self.buckets.get(&digest) {
            None => {
                proof {
                    if exists|n: int| 0 <= n < keys@.len() && #[trigger] keys@[n].key_view() == key.key_view() {
                        let n = choose|n: int| 0 <= n < keys@.len() && #[trigger] keys@[n].key_view() == key.key_view();
                        assert(ds[n] == digest);
                    }
                }
                false
            },
            Some(bucket) => {
                let mut j: usize = 0;
                while j < bucket.len()
                    invariant
                        self.placed(ds),
                        ds == key_digests(keys@),
                        digest == key_digest(key.key_view()),
                        self.buckets@.contains_key(digest),
                        bucket@ == self.buckets@[digest]@,
                        j <= bucket@.len(),
                        forall|q: int| 0 <= q < j ==> keys@[#[trigger] bucket@[q] as int].key_view() != key.key_view(),
                    decreases bucket@.len() - j,
                {
                    let node = bucket[j];
                    proof {
                        assert((self.buckets@[digest]@[j as int] as int) < ds.len());
                    }
                    if keys[node as usize].same(key) {
                        return true;
                    }
                    j = j + 1;
                }
                proof {
                    if exists|n: int| 0 <= n < keys@.len() && #[trigger] keys@[n].key_view() == key.key_view() {
                        let n = choose|n: int| 0 <= n < keys@.len() && #[trigger] keys@[n].key_view() == key.key_view();
                        assert(ds[n] == digest);
                        assert(bucket@.contains(n as u32));
                        let q = choose|q: int| 0 <= q < bucket@.len() && bucket@[q] == n as u32;
                        assert(keys@[bucket@[q] as int].key_view() != key.key_view());
                    }
                }
                false
            },
        }
    }

    /// Records a node under a digest.
    fn insert(&mut self, digest: u64, node: u32, digests: Ghost<Seq<u64>>)
        requires
            old(self).placed(digests@),
            node as int == digests@.len(),
        ensures
            final(self).placed(digests@.push(digest)),
    {
        broadcast use vstd::std_specs::hash::group_hash_axioms;

        let ghost m0 = self.buckets@;
        let mut bucket = match self.buckets.remove(&digest) {
            Some(bucket) => bucket,
            None => Vec::new(),
        };
        let ghost old_bucket = bucket@;
        proof {
            assert(m0.contains_key(digest) ==> old_bucket == m0[digest]@);
            assert(!m0.contains_key(digest) ==> old_bucket == Seq::<u32>::empty());
        }
        bucket.push(node);
        self.buckets.insert(digest, bucket);
        proof {
            let ds = digests@.push(digest);
            let m = self.buckets@;
            assert(m == m0.remove(digest).insert(digest, bucket));
            assert(m[digest]@ == old_bucket.push(node));
            assert forall|n: int| 0 <= n < ds.len() implies m.contains_key(#[trigger] ds[n]) && m[ds[n]]@.contains(
                n as u32,
            ) by {
                if n < digests@.len() {
                    assert(ds[n] == digests@[n]);
                    if ds[n] == digest {
                        let q = choose|q: int| 0 <= q < m0[digest]@.len() && m0[digest]@[q] == n as u32;
                        assert(m[digest]@[q] == n as u32);
                    } else {
                        assert(m[ds[n]] == m0[ds[n]]);
                    }
                } else {
                    assert(m[digest]@[old_bucket.len() as int] == node);
                }
            }
            assert forall|d: u64, i: int| m.contains_key(d) && 0 <= i < m[d]@.len() implies (#[trigger] m[d]@[i] as int)
                < ds.len() && ds[m[d]@[i] as int] == d by {
                if d == digest {
                    if i < old_bucket.len() {
                        assert(m[d]@[i] == m0[d]@[i]);
                    }
                } else {
                    assert(m[d] == m0[d]);
                }
            }
        }
    }
}

fn ink_within(ink: InkPattern, target: InkPattern) -> (r: bool)
    ensures
        r == ink.cells().subset_of(target.cells()),
{
    let ids = ink.cell_ids();
    let mut i: usize = 0;
    while i < ids.len()
        invariant
            i <= ids@.len(),
            forall|j: int| 0 <= j < ids@.len() ==> ink.cells().contains(#[trigger] ids@[j].value() as int),
            forall|x: int| #[trigger] ink.cells().contains(x) ==> exists|j: int| 0 <= j < ids@.len() && ids@[j].value() as int == x,
            forall|j: int| 0 <= j < i ==> target.cells().contains(#[trigger] ids@[j].value() as int),
        decreases ids@.len() - i,
    {
        if !target.contains(ids[i]) {
            proof {
                assert(ink.cells().contains(ids@[i as int].value() as int));
            }
            return false;
        }
        i = i + 1;
    }
    proof {
        assert forall|x: int| ink.cells().contains(x) implies target.cells().contains(x) by {
            let j = choose|j: int| 0 <= j < ids@.len() && ids@[j].value() as int == x;
            assert(target.cells().contains(ids@[j].value() as int));
        }
    }
    true
}

// ---------------------------------------------------------------------------
// The search
// ---------------------------------------------------------------------------

struct Search<'a, C: Cancellation + ?Sized> {
    puzzle: &'a Puzzle,
    limits: SolverLimits,
    cancellation: &'a C,
    catalog: Vec<PaperAction>,
    table: StateTable,
    keys: Vec<PaperStateKey>,
    nodes: Vec<SearchNode>,
    frontier: Frontier,
    work_attempt: Attempt,
    stats: SolveStats,
    memory_per_state: usize,
    depth_was_limited: bool,
}

/// Whether one more state may be kept: refused by the visited-state limit when
/// as many states are kept as it allows, else by the memory limit when the
/// retained memory with one more state's charge would exceed it; otherwise the
/// retained memory with that state.
pub fn state_admission(visited: usize, retained: usize, charge: usize, limits: SolverLimits) -> (r: Result<
    usize,
    ExhaustionReason,
>)
    ensures
        visited >= limits.view().0 ==> r == Err::<usize, ExhaustionReason>(ExhaustionReason::VisitedStates),
        visited < limits.view().0 && retained + charge > limits.view().1 ==> r == Err::<usize, ExhaustionReason>(
            ExhaustionReason::Memory,
        ),
        visited < limits.view().0 && retained + charge <= limits.view().1 ==> r == Ok::<usize, ExhaustionReason>(
            (retained + charge) as usize,
        ),
{
    if visited >= limits.visited_states {
        return Err(ExhaustionReason::VisitedStates);
    }
    let next_memory = match retained.checked_add(charge) {
        Some(bytes) => bytes,
        None => return Err(ExhaustionReason::Memory),
    };
    if next_memory > limits.memory_bytes {
        return Err(ExhaustionReason::Memory);
    }
    Ok(next_memory)
}

impl<'a, C: Cancellation + ?Sized> Search<'a, C> {
    spec fn inv(&self) -> bool {
        let p = self.puzzle.view();
        let n = self.nodes@.len();
        &&& self.puzzle.wf()
        &&& self.work_attempt.wf()
        &&& self.work_attempt.puzzle_view() == p
        &&& limits_error(self.limits) is None
        &&& self.keys@.len() == n
        &&& n <= self.limits.view().0
        &&& search_ok(p, self.nodes@)
        &&& forall|k: int| 0 <= k < n ==> #[trigger] path_ordered(self.nodes@, k)
        &&& forall|k: int| 0 <= k < n ==> (#[trigger] self.nodes@[k]).depth <= self.limits.view().2
        &&& keys_name_nodes(p, self.keys@, self.nodes@)
        &&& keys_distinct(p, self.keys@)
        &&& self.catalog@ == catalog(p)
        &&& forall|b: int, i: int|
            0 <= b < SCORE_BUCKETS && 0 <= i < self.frontier.buckets@[b]@.len() ==> bucket_of(
                self.nodes@[#[trigger] self.frontier.buckets@[b]@[i] as int].score,
            ) == b
        &&& self.table.placed(key_digests(self.keys@))
        &&& self.frontier.wf(n as int)
        &&& self.catalog@.len() <= 44 + 144 * 23
        &&& self.stats.expanded_states + self.frontier.pending <= n
        &&& self.stats.checked_actions <= self.stats.expanded_states * 3356
        &&& self.stats.visited_states == n
        &&& self.stats.retained_memory_bytes <= self.limits.view().1
        &&& self.stats.maximum_frontier <= n
    }

    fn new(
        puzzle: &'a Puzzle,
        limits: SolverLimits,
        cancellation: &'a C,
        catalog: Vec<PaperAction>,
        base_memory: usize,
    ) -> (r: Self)
        requires
            puzzle.wf(),
            limits_error(limits) is None,
            catalog@.len() <= 44 + 144 * 23,
            catalog@ == self::catalog(puzzle.view()),
            base_memory <= limits.view().1,
        ensures
            r.inv(),
            r.nodes@.len() == 0,
            r.puzzle == puzzle,
            r.limits == limits,
            r.cancellation == cancellation,
            !r.depth_was_limited,
            r.work_attempt.paper_model() == fresh_paper(puzzle.view()),
    {
        let memory_per_state = match state_memory_charge(puzzle) {
            Some(bytes) => bytes,
            None => usize::MAX,
        };
        let table = StateTable::new();
        let r = Search {
            puzzle,
            limits,
            cancellation,
            catalog,
            table,
            keys: Vec::new(),
            nodes: Vec::new(),
            frontier: Frontier::new(),
            work_attempt: puzzle.start(),
            stats: SolveStats {
                visited_states: 0,
                expanded_states: 0,
                checked_actions: 0,
                retained_memory_bytes: base_memory,
                maximum_frontier: 0,
                deepest_state: 0,
            },
            memory_per_state,
            depth_was_limited: false,
        };
        proof {
            assert(search_ok(puzzle.view(), r.nodes@));
        }
        r
    }

    fn exhausted(&self, reason: ExhaustionReason) -> (r: SolveOutcome)
        ensures
            r == (SolveOutcome::Exhausted { reason, stats: self.stats }),
    {
        SolveOutcome::Exhausted { reason, stats: self.stats }
    }

    /// The most actions the puzzle's budgets allow.
    fn maximum_puzzle_depth(&self) -> (r: u8)
        requires
            self.puzzle.wf(),
        ensures
            r as int == self.puzzle.view().fold_budget.value() + self.puzzle.view().stroke_budget.value(),
            r <= 20,
    {
        self.puzzle.fold_budget().get() + self.puzzle.stroke_budget().get()
    }

    /// Retains a newly reached state, unless a limit refuses it.
    fn retain_state(&mut self, key: PaperStateKey, node: SearchNode) -> (r: Result<(), ExhaustionReason>)
        requires
            old(self).inv(),
            node_reached(old(self).puzzle.view(), old(self).nodes@.push(node), old(self).nodes@.len() as int),
            path_ordered(old(self).nodes@.push(node), old(self).nodes@.len() as int),
            key.key_view().0 == old(self).puzzle.view().dims,
            key.key_view().2.dims() == old(self).puzzle.view().dims,
            forall|i: int| 0 <= i < old(self).keys@.len() ==> #[trigger] old(self).keys@[i].key_view() != key.key_view(),
            node.depth <= old(self).limits.view().2,
            key_names(key.key_view(), node_state(old(self).puzzle.view(), old(self).nodes@.push(node), old(self).nodes@.len() as int)),
        ensures
            final(self).inv(),
            old(self).nodes@.len() >= old(self).limits.view().0 <==> r == Err::<(), ExhaustionReason>(
                ExhaustionReason::VisitedStates,
            ),
            old(self).nodes@.len() < old(self).limits.view().0 && old(self).stats.retained_memory_bytes
                + old(self).memory_per_state > old(self).limits.view().1 ==> r == Err::<(), ExhaustionReason>(
                ExhaustionReason::Memory,
            ),
            r matches Err(reason) ==> reason == ExhaustionReason::VisitedStates || reason == ExhaustionReason::Memory,
            r is Ok ==> final(self).nodes@ == old(self).nodes@.push(node),
            r is Ok ==> final(self).keys@ == old(self).keys@.push(key),
            r is Ok ==> final(self).stats.retained_memory_bytes == old(self).stats.retained_memory_bytes
                + old(self).memory_per_state,
            r is Ok ==> final(self).frontier.pending == old(self).frontier.pending + 1,
            r is Ok ==> final(self).frontier.waiting(old(self).nodes@.len() as int),
            r is Ok ==> forall|x: int| old(self).frontier.waiting(x) ==> #[trigger] final(self).frontier.waiting(x),
            r is Err ==> final(self).nodes@ == old(self).nodes@,
            r is Err ==> final(self).frontier.pending == old(self).frontier.pending,
            final(self).puzzle == old(self).puzzle,
            final(self).limits == old(self).limits,
            final(self).cancellation == old(self).cancellation,
            final(self).catalog == old(self).catalog,
            final(self).work_attempt == old(self).work_attempt,
            final(self).depth_was_limited == old(self).depth_was_limited,
            final(self).stats.expanded_states == old(self).stats.expanded_states,
            final(self).stats.checked_actions == old(self).stats.checked_actions,
    {
        let ghost p = self.puzzle.view();
        let next_memory = state_admission(
            self.nodes.len(),
            self.stats.retained_memory_bytes,
            self.memory_per_state,
            self.limits,
        )?;
        if self.keys.try_reserve(1).is_err() {
            return Err(ExhaustionReason::Memory);
        }
        if self.nodes.try_reserve(1).is_err() {
            return Err(ExhaustionReason::Memory);
        }
        let ghost nodes0 = self.nodes@;
        let node_index = self.nodes.len() as u32;
        let digest = key.digest();
        let ghost keys0 = self.keys@;
        self.table.insert(digest, node_index, Ghost(key_digests(keys0)));
        self.keys.push(key);
        assert(key_digests(self.keys@) =~= key_digests(keys0).push(digest));
        self.nodes.push(node);
        self.frontier.push(node.score, node_index, Ghost(nodes0.len() as int));
        self.stats.visited_states = self.nodes.len();
        self.stats.retained_memory_bytes = next_memory;
        if self.frontier.pending > self.stats.maximum_frontier {
            self.stats.maximum_frontier = self.frontier.pending;
        }
        if node.depth > self.stats.deepest_state {
            self.stats.deepest_state = node.depth;
        }
        proof {
            lemma_search_push(p, nodes0, node);
            assert forall|k: int| 0 <= k < self.nodes@.len() implies #[trigger] path_ordered(self.nodes@, k) by {
                if k < nodes0.len() {
                    lemma_path_stable(nodes0, node, k);
                    assert(path_ordered(nodes0, k));
                }
            }
            assert forall|k: int| 0 <= k < self.nodes@.len() implies key_names(
                #[trigger] self.keys@[k].key_view(),
                node_state(p, self.nodes@, k),
            ) by {
                if k < nodes0.len() {
                    lemma_path_stable(nodes0, node, k);
                    assert(self.keys@[k] == keys0[k]);
                }
            }
        }
        Ok(())
    }

    /// Replays the recorded path of a node into the work attempt.
    fn restore(&mut self, node_index: u32)
        requires
            old(self).inv(),
            (node_index as int) < old(self).nodes@.len(),
        ensures
            final(self).inv(),
            final(self).work_attempt.paper_model() == run(
                old(self).puzzle.view(),
                path(old(self).nodes@, node_index as int),
                path(old(self).nodes@, node_index as int).len() as int,
            )->Ok_0,
            final(self).nodes == old(self).nodes,
            final(self).keys == old(self).keys,
            final(self).puzzle == old(self).puzzle,
            final(self).limits == old(self).limits,
            final(self).cancellation == old(self).cancellation,
            final(self).catalog == old(self).catalog,
            final(self).frontier == old(self).frontier,
            final(self).table == old(self).table,
            final(self).stats == old(self).stats,
            final(self).memory_per_state == old(self).memory_per_state,
            final(self).depth_was_limited == old(self).depth_was_limited,
    {
        let ghost p = self.puzzle.view();
        let ghost nodes = self.nodes@;
        let ghost target = path(nodes, node_index as int);
        proof {
            assert(node_reached(p, nodes, node_index as int));
        }
        let mut newest_first: Vec<PaperAction> = Vec::new();
        let mut cursor: u32 = node_index;
        while cursor != NO_NODE
            invariant
                nodes == self.nodes@,
                search_ok(p, nodes),
                cursor == NO_NODE || (cursor as int) < nodes.len(),
                target == path(nodes, node_index as int),
                target.len() <= 20,
                cursor != NO_NODE ==> target == path(nodes, cursor as int) + newest_first@.reverse(),
                cursor == NO_NODE ==> target == newest_first@.reverse(),
            decreases if cursor == NO_NODE {
                0int
            } else {
                cursor + 1
            },
        {
            let node = self.nodes[cursor as usize];
            proof {
                assert(node_reached(p, nodes, cursor as int));
            }
            let ghost before = newest_first@;
            match node.action {
                Some(action) => {
                    newest_first.push(action);
                    proof {
                        assert(newest_first@.reverse() =~= seq![action] + before.reverse());
                        assert(path(nodes, cursor as int) == path(nodes, node.parent as int).push(action));
                        if node.parent != NO_NODE {
                            assert(path(nodes, node.parent as int) + newest_first@.reverse() =~= path(nodes, node.parent as int).push(action) + before.reverse());
                        } else {
                            assert(path(nodes, node.parent as int) =~= Seq::<PaperAction>::empty());
                        }
                    }
                },
                None => {
                    proof {
                        assert(path(nodes, cursor as int) =~= Seq::<PaperAction>::empty());
                        assert(target =~= newest_first@.reverse());
                    }
                },
            }
            cursor = node.parent;
        }
        let ghost start = *self;
        self.work_attempt.reset();
        proof {
            let a = self.work_attempt;
            a.lemma_wf();
            assert(self.work_attempt.paper_model() == fresh_paper(p));
            lemma_run_prefix_ok(p, target, target.len() as int, 0);
        }
        let mut k: usize = newest_first.len();
        while k > 0
            invariant
                nodes == self.nodes@,
                search_ok(p, nodes),
                target == newest_first@.reverse(),
                target.len() <= 20,
                run(p, target, target.len() as int) is Ok,
                k <= newest_first@.len(),
                self.work_attempt.wf(),
                self.work_attempt.puzzle_view() == p,
                self.work_attempt.paper_model() == run(p, target, (newest_first@.len() - k) as int)->Ok_0,
                self.puzzle.view() == p,
                self.puzzle.wf(),
                start.inv(),
                start.puzzle.view() == p,
                self.nodes == start.nodes,
                self.keys == start.keys,
                self.puzzle == start.puzzle,
                self.limits == start.limits,
                self.cancellation == start.cancellation,
                self.catalog == start.catalog,
                self.frontier == start.frontier,
                self.table == start.table,
                self.stats == start.stats,
                self.memory_per_state == start.memory_per_state,
                self.depth_was_limited == start.depth_was_limited,
            decreases k,
        {
            k = k - 1;
            let action = newest_first[k];
            let ghost done = (newest_first@.len() - k - 1) as int;
            proof {
                lemma_run_prefix_ok(p, target, target.len() as int, done + 1);
                assert(target[done] == action);
            }
            match self.work_attempt.apply(action) {
                Ok(()) => {},
                Err(_) => vstd::pervasive::unreached(),
            }
        }
    }

    /// The solution recorded by the work attempt, checked by replaying it.
    fn verified_solution(&self, node_index: u32, score: Score) -> (r: Solution)
        requires
            self.inv(),
            (node_index as int) < self.nodes@.len(),
            self.work_attempt.paper_model() == run(
                self.puzzle.view(),
                path(self.nodes@, node_index as int),
                path(self.nodes@, node_index as int).len() as int,
            )->Ok_0,
            self.work_attempt.solved(),
            score.fold_part().value() as int == self.work_attempt.paper_model().state.folds,
            score.stroke_part().value() as int == self.work_attempt.paper_model().state.strokes,
        ensures
            solves(self.puzzle.view(), r.replay_view(), r.score_view()),
            r.replay_view().actions_view().len() <= self.limits.view().2,
            lines_in_order(r.replay_view().actions_view(), r.replay_view().actions_view().len() as int),
            r.stats_view() == self.stats,
            r.score_view() == score,
    {
        let ghost p = self.puzzle.view();
        let ghost target = path(self.nodes@, node_index as int);
        proof {
            assert(node_reached(p, self.nodes@, node_index as int));
        }
        let replay = Replay::from_attempt(&self.work_attempt);
        proof {
            let m = self.work_attempt.paper_model();
            lemma_run_history(p, target, target.len() as int);
            let actions = replay.actions_view();
            assert(actions.len() == target.len());
            assert forall|i: int| 0 <= i < target.len() implies actions[i] == target[i] by {
                assert(m.history[i].1 == target[i]);
            }
            lemma_run_ext(p, actions, target, target.len() as int);
            assert(path_ordered(self.nodes@, node_index as int));
            assert forall|i: int| 0 <= i < actions.len() implies (#[trigger] actions[i] matches PaperAction::Line(l)
                ==> coordinate_le(l.start_value(), l.end_value())) by {
                assert(actions[i] == target[i]);
            }
        }
        let verified = replay.execute(self.puzzle);
        match verified {
            Ok(_) => {},
            Err(_) => vstd::pervasive::unreached(),
        }
        Solution { replay, score, stats: self.stats }
    }

    fn run(&mut self) -> (r: SolveOutcome)
        requires
            old(self).inv(),
            old(self).nodes@.len() == 0,
            old(self).work_attempt.paper_model() == fresh_paper(old(self).puzzle.view()),
            !old(self).depth_was_limited,
        ensures
            r matches SolveOutcome::Solved(s) ==> solves(old(self).puzzle.view(), s.replay_view(), s.score_view())
                && s.replay_view().actions_view().len() <= old(self).limits.view().2 && lines_in_order(
                s.replay_view().actions_view(),
                s.replay_view().actions_view().len() as int,
            ) && 1 <= s.stats_view().view().0
                <= old(self).limits.view().0,
            r !is Invalid,
            r is Unsolved ==> forall|actions: Seq<PaperAction>| !#[trigger] productive_solution(
                old(self).puzzle.view(),
                actions,
            ),
            r is Unsolved ==> forall|actions: Seq<PaperAction>|
                lines_in_order(actions, actions.len() as int) ==> !#[trigger] solution_from_start(
                    old(self).puzzle.view(),
                    actions,
                ),
            r matches SolveOutcome::Exhausted { reason: ExhaustionReason::Depth, .. } ==> old(self).limits.view().2
                < old(self).puzzle.view().fold_budget.value() + old(self).puzzle.view().stroke_budget.value(),
            r matches SolveOutcome::Exhausted { reason: ExhaustionReason::VisitedStates, stats } ==> stats.view().0
                == old(self).limits.view().0,
            r matches SolveOutcome::Exhausted { reason: ExhaustionReason::VisitedStates, .. } ==> reaches_states(
                old(self).puzzle.view(),
                old(self).limits.view().2 as int,
                old(self).limits.view().0 as int,
            ),
            r matches SolveOutcome::Exhausted { reason: ExhaustionReason::Memory, stats } ==> stats.view().0
                < old(self).limits.view().0,
            r matches SolveOutcome::Exhausted { stats, .. } ==> stats.view().0 <= old(self).limits.view().0
                && stats.view().3 <= old(self).limits.view().1,
            r matches SolveOutcome::Cancelled(stats) ==> stats.view().0 <= old(self).limits.view().0
                && stats.view().3 <= old(self).limits.view().1,
            old(self).cancellation.never_cancels() ==> !(r is Cancelled),
            r matches SolveOutcome::Solved(s) ==> s.stats_view().view().3 <= old(self).limits.view().1,
            r matches SolveOutcome::Solved(s) ==> forall|actions: Seq<PaperAction>|
                lines_in_order(actions, actions.len() as int) && actions.len() <= old(self).limits.view().2
                    && #[trigger] solution_from_start(old(self).puzzle.view(), actions) ==> score_le(
                    s.score_view().fold_part().value() as int,
                    s.score_view().stroke_part().value() as int,
                    run(old(self).puzzle.view(), actions, actions.len() as int)->Ok_0.state.folds,
                    run(old(self).puzzle.view(), actions, actions.len() as int)->Ok_0.state.strokes,
                ),
    {
        let ghost p = self.puzzle.view();
        let ghost maxd: (int, int) = (p.fold_budget.value() + p.stroke_budget.value(), self.limits.view().2 as int);
        let root_key = self.work_attempt.state_key();
        let root_score = self.work_attempt.result().score();
        let root = SearchNode { parent: NO_NODE, action: None, depth: 0, score: root_score };
        proof {
            let nodes1 = self.nodes@.push(root);
            assert(path(nodes1, 0) =~= Seq::<PaperAction>::empty());
            assert(path_ordered(nodes1, 0));
            assert(run(p, path(nodes1, 0), 0) == Ok::<crate::domain::paper::state::PaperModel, (int, crate::domain::attempt::ActionError)>(fresh_paper(p)));
            self.work_attempt.lemma_wf();
            assert(node_state(p, nodes1, 0) == self.work_attempt.paper_model());
        }
        match self.retain_state(root_key, root) {
            Ok(()) => {},
            Err(reason) => {
                proof {
                    if reason == ExhaustionReason::VisitedStates {
                        lemma_kept_states(p, self.nodes@, self.keys@, self.limits.view().2 as int);
                    }
                }
                return self.exhausted(reason);
            },
        }
        proof {
            assert(path(self.nodes@, 0) =~= Seq::<PaperAction>::empty());
            assert(self.frontier.waiting(0));
            assert forall|k: int| 0 <= k < self.nodes@.len() implies #[trigger] settled(
                self.frontier,
                p,
                self.nodes@,
                self.keys@,
                self.depth_was_limited,
                maxd,
                k,
            ) by {
                assert(k == 0);
            }
        }
        loop
            invariant
                self.inv(),
                self.puzzle.view() == p,
                p == old(self).puzzle.view(),
                self.limits == old(self).limits,
                self.cancellation == old(self).cancellation,
                self.nodes@.len() >= 1,
                maxd == (p.fold_budget.value() + p.stroke_budget.value(), self.limits.view().2 as int),
                self.depth_was_limited ==> self.limits.view().2 < maxd.0,
                path(self.nodes@, 0).len() == 0,
                forall|k: int|
                    0 <= k < self.nodes@.len() ==> #[trigger] settled(
                        self.frontier,
                        p,
                        self.nodes@,
                        self.keys@,
                        self.depth_was_limited,
                        maxd,
                        k,
                    ),
            ensures
                forall|k: int|
                    0 <= k < self.nodes@.len() ==> #[trigger] closed(
                        p,
                        self.nodes@,
                        self.keys@,
                        self.depth_was_limited,
                        maxd,
                        k,
                    ),
            decreases 2 * (self.limits.view().0 - self.nodes@.len()) + self.frontier.pending,
        {
            let ghost f0 = self.frontier;
            let node_index = match self.frontier.pop(Ghost(self.nodes@.len() as int)) {
                Some(node_index) => node_index,
                None => {
                    proof {
                        assert forall|k: int| 0 <= k < self.nodes@.len() implies #[trigger] closed(
                            p,
                            self.nodes@,
                            self.keys@,
                            self.depth_was_limited,
                            maxd,
                            k,
                        ) by {
                            assert(settled(f0, p, self.nodes@, self.keys@, self.depth_was_limited, maxd, k));
                        }
                    }
                    break;
                },
            };
            proof {
                assert forall|k: int| 0 <= k < self.nodes@.len() && k != node_index implies #[trigger] settled(
                    self.frontier,
                    p,
                    self.nodes@,
                    self.keys@,
                    self.depth_was_limited,
                    maxd,
                    k,
                ) by {
                    assert(settled(f0, p, self.nodes@, self.keys@, self.depth_was_limited, maxd, k));
                    assert(Some(node_index) != Some(k as u32));
                }
            }
            let ghost measure = 2 * (self.limits.view().0 - self.nodes@.len()) + self.frontier.pending;
            if self.cancellation.is_cancelled() {
                return SolveOutcome::Cancelled(self.stats);
            }
            self.restore(node_index);
            let ghost node_path = path(self.nodes@, node_index as int);
            let result = self.work_attempt.result();
            if result.is_success() {
                proof {
                    let nodes = self.nodes@;
                    assert(node_reached(p, nodes, node_index as int));
                    self.work_attempt.lemma_wf();
                    assert(fresh_paper(p).limits_wf());
                    assert forall|actions: Seq<PaperAction>|
                        lines_in_order(actions, actions.len() as int) && actions.len() <= self.limits.view().2
                            && #[trigger] solution_from_start(p, actions) implies score_le(
                        result.score_value().fold_part().value() as int,
                        result.score_value().stroke_part().value() as int,
                        run(p, actions, actions.len() as int)->Ok_0.state.folds,
                        run(p, actions, actions.len() as int)->Ok_0.state.strokes,
                    ) by {
                        lemma_first_is_best(
                            p,
                            nodes,
                            self.keys@,
                            f0,
                            self.depth_was_limited,
                            maxd,
                            node_index as int,
                            actions,
                        );
                    }
                }
                return SolveOutcome::Solved(self.verified_solution(node_index, result.score()));
            }
            let node = self.nodes[node_index as usize];
            let ghost m0 = node_state(p, self.nodes@, node_index as int);
            proof {
                assert(node_reached(p, self.nodes@, node_index as int));
                assert(m0 == self.work_attempt.paper_model());
                assert(m0.state.ink != p.target.cells());
            }
            let maximum = self.maximum_puzzle_depth();
            if node.depth >= self.limits.depth || node.depth >= maximum {
                let ghost limited0 = self.depth_was_limited;
                if node.depth < maximum {
                    self.depth_was_limited = true;
                }
                proof {
                    assert forall|k: int| 0 <= k < self.nodes@.len() implies #[trigger] settled(
                        self.frontier,
                        p,
                        self.nodes@,
                        self.keys@,
                        self.depth_was_limited,
                        maxd,
                        k,
                    ) by {
                        if k == node_index {
                            assert(closed(p, self.nodes@, self.keys@, self.depth_was_limited, maxd, k));
                        } else if !self.frontier.waiting(k) {
                            assert(settled(self.frontier, p, self.nodes@, self.keys@, limited0, maxd, k));
                            lemma_closed_stable(
                                p,
                                self.nodes@,
                                self.keys@,
                                node,
                                self.keys@[0],
                                limited0,
                                maxd,
                                k,
                            );
                        }
                    }
                }
                continue;
            }
            self.stats.expanded_states = self.stats.expanded_states + 1;
            let mut i: usize = 0;
            while i < self.catalog.len()
                invariant
                    self.inv(),
                    self.puzzle.view() == p,
                    (node_index as int) < self.nodes@.len(),
                    node_path == path(self.nodes@, node_index as int),
                    node.depth as int == node_path.len(),
                    node.depth < maximum,
                    node.depth < self.limits.view().2,
                    self.limits == old(self).limits,
                    self.cancellation == old(self).cancellation,
                    maximum <= 20,
                    run(p, node_path, node_path.len() as int) is Ok,
                    self.work_attempt.paper_model() == run(p, node_path, node_path.len() as int)->Ok_0,
                    i <= self.catalog@.len(),
                    self.stats.checked_actions + self.catalog@.len() - i <= self.stats.expanded_states * 3356,
                    p == old(self).puzzle.view(),
                    2 * (self.limits.view().0 - self.nodes@.len()) + self.frontier.pending <= measure,
                    maxd == (p.fold_budget.value() + p.stroke_budget.value(), self.limits.view().2 as int),
                    self.depth_was_limited ==> self.limits.view().2 < maxd.0,
                    path(self.nodes@, 0).len() == 0,
                    m0 == node_state(p, self.nodes@, node_index as int),
                    m0 == run(p, node_path, node_path.len() as int)->Ok_0,
                    m0.state.ink != p.target.cells(),
                    self.nodes@[node_index as int] == node,
                    forall|k: int|
                        0 <= k < self.nodes@.len() && k != node_index ==> #[trigger] settled(
                            self.frontier,
                            p,
                            self.nodes@,
                            self.keys@,
                            self.depth_was_limited,
                            maxd,
                            k,
                        ),
                    forall|c: int|
                        0 <= c < i && #[trigger] followed(p, m0, self.catalog@[c]) ==> key_retained(
                            self.keys@,
                            attempt_step(p, m0, self.catalog@[c])->Ok_0,
                        ),
                decreases self.catalog@.len() - i,
            {
                if self.cancellation.is_cancelled() {
                    return SolveOutcome::Cancelled(self.stats);
                }
                let action = self.catalog[i];
                let ink_before = self.work_attempt.ink();
                self.stats.checked_actions = self.stats.checked_actions + 1;
                let ghost before = self.work_attempt.paper_model();
                let ghost keys0 = self.keys@;
                let ghost nodes0 = self.nodes@;
                let ghost frontier0 = self.frontier;
                proof {
                    self.work_attempt.lemma_wf();
                }
                match self.work_attempt.apply(action) {
                    Ok(()) => {},
                    Err(_) => {
                        proof {
                            assert(!followed(p, m0, self.catalog@[i as int]));
                        }
                        i = i + 1;
                        continue;
                    },
                }
                let ghost m1 = self.work_attempt.paper_model();
                proof {
                    crate::domain::paper::state::lemma_undo_after_apply(before, action);
                    self.work_attempt.lemma_wf();
                    assert(attempt_step(p, m0, action) == Ok::<PaperModel, crate::domain::attempt::ActionError>(m1));
                }
                let ink_after = self.work_attempt.ink();
                let is_fold = match action {
                    PaperAction::Fold(_) => true,
                    _ => false,
                };
                let brush_changed_ink = is_fold || !ink_after.same(ink_before);
                let ink_stays_within_target = ink_within(ink_after, self.puzzle.target());
                proof {
                    if !brush_changed_ink {
                        assert(ink_after == ink_before);
                        assert(!followed(p, m0, action));
                    }
                    if !ink_stays_within_target {
                        assert(!followed(p, m0, action));
                    }
                }
                if brush_changed_ink && ink_stays_within_target {
                    let child_depth = node.depth + 1;
                    let child_score = Score::new(self.work_attempt.fold_count(), self.work_attempt.stroke_count());
                    let child_key = self.work_attempt.state_key();
                    let digest = child_key.digest();
                    if !self.table.contains(&self.keys, &child_key, digest) {
                        let child = SearchNode {
                            parent: node_index,
                            action: Some(action),
                            depth: child_depth,
                            score: child_score,
                        };
                        proof {
                            let nodes1 = self.nodes@.push(child);
                            let n1 = self.nodes@.len() as int;
                            lemma_path_stable(self.nodes@, child, node_index as int);
                            assert(path(nodes1, n1) == node_path.push(action));
                            let child_path = node_path.push(action);
                            assert(path_ordered(self.nodes@, node_index as int));
                            assert(catalog(p).contains(action)) by {
                                assert(catalog(p)[i as int] == action);
                            }
                            lemma_catalog_lines_in_order(p, action);
                            assert forall|j: int| 0 <= j < child_path.len() implies (#[trigger] child_path[j] matches PaperAction::Line(
                                l,
                            ) ==> coordinate_le(l.start_value(), l.end_value())) by {
                                if j < node_path.len() {
                                    assert(child_path[j] == node_path[j]);
                                }
                            }
                            assert(path_ordered(nodes1, n1));
                            lemma_run_ext(p, child_path, node_path, node_path.len() as int);
                            assert(run(p, child_path, child_path.len() as int) == Ok::<crate::domain::paper::state::PaperModel, (int, crate::domain::attempt::ActionError)>(self.work_attempt.paper_model()));
                            assert(node_state(p, nodes1, n1) == m1);
                        }
                        match self.retain_state(child_key, child) {
                            Ok(()) => {},
                            Err(reason) => {
                                proof {
                                    if reason == ExhaustionReason::VisitedStates {
                                        lemma_kept_states(p, self.nodes@, self.keys@, self.limits.view().2 as int);
                                    }
                                }
                                return self.exhausted(reason);
                            },
                        }
                        proof {
                            lemma_path_stable(nodes0, child, node_index as int);
                            lemma_path_stable(nodes0, child, 0);
                            assert(self.keys@[nodes0.len() as int] == child_key);
                            assert(key_retained(self.keys@, m1));
                            assert forall|k: int| 0 <= k < self.nodes@.len() && k != node_index implies #[trigger] settled(
                                self.frontier,
                                p,
                                self.nodes@,
                                self.keys@,
                                self.depth_was_limited,
                                maxd,
                                k,
                            ) by {
                                if k < nodes0.len() {
                                    assert(settled(frontier0, p, nodes0, keys0, self.depth_was_limited, maxd, k));
                                    if !frontier0.waiting(k) {
                                        lemma_closed_stable(p, nodes0, keys0, child, child_key, self.depth_was_limited, maxd, k);
                                    }
                                }
                            }
                            assert forall|c: int|
                                0 <= c < i && #[trigger] followed(p, m0, self.catalog@[c]) implies key_retained(
                                self.keys@,
                                attempt_step(p, m0, self.catalog@[c])->Ok_0,
                            ) by {
                                let mc = attempt_step(p, m0, self.catalog@[c])->Ok_0;
                                let j = choose|j: int| 0 <= j < keys0.len() && key_names(#[trigger] keys0[j].key_view(), mc);
                                assert(self.keys@[j] == keys0[j]);
                            }
                        }
                    } else {
                        proof {
                            let j = choose|j: int| 0 <= j < self.keys@.len() && #[trigger] self.keys@[j].key_view() == child_key.key_view();
                            assert(key_names(self.keys@[j].key_view(), m1));
                        }
                    }
                }
                match self.work_attempt.undo() {
                    Ok(()) => {},
                    Err(_) => vstd::pervasive::unreached(),
                }
                i = i + 1;
            }
            proof {
                assert forall|a: PaperAction| #[trigger] followed(p, m0, a) implies key_retained(
                    self.keys@,
                    attempt_step(p, m0, a)->Ok_0,
                ) by {
                    let c = choose|c: int| 0 <= c < self.catalog@.len() && self.catalog@[c] == a;
                    assert(followed(p, m0, self.catalog@[c]));
                }
                assert(closed(p, self.nodes@, self.keys@, self.depth_was_limited, maxd, node_index as int));
                assert forall|k: int| 0 <= k < self.nodes@.len() implies #[trigger] settled(
                    self.frontier,
                    p,
                    self.nodes@,
                    self.keys@,
                    self.depth_was_limited,
                    maxd,
                    k,
                ) by {
                    if k == node_index {
                        assert(closed(p, self.nodes@, self.keys@, self.depth_was_limited, maxd, k));
                    }
                }
            }
        }
        if self.depth_was_limited {
            self.exhausted(ExhaustionReason::Depth)
        } else {
            proof {
                self.work_attempt.lemma_wf();
                assert(fresh_paper(p).limits_wf());
                assert forall|actions: Seq<PaperAction>| !#[trigger] productive_solution(p, actions) by {
                    lemma_closed_unsolved(p, self.nodes@, self.keys@, maxd, actions);
                }
                assert forall|actions: Seq<PaperAction>|
                    lines_in_order(actions, actions.len() as int) implies !#[trigger] solution_from_start(p, actions) by {
                    lemma_closed_no_solution(p, self.nodes@, self.keys@, maxd, actions);
                }
            }
            SolveOutcome::Unsolved(self.stats)
        }
    }
}

/// Bounded deterministic puzzle search.
#[derive(Clone, Copy, Debug, Default, PartialEq, Eq)]
pub struct Solver;

impl Solver {
    /// The conservative retained-memory charge for one search state, or the
    /// largest `usize` when the charge does not fit.
    pub fn conservative_state_memory_bytes(puzzle: &Puzzle) -> (r: usize)
        ensures
            state_charge(puzzle.view().dims) <= usize::MAX ==> r as int == state_charge(puzzle.view().dims),
            state_charge(puzzle.view().dims) > usize::MAX ==> r == usize::MAX,
    {
        match state_memory_charge(puzzle) {
            Some(bytes) => bytes,
            None => usize::MAX,
        }
    }

    /// Searches for a solution of a puzzle within the given limits. A solution
    /// it returns has been replayed against the puzzle and solves it.
    pub fn solve<C: Cancellation + ?Sized>(puzzle: &Puzzle, limits: SolverLimits, cancellation: &C) -> (r:
        SolveOutcome)
        requires
            puzzle.wf(),
        ensures
            limits_error(limits) matches Some(e) ==> r == SolveOutcome::Invalid(e),
            limits_error(limits) is None ==> r !is Invalid,
            r is Unsolved ==> forall|actions: Seq<PaperAction>| !#[trigger] productive_solution(puzzle.view(), actions),
            r is Unsolved ==> forall|actions: Seq<PaperAction>| !#[trigger] solution_from_start(puzzle.view(), actions),
            r matches SolveOutcome::Solved(s) ==> (puzzle.view().fold_budget.value() + puzzle.view().stroke_budget.value()
                <= limits.view().2 ==> forall|actions: Seq<PaperAction>|
                #[trigger] solution_from_start(puzzle.view(), actions) ==> score_le(
                    s.score_view().fold_part().value() as int,
                    s.score_view().stroke_part().value() as int,
                    run(puzzle.view(), actions, actions.len() as int)->Ok_0.state.folds,
                    run(puzzle.view(), actions, actions.len() as int)->Ok_0.state.strokes,
                )),
            r matches SolveOutcome::Exhausted { reason: ExhaustionReason::Depth, .. } ==> limits.view().2
                < puzzle.view().fold_budget.value() + puzzle.view().stroke_budget.value(),
            r matches SolveOutcome::Exhausted { reason: ExhaustionReason::VisitedStates, stats } ==> stats.view().0
                == limits.view().0,
            r matches SolveOutcome::Exhausted { reason: ExhaustionReason::VisitedStates, .. } ==> reaches_states(
                puzzle.view(),
                limits.view().2 as int,
                limits.view().0 as int,
            ),
            r matches SolveOutcome::Exhausted { reason: ExhaustionReason::Memory, stats } ==> stats.view().0
                < limits.view().0,
            r matches SolveOutcome::Exhausted { stats, .. } ==> stats.view().0 <= limits.view().0 && stats.view().3
                <= limits.view().1,
            r matches SolveOutcome::Cancelled(stats) ==> stats.view().0 <= limits.view().0 && stats.view().3
                <= limits.view().1,
            cancellation.never_cancels() ==> !(r is Cancelled),
            r matches SolveOutcome::Solved(s) ==> s.stats_view().view().3 <= limits.view().1,
            r matches SolveOutcome::Solved(s) ==> forall|actions: Seq<PaperAction>|
                lines_in_order(actions, actions.len() as int) && actions.len() <= limits.view().2
                    && #[trigger] solution_from_start(puzzle.view(), actions) ==> score_le(
                    s.score_view().fold_part().value() as int,
                    s.score_view().stroke_part().value() as int,
                    run(puzzle.view(), actions, actions.len() as int)->Ok_0.state.folds,
                    run(puzzle.view(), actions, actions.len() as int)->Ok_0.state.strokes,
                ),
            r matches SolveOutcome::Solved(s) ==> solves(puzzle.view(), s.replay_view(), s.score_view())
                && s.replay_view().actions_view().len() <= limits.view().2 && lines_in_order(
                s.replay_view().actions_view(),
                s.replay_view().actions_view().len() as int,
            ) && 1 <= s.stats_view().view().0
                <= limits.view().0,
    {
        match limits.validate() {
            Ok(()) => {},
            Err(error) => return SolveOutcome::Invalid(error),
        }
        if cancellation.is_cancelled() {
            return SolveOutcome::Cancelled(SolveStats::default());
        }
        let catalog_len = catalog_capacity(puzzle);
        let base_memory = match search_base_memory(puzzle, limits, catalog_len) {
            Some(bytes) => bytes,
            None => return SolveOutcome::Exhausted {
                reason: ExhaustionReason::Memory,
                stats: SolveStats::default(),
            },
        };
        if base_memory > limits.memory_bytes {
            return SolveOutcome::Exhausted { reason: ExhaustionReason::Memory, stats: SolveStats::default() };
        }
        let catalog = match action_catalog(puzzle) {
            Ok(catalog) => catalog,
            Err(CatalogError::Allocation) => {
                return SolveOutcome::Exhausted { reason: ExhaustionReason::Memory, stats: SolveStats::default() };
            },
        };
        let mut search = Search::new(puzzle, limits, cancellation, catalog, base_memory);
        let r = search.run();
        proof {
            let p = puzzle.view();
            if r is Unsolved {
                assert forall|actions: Seq<PaperAction>| !#[trigger] solution_from_start(p, actions) by {
                    lemma_unsolved_for_every_sequence(p, actions);
                }
            }
            if r is Solved {
                let s = r->Solved_0;
                if p.fold_budget.value() + p.stroke_budget.value() <= limits.view().2 {
                    assert forall|actions: Seq<PaperAction>| #[trigger] solution_from_start(p, actions) implies score_le(
                        s.score_view().fold_part().value() as int,
                        s.score_view().stroke_part().value() as int,
                        run(p, actions, actions.len() as int)->Ok_0.state.folds,
                        run(p, actions, actions.len() as int)->Ok_0.state.strokes,
                    ) by {
                        lemma_best_for_every_sequence(
                            *puzzle,
                            limits.view().2 as int,
                            s.score_view().fold_part().value() as int,
                            s.score_view().stroke_part().value() as int,
                            actions,
                        );
                    }
                }
            }
        }
        r
    }
}

} // verus!
