//! Canonical paper state, atomic actions, and complete undo snapshots.

use vstd::prelude::*;
use vstd::set_lib::set_int_range;

use super::ink::{InkComparison, InkPattern};
use super::count::{
    count_where, lemma_count_bounds, lemma_count_disjoint, lemma_count_ext, lemma_count_single,
    lemma_count_witness,
};
use super::{
    coordinate_of, lemma_coordinate_of, lemma_coordinate_of_self, ActionCount, CellId, Coordinate,
    Dimensions, Face, Fold, FoldAxis, FoldCount, FoldDirection, Layer, LineStroke, Orientation,
    PaperAction, PaperError, PaperSpec, StrokeCount, MAX_ACTIONS,
};

verus! {

/// One physical cell: where it lies, how high in its stack, and which way it faces.
#[derive(Clone, Copy, Debug, PartialEq, Eq, Hash, Structural)]
pub struct PhysicalCell {
    coordinate: Coordinate,
    layer: Layer,
    face: Face,
    orientation: Orientation,
}

impl PhysicalCell {
    pub closed spec fn at(self) -> Coordinate {
        self.coordinate
    }

    pub closed spec fn level(self) -> int {
        self.layer.value() as int
    }

    pub closed spec fn side(self) -> Face {
        self.face
    }

    pub closed spec fn turn(self) -> Orientation {
        self.orientation
    }

    /// The cell with the given position, layer, face, and orientation.
    pub closed spec fn spec_new(at: Coordinate, level: int, side: Face, turn: Orientation) -> PhysicalCell {
        PhysicalCell { coordinate: at, layer: Layer::spec_of(level as u8), face: side, orientation: turn }
    }

    pub proof fn lemma_spec_new(at: Coordinate, level: int, side: Face, turn: Orientation)
        requires
            0 <= level < 256,
        ensures
            PhysicalCell::spec_new(at, level, side, turn).at() == at,
            PhysicalCell::spec_new(at, level, side, turn).level() == level,
            PhysicalCell::spec_new(at, level, side, turn).side() == side,
            PhysicalCell::spec_new(at, level, side, turn).turn() == turn,
    {
        Layer::lemma_spec_of(level as u8);
    }

    pub fn coordinate(self) -> (r: Coordinate)
        ensures
            r == self.at(),
    {
        self.coordinate
    }

    pub fn layer(self) -> (r: Layer)
        ensures
            r.value() as int == self.level(),
    {
        self.layer
    }

    pub fn face(self) -> (r: Face)
        ensures
            r == self.side(),
    {
        self.face
    }

    pub fn orientation(self) -> (r: Orientation)
        ensures
            r == self.turn(),
    {
        self.orientation
    }
}

// ---------------------------------------------------------------------------
// Stacks
// ---------------------------------------------------------------------------

pub open spec fn at_pred(cells: Seq<PhysicalCell>, c: Coordinate) -> spec_fn(int) -> bool {
    |j: int| cells[j].at() == c
}

/// Number of physical cells stacked at a coordinate.
pub open spec fn height_at(cells: Seq<PhysicalCell>, c: Coordinate) -> nat {
    count_where(cells.len() as int, at_pred(cells, c))
}

/// The identities of the cells stacked at a coordinate.
pub open spec fn ids_at(cells: Seq<PhysicalCell>, c: Coordinate) -> Set<int> {
    Set::new(|j: int| 0 <= j < cells.len() && cells[j].at() == c)
}

/// Some cell at the coordinate lies at the layer.
pub open spec fn has_layer(cells: Seq<PhysicalCell>, c: Coordinate, l: int) -> bool {
    exists|i: int| 0 <= i < cells.len() && #[trigger] cells[i].at() == c && cells[i].level() == l
}

/// Every cell lies on the paper, and the layers at each coordinate are exactly
/// `0..height`, each held by one cell.
pub open spec fn stacks_wf(d: Dimensions, cells: Seq<PhysicalCell>) -> bool {
    &&& forall|i: int| 0 <= i < cells.len() ==> d.contains(#[trigger] cells[i].at())
    &&& forall|i: int|
        0 <= i < cells.len() ==> 0 <= #[trigger] cells[i].level() < height_at(cells, cells[i].at())
    &&& forall|i: int, j: int|
        0 <= i < cells.len() && 0 <= j < cells.len() && i != j && cells[i].at() == cells[j].at()
            ==> #[trigger] cells[i].level() != #[trigger] cells[j].level()
    &&& forall|c: Coordinate, l: int|
        d.contains(c) && 0 <= l < height_at(cells, c) ==> #[trigger] has_layer(cells, c, l)
}

// ---------------------------------------------------------------------------
// Folding geometry
// ---------------------------------------------------------------------------

/// Whether a coordinate lies on the side that a fold moves.
pub open spec fn moves(c: Coordinate, f: Fold) -> bool {
    match f.dir() {
        FoldDirection::Left => c.c() >= f.cr(),
        FoldDirection::Right => c.c() < f.cr(),
        FoldDirection::Up => c.r() >= f.cr(),
        FoldDirection::Down => c.r() < f.cr(),
    }
}

/// The index of a coordinate along the fold's axis.
pub open spec fn moving_index(c: Coordinate, f: Fold) -> int {
    match f.dir().spec_axis() {
        FoldAxis::Vertical => c.c(),
        FoldAxis::Horizontal => c.r(),
    }
}

/// The extent of the paper along the fold's axis.
pub open spec fn fold_extent(d: Dimensions, f: Fold) -> int {
    match f.dir().spec_axis() {
        FoldAxis::Vertical => d.w(),
        FoldAxis::Horizontal => d.h(),
    }
}

pub open spec fn reflected_row(c: Coordinate, f: Fold) -> int {
    match f.dir().spec_axis() {
        FoldAxis::Vertical => c.r(),
        FoldAxis::Horizontal => 2 * f.cr() - 1 - c.r(),
    }
}

pub open spec fn reflected_col(c: Coordinate, f: Fold) -> int {
    match f.dir().spec_axis() {
        FoldAxis::Vertical => 2 * f.cr() - 1 - c.c(),
        FoldAxis::Horizontal => c.c(),
    }
}

/// The mirror image of a coordinate across the crease.
pub open spec fn reflected(c: Coordinate, f: Fold) -> Coordinate {
    coordinate_of(reflected_row(c, f), reflected_col(c, f))
}

/// Whether the cell at index `j` moves and its mirror image leaves the paper.
pub open spec fn leaves_at(d: Dimensions, cells: Seq<PhysicalCell>, f: Fold, j: int) -> bool {
    let c = cells[j].at();
    moves(c, f) && !(0 <= 2 * f.cr() - 1 - moving_index(c, f) < fold_extent(d, f))
}

/// Whether `j` is the first index whose cell leaves the paper.
pub open spec fn first_leaving(d: Dimensions, cells: Seq<PhysicalCell>, f: Fold, j: int) -> bool {
    &&& 0 <= j < cells.len()
    &&& leaves_at(d, cells, f, j)
    &&& forall|k: int| 0 <= k < j ==> !#[trigger] leaves_at(d, cells, f, k)
}

pub open spec fn moving_pred(cells: Seq<PhysicalCell>, f: Fold) -> spec_fn(int) -> bool {
    |j: int| moves(cells[j].at(), f)
}

pub open spec fn stationary_at(cells: Seq<PhysicalCell>, f: Fold, c: Coordinate) -> spec_fn(int) -> bool {
    |j: int| !moves(cells[j].at(), f) && cells[j].at() == c
}

pub open spec fn moving_to(cells: Seq<PhysicalCell>, f: Fold, c: Coordinate) -> spec_fn(int) -> bool {
    |j: int|
        moves(cells[j].at(), f) && reflected_row(cells[j].at(), f) == c.r() && reflected_col(
            cells[j].at(),
            f,
        ) == c.c()
}

/// A moved cell lands on its mirror image, on top of what was already there,
/// with its own stack reversed, turned over, and turned across the axis.
pub open spec fn folded_cell(cells: Seq<PhysicalCell>, i: int, f: Fold) -> PhysicalCell {
    let cell = cells[i];
    if moves(cell.at(), f) {
        let d = reflected(cell.at(), f);
        PhysicalCell::spec_new(
            d,
            height_at(cells, d) + height_at(cells, cell.at()) - 1 - cell.level(),
            cell.side().flip(),
            cell.turn().across(f.dir().spec_axis()),
        )
    } else {
        cell
    }
}

pub open spec fn folded_cells(cells: Seq<PhysicalCell>, f: Fold) -> Seq<PhysicalCell> {
    Seq::new(cells.len(), |i: int| folded_cell(cells, i, f))
}

// ---------------------------------------------------------------------------
// Proofs about folding
// ---------------------------------------------------------------------------

/// Cells at a stationary coordinate are exactly the stationary cells there.
proof fn lemma_stationary_count(cells: Seq<PhysicalCell>, f: Fold, d: Coordinate)
    requires
        !moves(d, f),
    ensures
        count_where(cells.len() as int, stationary_at(cells, f, d)) == height_at(cells, d),
{
    lemma_count_ext(cells.len() as int, stationary_at(cells, f, d), at_pred(cells, d));
}

/// The cells folded onto the mirror image of a moving coordinate are exactly
/// the cells of that coordinate.
proof fn lemma_moving_count(cells: Seq<PhysicalCell>, f: Fold, s: Coordinate, d: Coordinate)
    requires
        moves(s, f),
        d.r() == reflected_row(s, f),
        d.c() == reflected_col(s, f),
    ensures
        count_where(cells.len() as int, moving_to(cells, f, d)) == height_at(cells, s),
{
    assert forall|j: int| 0 <= j < cells.len() implies #[trigger] moving_to(cells, f, d)(j) == at_pred(cells, s)(j) by {
        Coordinate::lemma_eq(cells[j].at(), s);
    }
    lemma_count_ext(cells.len() as int, moving_to(cells, f, d), at_pred(cells, s));
}

/// What the folded cell at index `i` is, when no cell leaves the paper.
proof fn lemma_folded_cell(d: Dimensions, cells: Seq<PhysicalCell>, f: Fold, i: int)
    requires
        d.wf(),
        stacks_wf(d, cells),
        cells.len() == d.cells_len(),
        1 <= f.cr() < fold_extent(d, f),
        0 <= i < cells.len(),
        !leaves_at(d, cells, f, i),
    ensures
        !moves(cells[i].at(), f) ==> folded_cells(cells, f)[i] == cells[i],
        moves(cells[i].at(), f) ==> {
            let s = cells[i].at();
            let t = reflected(s, f);
            &&& t.r() == reflected_row(s, f)
            &&& t.c() == reflected_col(s, f)
            &&& d.contains(t)
            &&& !moves(t, f)
            &&& height_at(cells, t) + height_at(cells, s) <= cells.len()
            &&& folded_cells(cells, f)[i].at() == t
            &&& folded_cells(cells, f)[i].level() == height_at(cells, t) + height_at(cells, s) - 1
                - cells[i].level()
            &&& height_at(cells, t) <= folded_cells(cells, f)[i].level() < height_at(cells, t)
                + height_at(cells, s)
        },
{
    let s = cells[i].at();
    if moves(s, f) {
        assert(d.contains(s));
        let rr = reflected_row(s, f);
        let rc = reflected_col(s, f);
        assert(0 <= rr < d.h() && 0 <= rc < d.w());
        lemma_coordinate_of(rr, rc);
        let t = reflected(s, f);
        assert(!moves(t, f));
        let n = cells.len() as int;
        let both = |j: int| cells[j].at() == t || cells[j].at() == s;
        assert(t != s);
        lemma_count_disjoint(n, at_pred(cells, t), at_pred(cells, s), both);
        lemma_count_bounds(n, both);
        assert(0 <= cells[i].level() < height_at(cells, s));
        d.lemma_wf();
        let lev = height_at(cells, t) + height_at(cells, s) - 1 - cells[i].level();
        PhysicalCell::lemma_spec_new(t, lev, cells[i].side().flip(), cells[i].turn().across(f.dir().spec_axis()));
    }
}

/// The height of a coordinate after a fold, split into what stayed and what arrived.
proof fn lemma_folded_height(d: Dimensions, cells: Seq<PhysicalCell>, f: Fold, x: Coordinate)
    requires
        d.wf(),
        stacks_wf(d, cells),
        cells.len() == d.cells_len(),
        1 <= f.cr() < fold_extent(d, f),
        forall|j: int| 0 <= j < cells.len() ==> !#[trigger] leaves_at(d, cells, f, j),
        d.contains(x),
    ensures
        height_at(folded_cells(cells, f), x) == count_where(cells.len() as int, stationary_at(cells, f, x))
            + count_where(cells.len() as int, moving_to(cells, f, x)),
        moves(x, f) ==> height_at(folded_cells(cells, f), x) == 0,
        !moves(x, f) ==> count_where(cells.len() as int, stationary_at(cells, f, x)) == height_at(cells, x),
{
    let n = cells.len() as int;
    let folded = folded_cells(cells, f);
    assert forall|j: int| 0 <= j < n implies #[trigger] at_pred(folded, x)(j) == (stationary_at(cells, f, x)(j)
        || moving_to(cells, f, x)(j)) by {
        lemma_folded_cell(d, cells, f, j);
        if moves(cells[j].at(), f) {
            let t = reflected(cells[j].at(), f);
            Coordinate::lemma_eq(t, x);
        }
    }
    assert forall|j: int| 0 <= j < n implies !(#[trigger] stationary_at(cells, f, x)(j) && moving_to(cells, f, x)(j)) by {
        if moving_to(cells, f, x)(j) {
            assert(!leaves_at(d, cells, f, j));
        }
    }
    lemma_count_disjoint(n, stationary_at(cells, f, x), moving_to(cells, f, x), at_pred(folded, x));
    if moves(x, f) {
        assert forall|j: int| 0 <= j < n implies !#[trigger] stationary_at(cells, f, x)(j) by {}
        assert forall|j: int| 0 <= j < n implies !#[trigger] moving_to(cells, f, x)(j) by {
            if moving_to(cells, f, x)(j) {
                lemma_folded_cell(d, cells, f, j);
            }
        }
        lemma_count_bounds(n, stationary_at(cells, f, x));
        lemma_count_bounds(n, moving_to(cells, f, x));
    } else {
        lemma_stationary_count(cells, f, x);
    }
}

/// A fold that keeps every cell on the paper keeps every stack well formed.
pub proof fn lemma_fold_keeps_stacks(d: Dimensions, cells: Seq<PhysicalCell>, f: Fold)
    requires
        d.wf(),
        stacks_wf(d, cells),
        cells.len() == d.cells_len(),
        1 <= f.cr() < fold_extent(d, f),
        forall|j: int| 0 <= j < cells.len() ==> !#[trigger] leaves_at(d, cells, f, j),
    ensures
        stacks_wf(d, folded_cells(cells, f)),
{
    let n = cells.len() as int;
    let folded = folded_cells(cells, f);
    assert forall|i: int| 0 <= i < n implies d.contains(#[trigger] folded[i].at()) by {
        lemma_folded_cell(d, cells, f, i);
    }
    assert forall|i: int| 0 <= i < n implies 0 <= #[trigger] folded[i].level() < height_at(folded, folded[i].at()) by {
        lemma_folded_cell(d, cells, f, i);
        let s = cells[i].at();
        if moves(s, f) {
            let t = reflected(s, f);
            lemma_folded_height(d, cells, f, t);
            lemma_moving_count(cells, f, s, t);
        } else {
            lemma_folded_height(d, cells, f, s);
        }
    }
    assert forall|i: int, j: int|
        0 <= i < n && 0 <= j < n && i != j && folded[i].at() == folded[j].at()
            implies #[trigger] folded[i].level() != #[trigger] folded[j].level() by {
        lemma_folded_cell(d, cells, f, i);
        lemma_folded_cell(d, cells, f, j);
        let si = cells[i].at();
        let sj = cells[j].at();
        if moves(si, f) && moves(sj, f) {
            Coordinate::lemma_eq(si, sj);
        }
    }
    assert forall|x: Coordinate, l: int| d.contains(x) && 0 <= l < height_at(folded, x)
        implies #[trigger] has_layer(folded, x, l) by {
        lemma_folded_height(d, cells, f, x);
        let a = count_where(n, stationary_at(cells, f, x));
        if l < a {
            assert(has_layer(cells, x, l));
            let i = choose|i: int| 0 <= i < n && #[trigger] cells[i].at() == x && cells[i].level() == l;
            lemma_folded_cell(d, cells, f, i);
            assert(folded[i].at() == x);
        } else {
            lemma_count_witness(n, moving_to(cells, f, x));
            let j = choose|j: int| 0 <= j < n && #[trigger] moving_to(cells, f, x)(j);
            let s = cells[j].at();
            lemma_moving_count(cells, f, s, x);
            let b = height_at(cells, s);
            let r = a + b - 1 - l;
            assert(has_layer(cells, s, r));
            let i = choose|i: int| 0 <= i < n && #[trigger] cells[i].at() == s && cells[i].level() == r;
            lemma_folded_cell(d, cells, f, i);
            let t = reflected(s, f);
            Coordinate::lemma_eq(t, x);
            assert(folded[i].at() == x);
            assert(folded[i].level() == l);
        }
    }
}

// ---------------------------------------------------------------------------
// The abstract paper
// ---------------------------------------------------------------------------

/// The canonical state of a paper between actions.
pub struct PaperState {
    pub cells: Seq<PhysicalCell>,
    pub ink: Set<int>,
    pub folds: int,
    pub strokes: int,
    pub actions: int,
}

/// A paper: its fixed size and budgets, its state, and the states before each action.
pub struct PaperModel {
    pub dims: Dimensions,
    pub fold_limit: FoldCount,
    pub stroke_limit: StrokeCount,
    pub action_limit: ActionCount,
    pub state: PaperState,
    pub history: Seq<(PaperState, PaperAction)>,
}

/// The uninked paper with every cell face up at its original position.
pub open spec fn fresh_cells(d: Dimensions) -> Seq<PhysicalCell> {
    Seq::new(
        d.cells_len() as nat,
        |i: int| PhysicalCell::spec_new(coordinate_of(i / d.w(), i % d.w()), 0, Face::Front, Orientation::North),
    )
}

pub open spec fn fresh_state(d: Dimensions) -> PaperState {
    PaperState { cells: fresh_cells(d), ink: Set::empty(), folds: 0, strokes: 0, actions: 0 }
}

/// The identities of the cells under every cell of a line.
pub open spec fn line_ids(cells: Seq<PhysicalCell>, line: LineStroke, length: int) -> Set<int> {
    Set::new(|j: int| 0 <= j < cells.len() && exists|o: int| 0 <= o < length && #[trigger] line.at(o) == cells[j].at())
}

/// Whether offset `o` is the first offset of the line above an empty position.
pub open spec fn first_empty_offset(cells: Seq<PhysicalCell>, line: LineStroke, length: int, o: int) -> bool {
    &&& 0 <= o < length
    &&& height_at(cells, line.at(o)) == 0
    &&& forall|k: int| 0 <= k < o ==> height_at(cells, #[trigger] line.at(k)) > 0
}

pub open spec fn state_wf(d: Dimensions, fl: int, sl: int, al: int, s: PaperState) -> bool {
    &&& s.cells.len() == d.cells_len()
    &&& stacks_wf(d, s.cells)
    &&& s.ink.subset_of(set_int_range(0, d.cells_len()))
    &&& 0 <= s.folds <= fl
    &&& 0 <= s.strokes <= sl
    &&& 0 <= s.actions <= al
    &&& s.folds + s.strokes == s.actions
}

impl PaperModel {
    pub open spec fn limits_wf(self) -> bool {
        &&& self.dims.wf()
        &&& self.fold_limit.value() <= 12
        &&& self.stroke_limit.value() <= 8
        &&& self.action_limit.value() <= 64
    }

    pub open spec fn state_ok(self, s: PaperState) -> bool {
        state_wf(
            self.dims,
            self.fold_limit.value() as int,
            self.stroke_limit.value() as int,
            self.action_limit.value() as int,
            s,
        )
    }

    /// The invariant of every reachable paper.
    pub open spec fn wf(self) -> bool {
        &&& self.limits_wf()
        &&& self.state_ok(self.state)
        &&& self.history.len() == self.state.actions
        &&& forall|k: int| 0 <= k < self.history.len() ==> self.state_ok(#[trigger] self.history[k].0)
            && self.history[k].0.actions == k
    }

    /// A fresh paper with the given size and budgets.
    pub open spec fn fresh(d: Dimensions, fl: FoldCount, sl: StrokeCount, al: ActionCount) -> PaperModel {
        PaperModel {
            dims: d,
            fold_limit: fl,
            stroke_limit: sl,
            action_limit: al,
            state: fresh_state(d),
            history: Seq::empty(),
        }
    }

    /// The paper after a successful action that led to state `s`.
    pub open spec fn after(self, s: PaperState, a: PaperAction) -> PaperModel {
        PaperModel { state: s, history: self.history.push((self.state, a)), ..self }
    }

    pub open spec fn stroke_budget_error(self) -> Option<PaperError> {
        if self.state.strokes >= self.stroke_limit.value() {
            Some(PaperError::StrokeBudgetExhausted { limit: self.stroke_limit })
        } else if self.state.actions >= self.action_limit.value() {
            Some(PaperError::ActionBudgetExhausted { limit: self.action_limit })
        } else {
            None
        }
    }

    pub open spec fn fold_step(self, f: Fold) -> Result<PaperModel, PaperError> {
        let cells = self.state.cells;
        let n = cells.len() as int;
        let extent = fold_extent(self.dims, f);
        if f.cr() == 0 || f.cr() >= extent {
            Err(PaperError::CreaseOutsidePaper { axis: f.dir().spec_axis(), crease: f.cr(), extent: extent as u8 })
        } else if self.state.folds >= self.fold_limit.value() {
            Err(PaperError::FoldBudgetExhausted { limit: self.fold_limit })
        } else if self.state.actions >= self.action_limit.value() {
            Err(PaperError::ActionBudgetExhausted { limit: self.action_limit })
        } else if exists|j: int| #[trigger] first_leaving(self.dims, cells, f, j) {
            let j = choose|j: int| #[trigger] first_leaving(self.dims, cells, f, j);
            Err(
                PaperError::FoldLeavesPaper {
                    direction: f.dir(),
                    crease: f.cr(),
                    index: moving_index(cells[j].at(), f) as u8,
                    extent: extent as u8,
                },
            )
        } else if forall|j: int| 0 <= j < n ==> !moves(#[trigger] cells[j].at(), f) {
            Err(PaperError::EmptyMovingSide { direction: f.dir() })
        } else {
            Ok(
                self.after(
                    PaperState {
                        cells: folded_cells(cells, f),
                        folds: self.state.folds + 1,
                        actions: self.state.actions + 1,
                        ..self.state
                    },
                    PaperAction::Fold(f),
                ),
            )
        }
    }

    pub open spec fn dot_step(self, c: Coordinate) -> Result<PaperModel, PaperError> {
        let cells = self.state.cells;
        if !self.dims.contains(c) {
            Err(self.dims.outside_error(c))
        } else if self.stroke_budget_error() is Some {
            Err(self.stroke_budget_error()->Some_0)
        } else if height_at(cells, c) == 0 {
            Err(PaperError::EmptyBrushPosition { coordinate: c })
        } else {
            Ok(
                self.after(
                    PaperState {
                        ink: self.state.ink.union(ids_at(cells, c)),
                        strokes: self.state.strokes + 1,
                        actions: self.state.actions + 1,
                        ..self.state
                    },
                    PaperAction::Dot(c),
                ),
            )
        }
    }

    pub open spec fn line_step(self, line: LineStroke) -> Result<PaperModel, PaperError> {
        let cells = self.state.cells;
        let start = line.start_value();
        let end = line.end_value();
        if !self.dims.contains(start) {
            Err(self.dims.outside_error(start))
        } else if !self.dims.contains(end) {
            Err(self.dims.outside_error(end))
        } else if self.stroke_budget_error() is Some {
            Err(self.stroke_budget_error()->Some_0)
        } else if line.spec_axis_and_length() is Err {
            Err(line.spec_axis_and_length()->Err_0)
        } else {
            let length = line.spec_axis_and_length()->Ok_0.1 as int;
            if exists|o: int| #[trigger] first_empty_offset(cells, line, length, o) {
                let o = choose|o: int| #[trigger] first_empty_offset(cells, line, length, o);
                Err(PaperError::EmptyBrushPosition { coordinate: line.at(o) })
            } else {
                Ok(
                    self.after(
                        PaperState {
                            ink: self.state.ink.union(line_ids(cells, line, length)),
                            strokes: self.state.strokes + 1,
                            actions: self.state.actions + 1,
                            ..self.state
                        },
                        PaperAction::Line(line),
                    ),
                )
            }
        }
    }

    /// The result of applying one action.
    pub open spec fn apply_step(self, a: PaperAction) -> Result<PaperModel, PaperError> {
        match a {
            PaperAction::Fold(f) => self.fold_step(f),
            PaperAction::Dot(c) => self.dot_step(c),
            PaperAction::Line(line) => self.line_step(line),
        }
    }

    /// The result of undoing the most recent action.
    pub open spec fn undo_step(self) -> Result<PaperModel, PaperError> {
        if self.history.len() == 0 {
            Err(PaperError::NothingToUndo)
        } else {
            Ok(PaperModel { state: self.history.last().0, history: self.history.drop_last(), ..self })
        }
    }

    /// The fresh paper with the same size and budgets.
    pub open spec fn reset_step(self) -> PaperModel {
        PaperModel { state: fresh_state(self.dims), history: Seq::empty(), ..self }
    }
}

// ---------------------------------------------------------------------------
// Laws of the abstract paper
// ---------------------------------------------------------------------------

proof fn lemma_fresh_cell(d: Dimensions, j: int)
    requires
        d.wf(),
        0 <= j < d.cells_len(),
    ensures
        fresh_cells(d)[j].at() == coordinate_of(j / d.w(), j % d.w()),
        fresh_cells(d)[j].level() == 0,
        d.contains(fresh_cells(d)[j].at()),
        d.index_of(fresh_cells(d)[j].at()) == j,
{
    let w = d.w();
    let h = d.h();
    assert(j / w < h) by (nonlinear_arith)
        requires
            0 <= j < w * h,
            w > 0,
    ;
    vstd::arithmetic::div_mod::lemma_fundamental_div_mod(j, w);
    assert(0 <= j % w < w);
    lemma_coordinate_of(j / w, j % w);
    PhysicalCell::lemma_spec_new(coordinate_of(j / w, j % w), 0, Face::Front, Orientation::North);
    assert(j == (j / w) * w + j % w) by (nonlinear_arith)
        requires
            j == w * (j / w) + j % w,
    ;
}

/// On a fresh paper, a fold toward the right whose moving side is no wider than
/// the rest succeeds.
pub proof fn lemma_fresh_right_fold(m: PaperModel, f: Fold)
    requires
        m.dims.wf(),
        m.state == fresh_state(m.dims),
        m.fold_limit.value() >= 1,
        m.action_limit.value() >= 1,
        f.dir() == FoldDirection::Right,
        0 < f.cr(),
        2 * f.cr() <= m.dims.w(),
    ensures
        m.fold_step(f) is Ok,
        m.fold_step(f)->Ok_0.state.cells == folded_cells(fresh_cells(m.dims), f),
        m.fold_step(f)->Ok_0.state.folds == 1,
        m.fold_step(f)->Ok_0.state.strokes == 0,
        m.fold_step(f)->Ok_0.state.actions == 1,
        m.fold_step(f)->Ok_0.dims == m.dims,
        m.fold_step(f)->Ok_0.stroke_limit == m.stroke_limit,
        m.fold_step(f)->Ok_0.action_limit == m.action_limit,
{
    let d = m.dims;
    let cells = m.state.cells;
    d.lemma_wf();
    assert(fold_extent(d, f) == d.w());
    assert forall|j: int| 0 <= j < cells.len() implies !#[trigger] leaves_at(d, cells, f, j) by {
        lemma_fresh_cell(d, j);
    }
    assert(!exists|j: int| #[trigger] first_leaving(d, cells, f, j));
    lemma_fresh_cell(d, 0);
    assert(moves(cells[0].at(), f));
}

/// After such a fold, a fresh paper still holds a cell at every position the fold kept still.
pub proof fn lemma_fresh_fold_keeps(d: Dimensions, f: Fold, i: int)
    requires
        d.wf(),
        0 <= i < d.cells_len(),
        !moves(coordinate_of(i / d.w(), i % d.w()), f),
    ensures
        height_at(folded_cells(fresh_cells(d), f), coordinate_of(i / d.w(), i % d.w())) > 0,
{
    let cells = fresh_cells(d);
    let folded = folded_cells(cells, f);
    let c = coordinate_of(i / d.w(), i % d.w());
    d.lemma_wf();
    lemma_fresh_cell(d, i);
    assert(folded[i] == cells[i]);
    assert(at_pred(folded, c)(i));
    lemma_count_bounds(folded.len() as int, at_pred(folded, c));
}

/// A fresh paper satisfies the paper invariant.
pub proof fn lemma_fresh_wf(d: Dimensions, fl: FoldCount, sl: StrokeCount, al: ActionCount)
    requires
        PaperModel::fresh(d, fl, sl, al).limits_wf(),
    ensures
        PaperModel::fresh(d, fl, sl, al).wf(),
{
    let cells = fresh_cells(d);
    let n = cells.len() as int;
    d.lemma_wf();
    assert forall|c: Coordinate| #[trigger] d.contains(c) implies height_at(cells, c) == 1
        && has_layer(cells, c, 0) by {
        let k = d.index_of(c);
        d.lemma_index_of(c);
        lemma_fresh_cell(d, k);
        lemma_coordinate_of_self(c);
        assert forall|j: int| 0 <= j < n && j != k implies !#[trigger] at_pred(cells, c)(j) by {
            lemma_fresh_cell(d, j);
        }
        lemma_count_single(n, at_pred(cells, c), k);
    }
    assert forall|i: int| 0 <= i < n implies d.contains(#[trigger] cells[i].at()) by {
        lemma_fresh_cell(d, i);
    }
    assert forall|i: int| 0 <= i < n implies 0 <= #[trigger] cells[i].level() < height_at(cells, cells[i].at()) by {
        lemma_fresh_cell(d, i);
    }
    assert forall|i: int, j: int|
        0 <= i < n && 0 <= j < n && i != j && cells[i].at() == cells[j].at()
            implies #[trigger] cells[i].level() != #[trigger] cells[j].level() by {
        lemma_fresh_cell(d, i);
        lemma_fresh_cell(d, j);
    }
    assert(Set::<int>::empty().subset_of(set_int_range(0, d.cells_len())));
}

/// If some cell leaves the paper, a first one does.
proof fn lemma_first_leaving_exists(d: Dimensions, cells: Seq<PhysicalCell>, f: Fold, j: int)
    requires
        0 <= j < cells.len(),
        leaves_at(d, cells, f, j),
    ensures
        exists|k: int| #[trigger] first_leaving(d, cells, f, k),
    decreases j,
{
    if exists|k: int| 0 <= k < j && #[trigger] leaves_at(d, cells, f, k) {
        let k = choose|k: int| 0 <= k < j && #[trigger] leaves_at(d, cells, f, k);
        lemma_first_leaving_exists(d, cells, f, k);
    } else {
        assert(first_leaving(d, cells, f, j));
    }
}

/// Every action that succeeds keeps the paper invariant.
pub proof fn lemma_apply_keeps_wf(m: PaperModel, a: PaperAction)
    requires
        m.wf(),
        m.apply_step(a) is Ok,
    ensures
        m.apply_step(a)->Ok_0.wf(),
{
    let next = m.apply_step(a)->Ok_0;
    let cells = m.state.cells;
    m.dims.lemma_wf();
    match a {
        PaperAction::Fold(f) => {
            if exists|j: int| 0 <= j < cells.len() && #[trigger] leaves_at(m.dims, cells, f, j) {
                let j = choose|j: int| 0 <= j < cells.len() && #[trigger] leaves_at(m.dims, cells, f, j);
                lemma_first_leaving_exists(m.dims, cells, f, j);
            }
            lemma_fold_keeps_stacks(m.dims, cells, f);
        },
        PaperAction::Dot(c) => {
            assert(ids_at(cells, c).subset_of(set_int_range(0, m.dims.cells_len())));
        },
        PaperAction::Line(line) => {
            let length = line.spec_axis_and_length()->Ok_0.1 as int;
            assert(line_ids(cells, line, length).subset_of(set_int_range(0, m.dims.cells_len())));
        },
    }
    assert forall|k: int| 0 <= k < next.history.len() implies next.state_ok(#[trigger] next.history[k].0)
        && next.history[k].0.actions == k by {
        if k < m.history.len() {
            assert(next.history[k] == m.history[k]);
        }
    }
}

/// A successful action records the state before it and keeps the size and budgets.
pub proof fn lemma_apply_records(m: PaperModel, a: PaperAction)
    requires
        m.apply_step(a) is Ok,
    ensures
        m.apply_step(a)->Ok_0.history == m.history.push((m.state, a)),
        m.apply_step(a)->Ok_0.dims == m.dims,
        m.apply_step(a)->Ok_0.fold_limit == m.fold_limit,
        m.apply_step(a)->Ok_0.stroke_limit == m.stroke_limit,
        m.apply_step(a)->Ok_0.action_limit == m.action_limit,
{
}

/// Undoing a successful action restores the paper exactly.
/// Actions and undos keep a paper's size and budgets.
pub proof fn lemma_steps_keep_limits(m: PaperModel, a: PaperAction)
    ensures
        m.apply_step(a) matches Ok(n) ==> n.dims == m.dims && n.fold_limit == m.fold_limit && n.stroke_limit
            == m.stroke_limit && n.action_limit == m.action_limit,
        m.undo_step() matches Ok(n) ==> n.dims == m.dims && n.fold_limit == m.fold_limit && n.stroke_limit
            == m.stroke_limit && n.action_limit == m.action_limit,
{
}

/// Resetting a paper gives the fresh paper of its size and budgets: the paper
/// that a new sheet with that specification starts as, whatever was done to it.
pub proof fn lemma_reset_matches_new(m: PaperModel, fresh: PaperModel)
    requires
        fresh == PaperModel::fresh(fresh.dims, fresh.fold_limit, fresh.stroke_limit, fresh.action_limit),
        m.dims == fresh.dims,
        m.fold_limit == fresh.fold_limit,
        m.stroke_limit == fresh.stroke_limit,
        m.action_limit == fresh.action_limit,
    ensures
        m.reset_step() == fresh,
{
}

/// The paper after a sequence of changes: an action for `Some`, an undo for
/// `None`; a change that is refused leaves the paper as it was.
pub open spec fn changed_by(m: PaperModel, changes: Seq<Option<PaperAction>>, n: int) -> PaperModel
    decreases n,
{
    if n <= 0 {
        m
    } else {
        let before = changed_by(m, changes, n - 1);
        match changes[n - 1] {
            Some(a) => match before.apply_step(a) {
                Ok(next) => next,
                Err(_) => before,
            },
            None => match before.undo_step() {
                Ok(next) => next,
                Err(_) => before,
            },
        }
    }
}

/// Changes keep a paper's size and budgets.
proof fn lemma_changes_keep_limits(m: PaperModel, changes: Seq<Option<PaperAction>>, n: int)
    ensures
        changed_by(m, changes, n).dims == m.dims,
        changed_by(m, changes, n).fold_limit == m.fold_limit,
        changed_by(m, changes, n).stroke_limit == m.stroke_limit,
        changed_by(m, changes, n).action_limit == m.action_limit,
    decreases n,
{
    if n > 0 {
        lemma_changes_keep_limits(m, changes, n - 1);
        let before = changed_by(m, changes, n - 1);
        match changes[n - 1] {
            Some(a) => lemma_steps_keep_limits(before, a),
            None => lemma_steps_keep_limits(before, vstd::pervasive::arbitrary()),
        }
    }
}

/// A fresh paper changed by any actions and undos, then reset, is the fresh
/// paper again: the paper that a new sheet of that specification starts as.
pub proof fn lemma_reset_after_changes(fresh: PaperModel, changes: Seq<Option<PaperAction>>)
    requires
        fresh == PaperModel::fresh(fresh.dims, fresh.fold_limit, fresh.stroke_limit, fresh.action_limit),
    ensures
        changed_by(fresh, changes, changes.len() as int).reset_step() == fresh,
{
    lemma_changes_keep_limits(fresh, changes, changes.len() as int);
    lemma_reset_matches_new(changed_by(fresh, changes, changes.len() as int), fresh);
}

/// A fold moves exactly the cells beyond its crease on the side it folds
/// from, each onto its mirror image across the crease, and leaves every other
/// cell where it was. After a Left fold at crease `k` no cell is left in a
/// column at or beyond `k`, after a Right fold none before `k`, and likewise for
/// rows with Up and Down.
pub proof fn lemma_fold_geometry(m: PaperModel, f: Fold, i: int)
    requires
        m.wf(),
        m.fold_step(f) is Ok,
        0 <= i < m.state.cells.len(),
    ensures
        ({
            let k = f.cr() as int;
            let b = m.state.cells[i].at();
            let a = m.fold_step(f)->Ok_0.state.cells[i].at();
            &&& f.dir() == FoldDirection::Left ==> (if b.c() >= k {
                a.r() == b.r() && a.c() == 2 * k - 1 - b.c()
            } else {
                a == b
            }) && a.c() < k
            &&& f.dir() == FoldDirection::Right ==> (if b.c() < k {
                a.r() == b.r() && a.c() == 2 * k - 1 - b.c()
            } else {
                a == b
            }) && a.c() >= k
            &&& f.dir() == FoldDirection::Up ==> (if b.r() >= k {
                a.c() == b.c() && a.r() == 2 * k - 1 - b.r()
            } else {
                a == b
            }) && a.r() < k
            &&& f.dir() == FoldDirection::Down ==> (if b.r() < k {
                a.c() == b.c() && a.r() == 2 * k - 1 - b.r()
            } else {
                a == b
            }) && a.r() >= k
        }),
{
    let cells = m.state.cells;
    let d = m.dims;
    if leaves_at(d, cells, f, i) {
        lemma_first_leaving_exists(d, cells, f, i);
    }
    lemma_folded_cell(d, cells, f, i);
}

/// A line stroked on a fresh sheet inks exactly the cells between its two
/// endpoints, both included, and nothing else.
pub proof fn lemma_line_on_fresh_sheet(m: PaperModel, line: LineStroke)
    requires
        m == PaperModel::fresh(m.dims, m.fold_limit, m.stroke_limit, m.action_limit),
        m.dims.wf(),
        m.line_step(line) is Ok,
    ensures
        forall|j: int|
            #[trigger] m.line_step(line)->Ok_0.state.ink.contains(j) <==> 0 <= j < m.dims.cells_len()
                && super::between_ends(
                line.start_value(),
                line.end_value(),
                coordinate_of(j / m.dims.w(), j % m.dims.w()),
            ),
{
    let d = m.dims;
    let cells = fresh_cells(d);
    let length = line.spec_axis_and_length()->Ok_0.1 as int;
    line.lemma_line_positions();
    assert forall|j: int|
        #[trigger] m.line_step(line)->Ok_0.state.ink.contains(j) <==> 0 <= j < d.cells_len() && super::between_ends(
            line.start_value(),
            line.end_value(),
            coordinate_of(j / d.w(), j % d.w()),
        ) by {
        if 0 <= j < d.cells_len() {
            assert(0 <= j / d.w() < d.h()) by (nonlinear_arith)
                requires
                    0 <= j < d.w() * d.h(),
                    d.w() > 0,
            ;
            assert(cells[j] == PhysicalCell::spec_new(
                coordinate_of(j / d.w(), j % d.w()),
                0,
                Face::Front,
                Orientation::North,
            ));
            PhysicalCell::lemma_spec_new(coordinate_of(j / d.w(), j % d.w()), 0, Face::Front, Orientation::North);
            assert(cells[j].at() == coordinate_of(j / d.w(), j % d.w()));
        }
    }
}

/// A successful action never removes ink.
pub proof fn lemma_apply_keeps_ink(m: PaperModel, a: PaperAction)
    requires
        m.apply_step(a) is Ok,
    ensures
        m.state.ink.subset_of(m.apply_step(a)->Ok_0.state.ink),
{
}

pub proof fn lemma_undo_after_apply(m: PaperModel, a: PaperAction)
    requires
        m.apply_step(a) is Ok,
    ensures
        m.apply_step(a)->Ok_0.undo_step() == Ok::<PaperModel, PaperError>(m),
{
    let next = m.apply_step(a)->Ok_0;
    assert(next.history.drop_last() =~= m.history);
}

/// Undo keeps the paper invariant.
pub proof fn lemma_undo_keeps_wf(m: PaperModel)
    requires
        m.wf(),
        m.undo_step() is Ok,
    ensures
        m.undo_step()->Ok_0.wf(),
{
    let next = m.undo_step()->Ok_0;
    let k = m.history.len() - 1;
    assert(m.state_ok(m.history[k].0));
    assert forall|i: int| 0 <= i < next.history.len() implies next.state_ok(#[trigger] next.history[i].0)
        && next.history[i].0.actions == i by {
        assert(next.history[i] == m.history[i]);
    }
}

/// Reset keeps the paper invariant.
pub proof fn lemma_reset_keeps_wf(m: PaperModel)
    requires
        m.wf(),
    ensures
        m.reset_step().wf(),
{
    lemma_fresh_wf(m.dims, m.fold_limit, m.stroke_limit, m.action_limit);
    assert(m.reset_step() == PaperModel::fresh(m.dims, m.fold_limit, m.stroke_limit, m.action_limit));
}

// ---------------------------------------------------------------------------
// Stack views
// ---------------------------------------------------------------------------

/// The identities of one stack, bottom to top.
#[derive(Clone, Debug, PartialEq, Eq)]
pub struct StackView {
    cell_ids: Vec<CellId>,
}

impl StackView {
    pub closed spec fn ids(&self) -> Seq<CellId> {
        self.cell_ids@
    }

    pub fn new() -> (r: Self)
        ensures
            r.ids() == Seq::<CellId>::empty(),
    {
        StackView { cell_ids: Vec::new() }
    }

    pub fn cell_ids(&self) -> (r: &[CellId])
        ensures
            r@ == self.ids(),
    {
        self.cell_ids.as_slice()
    }

    pub fn len(&self) -> (r: usize)
        ensures
            r == self.ids().len(),
    {
        self.cell_ids.len()
    }

    pub fn is_empty(&self) -> (r: bool)
        ensures
            r == (self.ids().len() == 0),
    {
        self.cell_ids.len() == 0
    }
}

impl Default for StackView {
    fn default() -> (r: Self)
        ensures
            r.ids() == Seq::<CellId>::empty(),
    {
        StackView::new()
    }
}

// ---------------------------------------------------------------------------
// The executable paper
// ---------------------------------------------------------------------------

#[derive(Clone, Copy, Debug, PartialEq, Eq)]
struct PaperBudget {
    folds: FoldCount,
    strokes: StrokeCount,
    actions: ActionCount,
}

/// Why a size and budget specification is refused, if it is.
pub open spec fn paper_spec_error(spec: PaperSpec) -> Option<PaperError> {
    let (w, h, f, s, a) = spec.view_tuple();
    if !(4 <= w <= 12) {
        Some(PaperError::WidthOutOfRange { value: w })
    } else if !(4 <= h <= 12) {
        Some(PaperError::HeightOutOfRange { value: h })
    } else if f > 12 {
        Some(PaperError::FoldBudgetOutOfRange { value: f })
    } else if s > 8 {
        Some(PaperError::StrokeBudgetOutOfRange { value: s })
    } else if a > 64 {
        Some(PaperError::ActionBudgetOutOfRange { value: a })
    } else {
        None
    }
}

impl PaperBudget {
    fn from_spec(spec: PaperSpec) -> (r: Result<Self, PaperError>)
        ensures
            r is Ok <==> (spec.view_tuple().2 <= 12 && spec.view_tuple().3 <= 8 && spec.view_tuple().4 <= 64),
            r matches Ok(b) ==> b.folds.value() == spec.view_tuple().2 && b.strokes.value() == spec.view_tuple().3
                && b.actions.value() == spec.view_tuple().4,
            r matches Err(e) ==> (4 <= spec.view_tuple().0 <= 12 && 4 <= spec.view_tuple().1 <= 12)
                ==> paper_spec_error(spec) == Some(e),
    {
        let folds = FoldCount::new(spec.fold_budget)?;
        let strokes = StrokeCount::new(spec.stroke_budget)?;
        let actions = ActionCount::new(spec.action_budget)?;
        Ok(PaperBudget { folds, strokes, actions })
    }
}

#[derive(Clone, Debug, PartialEq, Eq)]
struct Snapshot {
    cells: Vec<PhysicalCell>,
    ink: InkPattern,
    fold_count: FoldCount,
    stroke_count: StrokeCount,
    action_count: ActionCount,
}

impl Snapshot {
    spec fn state(&self) -> PaperState {
        PaperState {
            cells: self.cells@,
            ink: self.ink.cells(),
            folds: self.fold_count.value() as int,
            strokes: self.stroke_count.value() as int,
            actions: self.action_count.value() as int,
        }
    }
}

#[derive(Clone, Debug, PartialEq, Eq)]
struct HistoryEntry {
    before: Snapshot,
    action: PaperAction,
}

spec fn entry_model(e: HistoryEntry) -> (PaperState, PaperAction) {
    (e.before.state(), e.action)
}

/// The part of a paper that decides what can happen next.
#[derive(Clone, Debug, PartialEq, Eq, Hash)]
pub struct PaperStateKey {
    dimensions: Dimensions,
    cells: Vec<PhysicalCell>,
    ink: InkPattern,
    fold_count: FoldCount,
    stroke_count: StrokeCount,
}

impl PaperStateKey {
    pub closed spec fn key_view(&self) -> (Dimensions, Seq<PhysicalCell>, InkPattern, int, int) {
        (self.dimensions, self.cells@, self.ink, self.fold_count.value() as int, self.stroke_count.value() as int)
    }

    /// Whether two keys describe the same state.
    pub fn same(&self, other: &Self) -> (r: bool)
        ensures
            r == (self.key_view() == other.key_view()),
    {
        if !(self.dimensions == other.dimensions) || self.fold_count.get() != other.fold_count.get()
            || self.stroke_count.get() != other.stroke_count.get() || !self.ink.same(other.ink) {
            return false;
        }
        if self.cells.len() != other.cells.len() {
            return false;
        }
        let mut i: usize = 0;
        while i < self.cells.len()
            invariant
                self.cells@.len() == other.cells@.len(),
                i <= self.cells@.len(),
                forall|k: int| 0 <= k < i ==> self.cells@[k] == other.cells@[k],
            decreases self.cells@.len() - i,
        {
            if !(self.cells[i] == other.cells[i]) {
                return false;
            }
            i = i + 1;
        }
        assert(self.cells@ =~= other.cells@);
        true
    }

    /// A 64-bit digest of the key that spreads keys over the buckets of the
    /// search's state table; which bucket a key lands in decides nothing, since
    /// the table compares keys with `same` before it treats two as one.
    pub(crate) fn digest(&self) -> (r: u64)
        ensures
            r == key_digest(self.key_view()),
    {
        let mut hash: u64 = DIGEST_OFFSET;
        let mut i: usize = 0;
        while i < self.cells.len()
            invariant
                i <= self.cells@.len(),
                hash == digest_cells(DIGEST_OFFSET, self.cells@, i as int),
            decreases self.cells@.len() - i,
        {
            let cell = self.cells[i];
            let face: u64 = match cell.face {
                Face::Front => 0,
                Face::Back => 1,
            };
            let turn: u64 = match cell.orientation {
                Orientation::North => 0,
                Orientation::East => 1,
                Orientation::South => 2,
                Orientation::West => 3,
            };
            let packed: u64 = cell.coordinate.row().get() as u64 * 0x1000000 + cell.coordinate.column().get() as u64
                * 0x10000 + cell.layer.get() as u64 * 0x100 + face * 0x10 + turn;
            assert(packed == cell_word(cell));
            hash = (hash ^ packed).wrapping_mul(DIGEST_PRIME);
            i = i + 1;
        }
        let ids = self.ink.cell_ids();
        let ghost cells_hash = hash;
        let mut j: usize = 0;
        while j < ids.len()
            invariant
                j <= ids@.len(),
                ids@ == self.ink.id_seq(),
                hash == digest_ids(cells_hash, ids@, j as int),
            decreases ids@.len() - j,
        {
            hash = (hash ^ (ids[j].get() as u64 + 0x100)).wrapping_mul(DIGEST_PRIME);
            j = j + 1;
        }
        hash = (hash ^ (self.fold_count.get() as u64 * 0x100 + self.stroke_count.get() as u64)).wrapping_mul(
            DIGEST_PRIME,
        );
        hash
    }
}

/// The starting value and the multiplier of the key digest.
pub const DIGEST_OFFSET: u64 = 0xcbf2_9ce4_8422_2325;
pub const DIGEST_PRIME: u64 = 0x0000_0100_0000_01b3;

/// One step of the digest: mix a word in and multiply, wrapping at 64 bits.
pub open spec fn digest_step(hash: u64, word: u64) -> u64 {
    (hash ^ word).wrapping_mul(DIGEST_PRIME)
}

/// A cell packed into one word: row, column, layer, face, and turn, a byte or a nibble each.
pub open spec fn cell_word(c: PhysicalCell) -> u64 {
    let face: int = match c.side() {
        Face::Front => 0,
        Face::Back => 1,
    };
    let turn: int = match c.turn() {
        Orientation::North => 0,
        Orientation::East => 1,
        Orientation::South => 2,
        Orientation::West => 3,
    };
    (c.at().r() * 0x1000000 + c.at().c() * 0x10000 + c.level() * 0x100 + face * 0x10 + turn) as u64
}

/// The digest after the first `n` cells.
pub open spec fn digest_cells(start: u64, cells: Seq<PhysicalCell>, n: int) -> u64
    decreases n,
{
    if n <= 0 {
        start
    } else {
        digest_step(digest_cells(start, cells, n - 1), cell_word(cells[n - 1]))
    }
}

/// The digest after the first `n` inked identities.
pub open spec fn digest_ids(start: u64, ids: Seq<CellId>, n: int) -> u64
    decreases n,
{
    if n <= 0 {
        start
    } else {
        digest_step(digest_ids(start, ids, n - 1), (ids[n - 1].value() + 0x100) as u64)
    }
}

/// The digest of a key: its cells, then its inked identities in order, then its counts.
pub open spec fn key_digest(k: (Dimensions, Seq<PhysicalCell>, InkPattern, int, int)) -> u64 {
    let cells = digest_cells(DIGEST_OFFSET, k.1, k.1.len() as int);
    let ink = digest_ids(cells, k.2.id_seq(), k.2.id_seq().len() as int);
    digest_step(ink, (k.3 * 0x100 + k.4) as u64)
}

fn copy_cells(cells: &Vec<PhysicalCell>) -> (r: Vec<PhysicalCell>)
    ensures
        r@ == cells@,
{
    let mut copy: Vec<PhysicalCell> = Vec::with_capacity(cells.len());
    let mut i: usize = 0;
    while i < cells.len()
        invariant
            i <= cells@.len(),
            copy@ == cells@.subrange(0, i as int),
        decreases cells@.len() - i,
    {
        copy.push(cells[i]);
        i = i + 1;
        assert(copy@ =~= cells@.subrange(0, i as int));
    }
    assert(copy@ =~= cells@);
    copy
}

/// A rectangular paper with its canonical physical cells, ink, budgets, and undo history.
#[derive(Clone, Debug, PartialEq, Eq)]
pub struct Paper {
    dimensions: Dimensions,
    budget: PaperBudget,
    cells: Vec<PhysicalCell>,
    ink: InkPattern,
    fold_count: FoldCount,
    stroke_count: StrokeCount,
    action_count: ActionCount,
    history: Vec<HistoryEntry>,
}

impl Paper {
    closed spec fn current(&self) -> PaperState {
        PaperState {
            cells: self.cells@,
            ink: self.ink.cells(),
            folds: self.fold_count.value() as int,
            strokes: self.stroke_count.value() as int,
            actions: self.action_count.value() as int,
        }
    }

    /// The abstract paper.
    pub closed spec fn model(&self) -> PaperModel {
        PaperModel {
            dims: self.dimensions,
            fold_limit: self.budget.folds,
            stroke_limit: self.budget.strokes,
            action_limit: self.budget.actions,
            state: self.current(),
            history: self.history@.map_values(|e: HistoryEntry| entry_model(e)),
        }
    }

    /// The invariant of a paper built and changed through its own methods.
    pub closed spec fn wf(&self) -> bool {
        &&& self.model().wf()
        &&& self.ink.dims() == self.dimensions
        &&& forall|k: int| 0 <= k < self.history@.len() ==> (#[trigger] self.history@[k]).before.ink.dims()
            == self.dimensions
    }

    /// The current ink, as a value.
    pub closed spec fn ink_value(&self) -> InkPattern {
        self.ink
    }

    pub proof fn lemma_wf(&self)
        requires
            self.wf(),
        ensures
            self.model().wf(),
            self.ink_value().dims() == self.model().dims,
            self.ink_value().cells() == self.model().state.ink,
    {
    }

    /// Constructs a validated rectangular paper in row-major identity order.
    pub fn new(spec: PaperSpec) -> (r: Result<Self, PaperError>)
        ensures
            r is Ok <==> paper_spec_error(spec) is None,
            r matches Err(e) ==> paper_spec_error(spec) == Some(e),
            r matches Ok(p) ==> {
                &&& p.wf()
                &&& p.model() == PaperModel::fresh(p.model().dims, p.model().fold_limit, p.model().stroke_limit, p.model().action_limit)
                &&& p.model().dims.w() == spec.view_tuple().0
                &&& p.model().dims.h() == spec.view_tuple().1
                &&& p.model().fold_limit.value() == spec.view_tuple().2
                &&& p.model().stroke_limit.value() == spec.view_tuple().3
                &&& p.model().action_limit.value() == spec.view_tuple().4
            },
    {
        let dimensions = Dimensions::new(spec.width, spec.height)?;
        let budget = PaperBudget::from_spec(spec)?;
        let cell_count = dimensions.cell_count();
        let mut cells: Vec<PhysicalCell> = Vec::with_capacity(cell_count);
        let mut index: usize = 0;
        while index < cell_count
            invariant
                index <= cell_count,
                cell_count as int == dimensions.cells_len(),
                dimensions.wf(),
                cells@.len() == index,
                forall|j: int| 0 <= j < index ==> cells@[j] == #[trigger] fresh_cells(dimensions)[j],
            decreases cell_count - index,
        {
            proof {
                dimensions.lemma_wf();
            }
            let cell_id = CellId::from_index(index);
            let coordinate = match dimensions.original_coordinate(cell_id) {
                Ok(coordinate) => coordinate,
                Err(error) => return Err(error),
            };
            let cell = PhysicalCell {
                coordinate,
                layer: Layer::bottom(),
                face: Face::Front,
                orientation: Orientation::North,
            };
            proof {
                dimensions.lemma_index_of(coordinate);
                lemma_coordinate_of_self(coordinate);
                assert(cell == fresh_cells(dimensions)[index as int]);
            }
            cells.push(cell);
            index = index + 1;
        }
        let ink = InkPattern::empty(dimensions);
        let paper = Paper {
            dimensions,
            budget,
            cells,
            ink,
            fold_count: FoldCount::zero(),
            stroke_count: StrokeCount::zero(),
            action_count: ActionCount::zero(),
            history: Vec::new(),
        };
        proof {
            assert(paper.cells@ =~= fresh_cells(dimensions));
            assert(paper.model().history =~= Seq::<(PaperState, PaperAction)>::empty());
            assert(paper.model() == PaperModel::fresh(dimensions, budget.folds, budget.strokes, budget.actions));
            lemma_fresh_wf(dimensions, budget.folds, budget.strokes, budget.actions);
        }
        Ok(paper)
    }

    pub fn dimensions(&self) -> (r: Dimensions)
        ensures
            r == self.model().dims,
    {
        self.dimensions
    }

    pub fn fold_count(&self) -> (r: FoldCount)
        ensures
            r.value() as int == self.model().state.folds,
    {
        self.fold_count
    }

    pub fn stroke_count(&self) -> (r: StrokeCount)
        ensures
            r.value() as int == self.model().state.strokes,
    {
        self.stroke_count
    }

    pub fn action_count(&self) -> (r: ActionCount)
        ensures
            r.value() as int == self.model().state.actions,
    {
        self.action_count
    }

    pub fn history_len(&self) -> (r: ActionCount)
        requires
            self.wf(),
        ensures
            r.value() as int == self.model().history.len(),
    {
        ActionCount::from_history_len(self.history.len())
    }

    pub fn ink(&self) -> (r: InkPattern)
        ensures
            r == self.ink_value(),
            r.cells() == self.model().state.ink,
    {
        self.ink
    }

    /// The fold budget, stroke budget, and action budget.
    pub fn budgets(&self) -> (r: (FoldCount, StrokeCount, ActionCount))
        ensures
            r == (self.model().fold_limit, self.model().stroke_limit, self.model().action_limit),
    {
        (self.budget.folds, self.budget.strokes, self.budget.actions)
    }

    pub fn state_key(&self) -> (r: PaperStateKey)
        ensures
            r.key_view() == (self.model().dims, self.model().state.cells, self.ink_value(), self.model().state.folds,
                self.model().state.strokes),
    {
        PaperStateKey {
            dimensions: self.dimensions,
            cells: copy_cells(&self.cells),
            ink: self.ink,
            fold_count: self.fold_count,
            stroke_count: self.stroke_count,
        }
    }

    /// The successful actions, oldest first.
    pub fn actions(&self) -> (r: Vec<PaperAction>)
        ensures
            r@.len() == self.model().history.len(),
            forall|k: int| 0 <= k < r@.len() ==> r@[k] == #[trigger] self.model().history[k].1,
    {
        let mut actions: Vec<PaperAction> = Vec::new();
        let mut i: usize = 0;
        while i < self.history.len()
            invariant
                i <= self.history@.len(),
                actions@.len() == i,
                forall|k: int| 0 <= k < i ==> actions@[k] == #[trigger] self.history@[k].action,
            decreases self.history@.len() - i,
        {
            actions.push(self.history[i].action);
            i = i + 1;
        }
        actions
    }

    /// Every physical-cell identity of this paper, in order.
    pub fn cell_ids(&self) -> (r: Vec<CellId>)
        requires
            self.wf(),
        ensures
            r@.len() == self.model().state.cells.len(),
            forall|k: int| 0 <= k < r@.len() ==> (#[trigger] r@[k]).value() as int == k,
    {
        proof {
            self.dimensions.lemma_wf();
        }
        let mut ids: Vec<CellId> = Vec::new();
        let mut i: usize = 0;
        while i < self.cells.len()
            invariant
                i <= self.cells@.len(),
                self.cells@.len() <= 144,
                ids@.len() == i,
                forall|k: int| 0 <= k < i ==> (#[trigger] ids@[k]).value() as int == k,
            decreases self.cells@.len() - i,
        {
            ids.push(CellId::from_index(i));
            i = i + 1;
        }
        ids
    }

    pub fn physical_cell(&self, cell_id: CellId) -> (r: Option<PhysicalCell>)
        ensures
            (cell_id.value() as int) < self.model().state.cells.len() ==> r == Some(
                self.model().state.cells[cell_id.value() as int],
            ),
            (cell_id.value() as int) >= self.model().state.cells.len() ==> r is None,
    {
        let index = cell_id.index();
        if index < self.cells.len() {
            Some(self.cells[index])
        } else {
            None
        }
    }

    /// The number of cells stacked at a coordinate, with their identities added to `ink`.
    fn ink_stack(&self, coordinate: Coordinate, ink: &mut InkPattern) -> (r: usize)
        requires
            self.wf(),
            old(ink).dims() == self.model().dims,
        ensures
            r == height_at(self.model().state.cells, coordinate),
            final(ink).dims() == old(ink).dims(),
            final(ink).cells() == old(ink).cells().union(ids_at(self.model().state.cells, coordinate)),
    {
        let ghost cells = self.cells@;
        let ghost start = old(ink).cells();
        proof {
            self.dimensions.lemma_wf();
        }
        let mut count: usize = 0;
        let mut j: usize = 0;
        while j < self.cells.len()
            invariant
                cells == self.cells@,
                j <= cells.len(),
                cells.len() == self.dimensions.cells_len(),
                cells.len() <= 144,
                ink.dims() == self.dimensions,
                count as int == count_where(j as int, at_pred(cells, coordinate)),
                count <= j,
                ink.cells() == start.union(Set::new(|x: int| 0 <= x < j && cells[x].at() == coordinate)),
            decreases cells.len() - j,
        {
            let cell = self.cells[j];
            if cell.coordinate.same(coordinate) {
                ink.insert(CellId::from_index(j));
                count = count + 1;
            }
            proof {
                assert(ink.cells() =~= start.union(Set::new(|x: int| 0 <= x < j + 1 && cells[x].at() == coordinate)));
            }
            j = j + 1;
        }
        assert(ink.cells() =~= start.union(ids_at(cells, coordinate)));
        count
    }

    /// Derives one bottom-to-top stack view into caller-owned storage.
    pub fn stack_at(&self, coordinate: Coordinate, stack: &mut StackView) -> (r: Result<(), PaperError>)
        requires
            self.wf(),
        ensures
            r is Ok <==> self.model().dims.contains(coordinate),
            r matches Err(e) ==> e == self.model().dims.outside_error(coordinate) && *final(stack) == *old(stack),
            r is Ok ==> final(stack).ids().len() == height_at(self.model().state.cells, coordinate),
            r is Ok ==> forall|k: int| 0 <= k < final(stack).ids().len() ==> {
                let id = (#[trigger] final(stack).ids()[k]).value() as int;
                &&& 0 <= id < self.model().state.cells.len()
                &&& self.model().state.cells[id].at() == coordinate
                &&& self.model().state.cells[id].level() == k
            },
    {
        self.dimensions.validate_coordinate(coordinate)?;
        let ghost cells = self.cells@;
        let mut scratch = self.ink;
        let count = self.ink_stack(coordinate, &mut scratch);
        proof {
            self.dimensions.lemma_wf();
            lemma_count_bounds(cells.len() as int, at_pred(cells, coordinate));
        }
        let mut ids: Vec<CellId> = Vec::new();
        let mut k: usize = 0;
        while k < count
            invariant
                k <= count,
                count <= 144,
                ids@.len() == k,
            decreases count - k,
        {
            ids.push(CellId::from_index(0));
            k = k + 1;
        }
        let mut j: usize = 0;
        while j < self.cells.len()
            invariant
                cells == self.cells@,
                self.wf(),
                self.dimensions.contains(coordinate),
                j <= cells.len(),
                cells.len() <= 144,
                count as int == height_at(cells, coordinate),
                ids@.len() == count,
                forall|x: int| 0 <= x < j && cells[x].at() == coordinate ==> (#[trigger] ids@[cells[x].level()]).value() as int == x,
            decreases cells.len() - j,
        {
            let cell = self.cells[j];
            if cell.coordinate.same(coordinate) {
                proof {
                    assert(0 <= cells[j as int].level() < height_at(cells, cells[j as int].at()));
                }
                let layer = cell.layer.get() as usize;
                ids[layer] = CellId::from_index(j);
                proof {
                    assert forall|x: int| 0 <= x < j + 1 && cells[x].at() == coordinate implies (#[trigger] ids@[cells[x].level()]).value() as int == x by {
                        if x < j {
                            assert(cells[x].level() != cells[j as int].level());
                        }
                    }
                }
            }
            j = j + 1;
        }
        proof {
            assert forall|k: int| 0 <= k < ids@.len() implies {
                let id = (#[trigger] ids@[k]).value() as int;
                &&& 0 <= id < cells.len()
                &&& cells[id].at() == coordinate
                &&& cells[id].level() == k
            } by {
                assert(has_layer(cells, coordinate, k));
                let x = choose|x: int| 0 <= x < cells.len() && #[trigger] cells[x].at() == coordinate && cells[x].level() == k;
                assert(ids@[cells[x].level()].value() as int == x);
            }
        }
        stack.cell_ids = ids;
        Ok(())
    }

    fn validate_action_budget(&self) -> (r: Result<(), PaperError>)
        ensures
            r is Ok <==> self.model().state.actions < self.model().action_limit.value(),
            r matches Err(e) ==> e == (PaperError::ActionBudgetExhausted { limit: self.model().action_limit }),
    {
        if self.action_count.get() >= self.budget.actions.get() {
            return Err(PaperError::ActionBudgetExhausted { limit: self.budget.actions });
        }
        Ok(())
    }

    fn validate_fold_budget(&self) -> (r: Result<(), PaperError>)
        ensures
            r is Ok <==> (self.model().state.folds < self.model().fold_limit.value()
                && self.model().state.actions < self.model().action_limit.value()),
            r matches Err(e) ==> if self.model().state.folds >= self.model().fold_limit.value() {
                e == (PaperError::FoldBudgetExhausted { limit: self.model().fold_limit })
            } else {
                e == (PaperError::ActionBudgetExhausted { limit: self.model().action_limit })
            },
    {
        if self.fold_count.get() >= self.budget.folds.get() {
            return Err(PaperError::FoldBudgetExhausted { limit: self.budget.folds });
        }
        self.validate_action_budget()
    }

    fn validate_stroke_budget(&self) -> (r: Result<(), PaperError>)
        ensures
            r is Ok <==> self.model().stroke_budget_error() is None,
            r matches Err(e) ==> self.model().stroke_budget_error() == Some(e),
    {
        if self.stroke_count.get() >= self.budget.strokes.get() {
            return Err(PaperError::StrokeBudgetExhausted { limit: self.budget.strokes });
        }
        self.validate_action_budget()
    }

    /// Records the current state and the action about to change it.
    fn remember(&mut self, action: PaperAction)
        requires
            old(self).history@.len() < 64,
        ensures
            final(self).history@.len() == old(self).history@.len() + 1,
            forall|k: int| 0 <= k < old(self).history@.len() ==> final(self).history@[k] == old(self).history@[k],
            entry_model(final(self).history@.last()) == (old(self).current(), action),
            final(self).history@.last().before.ink == old(self).ink,
            final(self).dimensions == old(self).dimensions,
            final(self).budget == old(self).budget,
            final(self).cells == old(self).cells,
            final(self).ink == old(self).ink,
            final(self).fold_count == old(self).fold_count,
            final(self).stroke_count == old(self).stroke_count,
            final(self).action_count == old(self).action_count,
    {
        let before = Snapshot {
            cells: copy_cells(&self.cells),
            ink: self.ink,
            fold_count: self.fold_count,
            stroke_count: self.stroke_count,
            action_count: self.action_count,
        };
        self.history.push(HistoryEntry { before, action });
    }

    proof fn lemma_remembered(old_paper: &Paper, new_paper: &Paper, a: PaperAction, s: PaperState)
        requires
            old_paper.wf(),
            new_paper.history@.len() == old_paper.history@.len() + 1,
            forall|k: int| 0 <= k < old_paper.history@.len() ==> new_paper.history@[k] == old_paper.history@[k],
            entry_model(new_paper.history@.last()) == (old_paper.current(), a),
            new_paper.history@.last().before.ink == old_paper.ink,
            new_paper.dimensions == old_paper.dimensions,
            new_paper.budget == old_paper.budget,
            new_paper.current() == s,
            new_paper.ink.dims() == old_paper.dimensions,
            old_paper.model().apply_step(a) == Ok::<PaperModel, PaperError>(old_paper.model().after(s, a)),
        ensures
            new_paper.model() == old_paper.model().after(s, a),
            new_paper.wf(),
    {
        assert(new_paper.model().history =~= old_paper.model().history.push((old_paper.current(), a)));
        lemma_apply_keeps_wf(old_paper.model(), a);
        assert forall|k: int| 0 <= k < new_paper.history@.len() implies (#[trigger] new_paper.history@[k]).before.ink.dims()
            == new_paper.dimensions by {
            if k < old_paper.history@.len() {
                assert(new_paper.history@[k] == old_paper.history@[k]);
            }
        }
    }

    /// Applies a validated paper action.
    pub fn apply(&mut self, action: PaperAction) -> (r: Result<(), PaperError>)
        requires
            old(self).wf(),
        ensures
            final(self).wf(),
            old(self).model().apply_step(action) matches Ok(m) ==> r is Ok && final(self).model() == m,
            old(self).model().apply_step(action) matches Err(e) ==> r == Err::<(), PaperError>(e) && *final(self)
                == *old(self),
    {
        match action {
            PaperAction::Fold(fold) => self.fold(fold),
            PaperAction::Dot(coordinate) => self.stamp_dot(coordinate),
            PaperAction::Line(line) => self.stamp_line(line),
        }
    }

    /// Applies one vertical or horizontal fold on a cell boundary.
    pub fn fold(&mut self, fold: Fold) -> (r: Result<(), PaperError>)
        requires
            old(self).wf(),
        ensures
            final(self).wf(),
            old(self).model().fold_step(fold) matches Ok(m) ==> r is Ok && final(self).model() == m,
            old(self).model().fold_step(fold) matches Err(e) ==> r == Err::<(), PaperError>(e) && *final(self)
                == *old(self),
    {
        let ghost d = self.dimensions;
        let ghost cells0 = self.cells@;
        let ghost start = *self;
        proof {
            d.lemma_wf();
        }
        let axis = fold.direction().axis();
        let (w, h) = self.dimensions.bounds();
        let extent = match axis {
            FoldAxis::Vertical => w,
            FoldAxis::Horizontal => h,
        };
        validate_crease(axis, fold.crease(), extent)?;
        self.validate_fold_budget()?;

        let mut stationary_counts = [0u8; 144];
        let mut moving_counts = [0u8; 144];
        let mut moving_cell_count: usize = 0;
        let n = self.cells.len();
        proof {
            assert forall|c: Coordinate| d.contains(c) implies #[trigger] stationary_counts@[d.index_of(c)] == 0
                && moving_counts@[d.index_of(c)] == 0 by {
                d.lemma_index_of(c);
            }
        }
        let mut i: usize = 0;
        while i < n
            invariant
                *self == start,
                start == *old(self),
                start.model().state.folds < start.model().fold_limit.value(),
                start.model().state.actions < start.model().action_limit.value(),
                self.wf(),
                self.dimensions == d,
                self.cells@ == cells0,
                d.wf(),
                n == cells0.len(),
                n == d.cells_len(),
                n <= 144,
                extent as int == fold_extent(d, fold),
                1 <= fold.cr() < extent,
                i <= n,
                forall|j: int| 0 <= j < i ==> !#[trigger] leaves_at(d, cells0, fold, j),
                moving_cell_count as int == count_where(i as int, moving_pred(cells0, fold)),
                forall|c: Coordinate| d.contains(c) ==> #[trigger] stationary_counts@[d.index_of(c)] as int
                    == count_where(i as int, stationary_at(cells0, fold, c)),
                forall|c: Coordinate| d.contains(c) ==> #[trigger] moving_counts@[d.index_of(c)] as int
                    == count_where(i as int, moving_to(cells0, fold, c)),
                forall|k: int| 0 <= k < 144 ==> #[trigger] stationary_counts@[k] <= i,
                forall|k: int| 0 <= k < 144 ==> #[trigger] moving_counts@[k] <= i,
            decreases n - i,
        {
            let cell = self.cells[i];
            proof {
                assert(d.contains(cells0[i as int].at()));
                lemma_count_bounds(i as int, moving_pred(cells0, fold));
            }
            if is_on_moving_side(cell.coordinate, fold) {
                moving_cell_count = moving_cell_count + 1;
                let destination = match reflected_coordinate(cell.coordinate, fold, self.dimensions) {
                    Ok(destination) => destination,
                    Err(error) => {
                        proof {
                            assert(first_leaving(d, cells0, fold, i as int));
                            let j = choose|j: int| #[trigger] first_leaving(d, cells0, fold, j);
                            assert(j == i) by {
                                if j < i {
                                    assert(!leaves_at(d, cells0, fold, j));
                                }
                                if j > i {
                                    assert(!leaves_at(d, cells0, fold, i as int));
                                }
                            }
                        }
                        return Err(error);
                    },
                };
                let index = self.dimensions.coordinate_index(destination);
                let ghost old_counts = moving_counts;
                moving_counts[index] = moving_counts[index] + 1;
                proof {
                    assert forall|c: Coordinate| d.contains(c) implies #[trigger] moving_counts@[d.index_of(c)] as int
                        == count_where(i + 1, moving_to(cells0, fold, c)) by {
                        Coordinate::lemma_eq(c, destination);
                        d.lemma_index_of(c);
                        d.lemma_index_of(destination);
                        if d.index_of(c) == d.index_of(destination) {
                            d.lemma_index_injective(c, destination);
                        }
                        assert(old_counts@[d.index_of(c)] as int == count_where(i as int, moving_to(cells0, fold, c)));
                    }
                    assert forall|c: Coordinate| d.contains(c) implies #[trigger] stationary_counts@[d.index_of(c)] as int
                        == count_where(i + 1, stationary_at(cells0, fold, c)) by {
                    }
                }
            } else {
                let index = self.dimensions.coordinate_index(cell.coordinate);
                let ghost old_counts = stationary_counts;
                stationary_counts[index] = stationary_counts[index] + 1;
                proof {
                    assert forall|c: Coordinate| d.contains(c) implies #[trigger] stationary_counts@[d.index_of(c)] as int
                        == count_where(i + 1, stationary_at(cells0, fold, c)) by {
                        d.lemma_index_of(c);
                        d.lemma_index_of(cells0[i as int].at());
                        if d.index_of(c) == d.index_of(cells0[i as int].at()) {
                            d.lemma_index_injective(c, cells0[i as int].at());
                        }
                        assert(old_counts@[d.index_of(c)] as int == count_where(i as int, stationary_at(cells0, fold, c)));
                    }
                    assert forall|c: Coordinate| d.contains(c) implies #[trigger] moving_counts@[d.index_of(c)] as int
                        == count_where(i + 1, moving_to(cells0, fold, c)) by {
                    }
                }
            }
            i = i + 1;
        }

        proof {
            assert(!exists|j: int| #[trigger] first_leaving(d, cells0, fold, j));
            lemma_count_bounds(n as int, moving_pred(cells0, fold));
        }
        if moving_cell_count == 0 {
            proof {
                assert forall|j: int| 0 <= j < n implies !moves(#[trigger] cells0[j].at(), fold) by {
                    assert(!moving_pred(cells0, fold)(j));
                }
            }
            return Err(PaperError::EmptyMovingSide { direction: fold.direction() });
        }
        proof {
            lemma_count_witness(n as int, moving_pred(cells0, fold));
        }

        let ghost before = *self;
        self.remember(PaperAction::Fold(fold));
        let ghost remembered = *self;
        let mut i: usize = 0;
        while i < n
            invariant
                before.wf(),
                before.dimensions == d,
                before.cells@ == cells0,
                d.wf(),
                n == cells0.len(),
                n == d.cells_len(),
                n <= 144,
                1 <= fold.cr() < fold_extent(d, fold),
                axis == fold.dir().spec_axis(),
                forall|j: int| 0 <= j < n ==> !#[trigger] leaves_at(d, cells0, fold, j),
                forall|c: Coordinate| d.contains(c) ==> #[trigger] stationary_counts@[d.index_of(c)] as int
                    == count_where(n as int, stationary_at(cells0, fold, c)),
                forall|c: Coordinate| d.contains(c) ==> #[trigger] moving_counts@[d.index_of(c)] as int
                    == count_where(n as int, moving_to(cells0, fold, c)),
                i <= n,
                self.cells@.len() == n,
                forall|j: int| 0 <= j < i ==> self.cells@[j] == #[trigger] folded_cells(cells0, fold)[j],
                forall|j: int| i <= j < n ==> #[trigger] self.cells@[j] == cells0[j],
                self.dimensions == d,
                self.budget == remembered.budget,
                self.ink == remembered.ink,
                self.fold_count == remembered.fold_count,
                self.stroke_count == remembered.stroke_count,
                self.action_count == remembered.action_count,
                self.history == remembered.history,
            decreases n - i,
        {
            let cell = self.cells[i];
            proof {
                lemma_folded_cell(d, cells0, fold, i as int);
            }
            proof {
                assert(d.contains(cells0[i as int].at()));
                assert(!leaves_at(d, cells0, fold, i as int));
            }
            if is_on_moving_side(cell.coordinate, fold) {
                let ghost s = cells0[i as int].at();
                let destination = mirror(cell.coordinate, fold, self.dimensions);
                let index = self.dimensions.coordinate_index(destination);
                proof {
                    d.lemma_index_of(destination);
                    lemma_moving_count(cells0, fold, s, destination);
                    lemma_stationary_count(cells0, fold, destination);
                    assert(moving_counts@[d.index_of(destination)] as int == height_at(cells0, s));
                    assert(stationary_counts@[d.index_of(destination)] as int == height_at(cells0, destination));
                    assert(0 <= cells0[i as int].level() < height_at(cells0, s));
                }
                let reversed = moving_counts[index] - 1 - cell.layer.get();
                let new_layer = stationary_counts[index] + reversed;
                let moved = PhysicalCell {
                    coordinate: destination,
                    layer: Layer::from_index(new_layer),
                    face: cell.face.flipped(),
                    orientation: cell.orientation.folded_across(axis),
                };
                proof {
                    assert(moved == folded_cells(cells0, fold)[i as int]);
                }
                self.cells[i] = moved;
            }
            i = i + 1;
        }
        self.fold_count = self.fold_count.increment(self.budget.folds);
        self.action_count = self.action_count.increment(self.budget.actions);
        proof {
            assert(self.cells@ =~= folded_cells(cells0, fold));
            let s = PaperState {
                cells: folded_cells(cells0, fold),
                folds: before.model().state.folds + 1,
                actions: before.model().state.actions + 1,
                ..before.model().state
            };
            assert(self.current() == s);
            Paper::lemma_remembered(&before, &*self, PaperAction::Fold(fold), s);
        }
        Ok(())
    }

    /// Applies a dot through every physical cell at one visible position.
    pub fn stamp_dot(&mut self, coordinate: Coordinate) -> (r: Result<(), PaperError>)
        requires
            old(self).wf(),
        ensures
            final(self).wf(),
            old(self).model().dot_step(coordinate) matches Ok(m) ==> r is Ok && final(self).model() == m,
            old(self).model().dot_step(coordinate) matches Err(e) ==> r == Err::<(), PaperError>(e) && *final(self)
                == *old(self),
    {
        self.dimensions.validate_coordinate(coordinate)?;
        self.validate_stroke_budget()?;
        let mut ink = self.ink;
        let count = self.ink_stack(coordinate, &mut ink);
        if count == 0 {
            return Err(PaperError::EmptyBrushPosition { coordinate });
        }
        let ghost before = *self;
        self.remember(PaperAction::Dot(coordinate));
        self.ink = ink;
        self.stroke_count = self.stroke_count.increment(self.budget.strokes);
        self.action_count = self.action_count.increment(self.budget.actions);
        proof {
            let s = PaperState {
                ink: before.model().state.ink.union(ids_at(before.model().state.cells, coordinate)),
                strokes: before.model().state.strokes + 1,
                actions: before.model().state.actions + 1,
                ..before.model().state
            };
            assert(self.current() == s);
            Paper::lemma_remembered(&before, &*self, PaperAction::Dot(coordinate), s);
        }
        Ok(())
    }

    /// Applies one inclusive horizontal or vertical line through occupied stacks.
    pub fn stamp_line(&mut self, line: LineStroke) -> (r: Result<(), PaperError>)
        requires
            old(self).wf(),
        ensures
            final(self).wf(),
            old(self).model().line_step(line) matches Ok(m) ==> r is Ok && final(self).model() == m,
            old(self).model().line_step(line) matches Err(e) ==> r == Err::<(), PaperError>(e) && *final(self)
                == *old(self),
    {
        self.dimensions.validate_coordinate(line.start())?;
        self.dimensions.validate_coordinate(line.end())?;
        self.validate_stroke_budget()?;
        let (_, length) = line.axis_and_length()?;
        let ghost cells = self.cells@;
        let ghost start = *self;
        let mut ink = self.ink;
        assert(ink.cells() =~= self.ink.cells().union(line_ids(cells, line, 0)));
        let mut offset: u8 = 0;
        while offset < length
            invariant
                *self == start,
                start == *old(self),
                self.model().dims.contains(line.start_value()),
                self.model().dims.contains(line.end_value()),
                self.model().stroke_budget_error() is None,
                self.wf(),
                self.cells@ == cells,
                line.spec_axis_and_length() is Ok,
                length == line.spec_axis_and_length()->Ok_0.1,
                offset <= length,
                ink.dims() == self.dimensions,
                ink.cells() == self.ink.cells().union(line_ids(cells, line, offset as int)),
                forall|k: int| 0 <= k < offset ==> height_at(cells, #[trigger] line.at(k)) > 0,
            decreases length - offset,
        {
            let coordinate = line.coordinate_at(offset);
            let ghost previous = ink.cells();
            let count = self.ink_stack(coordinate, &mut ink);
            if count == 0 {
                proof {
                    assert(first_empty_offset(cells, line, length as int, offset as int));
                    let o = choose|o: int| #[trigger] first_empty_offset(cells, line, length as int, o);
                    assert(o == offset) by {
                        if o < offset {
                            assert(height_at(cells, line.at(o)) > 0);
                        }
                    }
                }
                return Err(PaperError::EmptyBrushPosition { coordinate });
            }
            proof {
                assert forall|j: int| #[trigger] line_ids(cells, line, offset + 1).contains(j)
                    == (line_ids(cells, line, offset as int).contains(j) || ids_at(cells, coordinate).contains(j)) by {
                    if line_ids(cells, line, offset + 1).contains(j) {
                        let o = choose|o: int| 0 <= o < offset + 1 && #[trigger] line.at(o) == cells[j].at();
                        if o < offset {
                            assert(line_ids(cells, line, offset as int).contains(j));
                        }
                    }
                    if line_ids(cells, line, offset as int).contains(j) {
                        let o = choose|o: int| 0 <= o < offset && #[trigger] line.at(o) == cells[j].at();
                        assert(line.at(o) == cells[j].at());
                    }
                    if ids_at(cells, coordinate).contains(j) {
                        assert(line.at(offset as int) == cells[j].at());
                    }
                }
                assert(ink.cells() =~= self.ink.cells().union(line_ids(cells, line, offset + 1)));
            }
            offset = offset + 1;
        }
        proof {
            assert(!exists|o: int| #[trigger] first_empty_offset(cells, line, length as int, o));
        }
        let ghost before = *self;
        self.remember(PaperAction::Line(line));
        self.ink = ink;
        self.stroke_count = self.stroke_count.increment(self.budget.strokes);
        self.action_count = self.action_count.increment(self.budget.actions);
        proof {
            let s = PaperState {
                ink: before.model().state.ink.union(line_ids(cells, line, length as int)),
                strokes: before.model().state.strokes + 1,
                actions: before.model().state.actions + 1,
                ..before.model().state
            };
            assert(self.current() == s);
            Paper::lemma_remembered(&before, &*self, PaperAction::Line(line), s);
        }
        Ok(())
    }

    /// Compares ink against every original physical cell.
    pub fn compare_ink(&self, target: InkPattern) -> (r: Result<InkComparison, PaperError>)
        requires
            self.wf(),
        ensures
            r is Ok <==> target.dims() == self.model().dims,
            r matches Err(e) ==> e == (PaperError::TargetDimensionsDiffer { paper: self.model().dims, target: target.dims() }),
            r matches Ok(c) ==> {
                &&& c.missing_cells().dims() == target.dims()
                &&& c.extra_cells().dims() == self.model().dims
                &&& c.missing_cells().cells() == target.cells().difference(self.model().state.ink)
                &&& c.extra_cells().cells() == self.model().state.ink.difference(target.cells())
                &&& c.exact() <==> self.model().state.ink == target.cells()
            },
    {
        if !(self.dimensions == target.dimensions()) {
            return Err(PaperError::TargetDimensionsDiffer { paper: self.dimensions, target: target.dimensions() });
        }
        let missing = target.difference(self.ink);
        let extra = self.ink.difference(target);
        let comparison = InkComparison::new(missing, extra);
        proof {
            let a = self.model().state.ink;
            let b = target.cells();
            if comparison.exact() {
                assert forall|x: int| a.contains(x) == b.contains(x) by {
                    assert(!missing.cells().contains(x));
                    assert(!extra.cells().contains(x));
                }
                assert(a =~= b);
            }
            if a == b {
                assert(missing.cells() =~= Set::<int>::empty());
                assert(extra.cells() =~= Set::<int>::empty());
            }
        }
        Ok(comparison)
    }

    /// Restores the complete canonical state before the most recent action.
    pub fn undo(&mut self) -> (r: Result<(), PaperError>)
        requires
            old(self).wf(),
        ensures
            final(self).wf(),
            old(self).model().undo_step() matches Ok(m) ==> r is Ok && final(self).model() == m,
            old(self).model().undo_step() matches Err(e) ==> r == Err::<(), PaperError>(e) && *final(self)
                == *old(self),
    {
        if self.history.len() == 0 {
            return Err(PaperError::NothingToUndo);
        }
        let ghost before = *self;
        let entry = match self.history.pop() {
            Some(entry) => entry,
            None => return Err(PaperError::NothingToUndo),
        };
        self.cells = entry.before.cells;
        self.ink = entry.before.ink;
        self.fold_count = entry.before.fold_count;
        self.stroke_count = entry.before.stroke_count;
        self.action_count = entry.before.action_count;
        proof {
            let k = before.history@.len() - 1;
            assert(entry == before.history@[k]);
            assert(self.model().history =~= before.model().history.drop_last());
            assert(self.current() == before.model().history.last().0);
            assert(self.model() == before.model().undo_step()->Ok_0);
            lemma_undo_keeps_wf(before.model());
            assert forall|j: int| 0 <= j < self.history@.len() implies (#[trigger] self.history@[j]).before.ink.dims()
                == self.dimensions by {
                assert(self.history@[j] == before.history@[j]);
            }
        }
        Ok(())
    }

    /// Restores the fresh uninked paper and clears the action history.
    pub fn reset(&mut self)
        requires
            old(self).wf(),
        ensures
            final(self).wf(),
            final(self).model() == old(self).model().reset_step(),
    {
        let ghost d = self.dimensions;
        let ghost start = *self;
        let count = self.cells.len();
        proof {
            d.lemma_wf();
        }
        let mut index: usize = 0;
        while index < count
            invariant
                self.dimensions == d,
                self.budget == start.budget,
                start.dimensions == d,
                d.wf(),
                count == d.cells_len(),
                count <= 144,
                self.cells@.len() == count,
                index <= count,
                forall|j: int| 0 <= j < index ==> self.cells@[j] == #[trigger] fresh_cells(d)[j],
            decreases count - index,
        {
            let cell_id = CellId::from_index(index);
            let coordinate = match self.dimensions.original_coordinate(cell_id) {
                Ok(coordinate) => coordinate,
                Err(_) => self.cells[index].coordinate,
            };
            let cell = PhysicalCell {
                coordinate,
                layer: Layer::bottom(),
                face: Face::Front,
                orientation: Orientation::North,
            };
            proof {
                d.lemma_index_of(coordinate);
                lemma_coordinate_of_self(coordinate);
                assert(cell == fresh_cells(d)[index as int]);
            }
            self.cells[index] = cell;
            index = index + 1;
        }
        self.ink = InkPattern::empty(self.dimensions);
        self.fold_count = FoldCount::zero();
        self.stroke_count = StrokeCount::zero();
        self.action_count = ActionCount::zero();
        self.history.clear();
        proof {
            assert(self.cells@ =~= fresh_cells(d));
            assert(self.model().history =~= Seq::<(PaperState, PaperAction)>::empty());
            assert(self.model() == old(self).model().reset_step());
            lemma_reset_keeps_wf(old(self).model());
        }
    }
}

fn validate_crease(axis: FoldAxis, crease: u8, extent: u8) -> (r: Result<(), PaperError>)
    ensures
        r is Ok <==> (crease != 0 && crease < extent),
        r matches Err(e) ==> e == (PaperError::CreaseOutsidePaper { axis, crease, extent }),
{
    if crease == 0 || crease >= extent {
        return Err(PaperError::CreaseOutsidePaper { axis, crease, extent });
    }
    Ok(())
}

fn is_on_moving_side(coordinate: Coordinate, fold: Fold) -> (r: bool)
    ensures
        r == moves(coordinate, fold),
{
    let row = coordinate.row().get();
    let column = coordinate.column().get();
    match fold.direction() {
        FoldDirection::Left => column >= fold.crease(),
        FoldDirection::Right => column < fold.crease(),
        FoldDirection::Up => row >= fold.crease(),
        FoldDirection::Down => row < fold.crease(),
    }
}

fn reflect_index(index: u8, crease: u8, extent: u8, direction: FoldDirection) -> (r: Result<u8, PaperError>)
    ensures
        r is Ok <==> 0 <= 2 * crease - 1 - index < extent,
        r matches Ok(v) ==> v == 2 * crease - 1 - index,
        r matches Err(e) ==> e == (PaperError::FoldLeavesPaper { direction, crease, index, extent }),
{
    let reflected: i16 = crease as i16 * 2 - 1 - index as i16;
    if reflected < 0 || reflected >= extent as i16 {
        return Err(PaperError::FoldLeavesPaper { direction, crease, index, extent });
    }
    Ok(reflected as u8)
}

/// The mirror image of a moving coordinate, or why it leaves the paper.
fn reflected_coordinate(coordinate: Coordinate, fold: Fold, dimensions: Dimensions) -> (r: Result<Coordinate, PaperError>)
    requires
        dimensions.contains(coordinate),
    ensures
        r is Ok <==> 0 <= 2 * fold.cr() - 1 - moving_index(coordinate, fold) < fold_extent(dimensions, fold),
        r matches Ok(c) ==> c == reflected(coordinate, fold) && dimensions.contains(c)
            && c.r() == reflected_row(coordinate, fold) && c.c() == reflected_col(coordinate, fold),
        r matches Err(e) ==> e == (PaperError::FoldLeavesPaper {
            direction: fold.dir(),
            crease: fold.cr(),
            index: moving_index(coordinate, fold) as u8,
            extent: fold_extent(dimensions, fold) as u8,
        }),
{
    let (w, h) = dimensions.bounds();
    let row = coordinate.row().get();
    let column = coordinate.column().get();
    let r = match fold.direction().axis() {
        FoldAxis::Vertical => {
            let column = reflect_index(column, fold.crease(), w, fold.direction())?;
            dimensions.coordinate(row, column)
        },
        FoldAxis::Horizontal => {
            let row = reflect_index(row, fold.crease(), h, fold.direction())?;
            dimensions.coordinate(row, column)
        },
    };
    proof {
        if let Ok(c) = r {
            lemma_coordinate_of_self(c);
        }
    }
    r
}

/// The mirror image of a moving coordinate that stays on the paper.
fn mirror(coordinate: Coordinate, fold: Fold, dimensions: Dimensions) -> (r: Coordinate)
    requires
        dimensions.contains(coordinate),
        0 <= 2 * fold.cr() - 1 - moving_index(coordinate, fold) < fold_extent(dimensions, fold),
    ensures
        r == reflected(coordinate, fold),
        dimensions.contains(r),
{
    match reflected_coordinate(coordinate, fold, dimensions) {
        Ok(c) => c,
        Err(_) => coordinate,
    }
}

} // verus!

