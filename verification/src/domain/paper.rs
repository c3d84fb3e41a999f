//! Bounded geometry, ink, and the canonical folding-paper state machine.

pub mod count;
pub mod ink;
pub mod state;

pub use ink::{InkComparison, InkPattern};
pub use state::{Paper, PaperStateKey, PhysicalCell, StackView};

use vstd::prelude::*;

verus! {

pub const MIN_BOARD_WIDTH: u8 = 4;
pub const MAX_BOARD_WIDTH: u8 = 12;
pub const MIN_BOARD_HEIGHT: u8 = 4;
pub const MAX_BOARD_HEIGHT: u8 = 12;
pub const MAX_PHYSICAL_CELLS: usize = 144;
pub const MAX_FOLD_ACTIONS: u8 = 12;
pub const MAX_STROKE_ACTIONS: u8 = 8;
pub const MAX_ACTIONS: u8 = 64;

// ---------------------------------------------------------------------------
// Bounded scalar values
// ---------------------------------------------------------------------------

/// Stable row-major identity of one physical cell.
#[derive(Clone, Copy, Debug, PartialEq, Eq, Hash, PartialOrd, Ord, Structural)]
pub struct CellId(u8);

impl CellId {
    #[verifier::type_invariant]
    spec fn inv(self) -> bool {
        (self.0 as int) < 144
    }

    pub closed spec fn value(self) -> u8 {
        self.0
    }

    /// Two identities are the same exactly when their values agree.
    pub proof fn lemma_eq(a: CellId, b: CellId)
        ensures
            (a == b) <==> (a.value() == b.value()),
    {
    }

    /// Creates an identity within the global physical-cell limit.
    pub fn new(value: u8) -> (r: Result<Self, PaperError>)
        ensures
            r is Ok <==> (value as int) < 144,
            r matches Ok(id) ==> id.value() == value,
            r matches Err(e) ==> e == (PaperError::CellIdOutOfRange { value }),
    {
        if (value as usize) < MAX_PHYSICAL_CELLS {
            Ok(CellId(value))
        } else {
            Err(PaperError::CellIdOutOfRange { value })
        }
    }

    pub fn get(self) -> (r: u8)
        ensures
            r == self.value(),
            (r as int) < 144,
    {
        proof {
            use_type_invariant(&self);
        }
        self.0
    }

    pub fn index(self) -> (r: usize)
        ensures
            r as int == self.value() as int,
            (r as int) < 144,
    {
        proof {
            use_type_invariant(&self);
        }
        self.0 as usize
    }

    /// The identity with the given value.
    pub closed spec fn spec_of(value: u8) -> CellId {
        CellId(value)
    }

    pub proof fn lemma_spec_of(value: u8)
        ensures
            CellId::spec_of(value).value() == value,
    {
    }

    pub(crate) fn from_index(index: usize) -> (r: Self)
        requires
            (index as int) < 144,
        ensures
            r.value() as int == index as int,
            r == CellId::spec_of(index as u8),
    {
        CellId(index as u8)
    }
}

#[derive(Clone, Copy, Debug, PartialEq, Eq, Hash, PartialOrd, Ord, Structural)]
pub struct Row(u8);

impl Row {
    #[verifier::type_invariant]
    spec fn inv(self) -> bool {
        self.0 < 12
    }

    pub closed spec fn value(self) -> u8 {
        self.0
    }

    /// Creates a row within the global board limit.
    pub fn new(value: u8) -> (r: Result<Self, PaperError>)
        ensures
            r is Ok <==> value < 12,
            r matches Ok(row) ==> row.value() == value,
            r matches Err(e) ==> e == (PaperError::RowOutOfRange { value }),
    {
        if value < MAX_BOARD_HEIGHT {
            Ok(Row(value))
        } else {
            Err(PaperError::RowOutOfRange { value })
        }
    }

    pub fn get(self) -> (r: u8)
        ensures
            r == self.value(),
            r < 12,
    {
        proof {
            use_type_invariant(&self);
        }
        self.0
    }
}

#[derive(Clone, Copy, Debug, PartialEq, Eq, Hash, PartialOrd, Ord, Structural)]
pub struct Column(u8);

impl Column {
    #[verifier::type_invariant]
    spec fn inv(self) -> bool {
        self.0 < 12
    }

    pub closed spec fn value(self) -> u8 {
        self.0
    }

    /// Creates a column within the global board limit.
    pub fn new(value: u8) -> (r: Result<Self, PaperError>)
        ensures
            r is Ok <==> value < 12,
            r matches Ok(column) ==> column.value() == value,
            r matches Err(e) ==> e == (PaperError::ColumnOutOfRange { value }),
    {
        if value < MAX_BOARD_WIDTH {
            Ok(Column(value))
        } else {
            Err(PaperError::ColumnOutOfRange { value })
        }
    }

    pub fn get(self) -> (r: u8)
        ensures
            r == self.value(),
            r < 12,
    {
        proof {
            use_type_invariant(&self);
        }
        self.0
    }
}

#[derive(Clone, Copy, Debug, PartialEq, Eq, Hash, PartialOrd, Ord, Structural)]
pub struct Width(u8);

impl Width {
    #[verifier::type_invariant]
    spec fn inv(self) -> bool {
        4 <= self.0 <= 12
    }

    pub closed spec fn value(self) -> u8 {
        self.0
    }

    /// Creates a supported paper width.
    pub fn new(value: u8) -> (r: Result<Self, PaperError>)
        ensures
            r is Ok <==> 4 <= value <= 12,
            r matches Ok(width) ==> width.value() == value,
            r matches Err(e) ==> e == (PaperError::WidthOutOfRange { value }),
    {
        if value >= MIN_BOARD_WIDTH && value <= MAX_BOARD_WIDTH {
            Ok(Width(value))
        } else {
            Err(PaperError::WidthOutOfRange { value })
        }
    }

    pub fn get(self) -> (r: u8)
        ensures
            r == self.value(),
            4 <= r <= 12,
    {
        proof {
            use_type_invariant(&self);
        }
        self.0
    }
}

#[derive(Clone, Copy, Debug, PartialEq, Eq, Hash, PartialOrd, Ord, Structural)]
pub struct Height(u8);

impl Height {
    #[verifier::type_invariant]
    spec fn inv(self) -> bool {
        4 <= self.0 <= 12
    }

    pub closed spec fn value(self) -> u8 {
        self.0
    }

    /// Creates a supported paper height.
    pub fn new(value: u8) -> (r: Result<Self, PaperError>)
        ensures
            r is Ok <==> 4 <= value <= 12,
            r matches Ok(height) ==> height.value() == value,
            r matches Err(e) ==> e == (PaperError::HeightOutOfRange { value }),
    {
        if value >= MIN_BOARD_HEIGHT && value <= MAX_BOARD_HEIGHT {
            Ok(Height(value))
        } else {
            Err(PaperError::HeightOutOfRange { value })
        }
    }

    pub fn get(self) -> (r: u8)
        ensures
            r == self.value(),
            4 <= r <= 12,
    {
        proof {
            use_type_invariant(&self);
        }
        self.0
    }
}

/// Position of a physical cell in its bottom-to-top stack.
#[derive(Clone, Copy, Debug, PartialEq, Eq, Hash, PartialOrd, Ord, Structural)]
pub struct Layer(u8);

impl Layer {
    #[verifier::type_invariant]
    spec fn inv(self) -> bool {
        (self.0 as int) < 144
    }

    pub closed spec fn value(self) -> u8 {
        self.0
    }

    pub fn get(self) -> (r: u8)
        ensures
            r == self.value(),
            (r as int) < 144,
    {
        proof {
            use_type_invariant(&self);
        }
        self.0
    }

    /// The layer with the given position.
    pub closed spec fn spec_of(value: u8) -> Layer {
        Layer(value)
    }

    pub proof fn lemma_spec_of(value: u8)
        ensures
            Layer::spec_of(value).value() == value,
            forall|l: Layer| #[trigger] Layer::spec_of(l.value()) == l,
    {
    }

    pub(crate) fn bottom() -> (r: Self)
        ensures
            r.value() == 0,
            r == Layer::spec_of(0),
    {
        Layer(0)
    }

    pub(crate) fn from_index(index: u8) -> (r: Self)
        requires
            (index as int) < 144,
        ensures
            r.value() == index,
            r == Layer::spec_of(index),
    {
        Layer(index)
    }
}

#[derive(Clone, Copy, Debug, PartialEq, Eq, Hash, PartialOrd, Ord, Structural)]
pub struct FoldCount(u8);

impl FoldCount {
    #[verifier::type_invariant]
    spec fn inv(self) -> bool {
        self.0 <= 12
    }

    pub closed spec fn value(self) -> u8 {
        self.0
    }

    /// The count with the given value.
    pub closed spec fn spec_of(value: u8) -> FoldCount {
        FoldCount(value)
    }

    pub proof fn lemma_spec_of(value: u8)
        ensures
            FoldCount::spec_of(value).value() == value,
            forall|c: FoldCount| #[trigger] FoldCount::spec_of(c.value()) == c,
    {
    }

    /// Creates a fold count within the attempt limit.
    pub fn new(value: u8) -> (r: Result<Self, PaperError>)
        ensures
            r is Ok <==> value <= 12,
            r matches Ok(count) ==> count.value() == value,
            r matches Err(e) ==> e == (PaperError::FoldBudgetOutOfRange { value }),
    {
        if value <= MAX_FOLD_ACTIONS {
            Ok(FoldCount(value))
        } else {
            Err(PaperError::FoldBudgetOutOfRange { value })
        }
    }

    pub fn get(self) -> (r: u8)
        ensures
            r == self.value(),
            r <= 12,
    {
        proof {
            use_type_invariant(&self);
        }
        self.0
    }

    fn zero() -> (r: Self)
        ensures
            r.value() == 0,
    {
        FoldCount(0)
    }

    fn increment(self, limit: Self) -> (r: Self)
        requires
            self.value() < limit.value(),
        ensures
            r.value() == self.value() + 1,
    {
        proof {
            use_type_invariant(&limit);
        }
        FoldCount(self.0 + 1)
    }
}

#[derive(Clone, Copy, Debug, PartialEq, Eq, Hash, PartialOrd, Ord, Structural)]
pub struct StrokeCount(u8);

impl StrokeCount {
    #[verifier::type_invariant]
    spec fn inv(self) -> bool {
        self.0 <= 8
    }

    pub closed spec fn value(self) -> u8 {
        self.0
    }

    /// The count with the given value.
    pub closed spec fn spec_of(value: u8) -> StrokeCount {
        StrokeCount(value)
    }

    pub proof fn lemma_spec_of(value: u8)
        ensures
            StrokeCount::spec_of(value).value() == value,
            forall|c: StrokeCount| #[trigger] StrokeCount::spec_of(c.value()) == c,
    {
    }

    /// Creates a stroke count within the attempt limit.
    pub fn new(value: u8) -> (r: Result<Self, PaperError>)
        ensures
            r is Ok <==> value <= 8,
            r matches Ok(count) ==> count.value() == value,
            r matches Err(e) ==> e == (PaperError::StrokeBudgetOutOfRange { value }),
    {
        if value <= MAX_STROKE_ACTIONS {
            Ok(StrokeCount(value))
        } else {
            Err(PaperError::StrokeBudgetOutOfRange { value })
        }
    }

    pub fn get(self) -> (r: u8)
        ensures
            r == self.value(),
            r <= 8,
    {
        proof {
            use_type_invariant(&self);
        }
        self.0
    }

    fn zero() -> (r: Self)
        ensures
            r.value() == 0,
    {
        StrokeCount(0)
    }

    fn increment(self, limit: Self) -> (r: Self)
        requires
            self.value() < limit.value(),
        ensures
            r.value() == self.value() + 1,
    {
        proof {
            use_type_invariant(&limit);
        }
        StrokeCount(self.0 + 1)
    }
}

#[derive(Clone, Copy, Debug, PartialEq, Eq, Hash, PartialOrd, Ord, Structural)]
pub struct ActionCount(u8);

impl ActionCount {
    #[verifier::type_invariant]
    spec fn inv(self) -> bool {
        self.0 <= 64
    }

    pub closed spec fn value(self) -> u8 {
        self.0
    }

    /// The count with the given value.
    pub closed spec fn spec_of(value: u8) -> ActionCount {
        ActionCount(value)
    }

    pub proof fn lemma_spec_of(value: u8)
        ensures
            ActionCount::spec_of(value).value() == value,
            forall|c: ActionCount| #[trigger] ActionCount::spec_of(c.value()) == c,
    {
    }

    /// Creates an action count within the replay and history limit.
    pub fn new(value: u8) -> (r: Result<Self, PaperError>)
        ensures
            r is Ok <==> value <= 64,
            r matches Ok(count) ==> count.value() == value,
            r matches Err(e) ==> e == (PaperError::ActionBudgetOutOfRange { value }),
    {
        if value <= MAX_ACTIONS {
            Ok(ActionCount(value))
        } else {
            Err(PaperError::ActionBudgetOutOfRange { value })
        }
    }

    pub fn get(self) -> (r: u8)
        ensures
            r == self.value(),
            r <= 64,
    {
        proof {
            use_type_invariant(&self);
        }
        self.0
    }

    fn zero() -> (r: Self)
        ensures
            r.value() == 0,
    {
        ActionCount(0)
    }

    fn increment(self, limit: Self) -> (r: Self)
        requires
            self.value() < limit.value(),
        ensures
            r.value() == self.value() + 1,
    {
        proof {
            use_type_invariant(&limit);
        }
        ActionCount(self.0 + 1)
    }

    fn from_history_len(length: usize) -> (r: Self)
        requires
            length <= 64,
        ensures
            r.value() as int == length as int,
    {
        ActionCount(length as u8)
    }
}

// ---------------------------------------------------------------------------
// Coordinates and dimensions
// ---------------------------------------------------------------------------

#[derive(Clone, Copy, Debug, PartialEq, Eq, Hash, PartialOrd, Ord, Structural)]
pub struct Coordinate {
    row: Row,
    column: Column,
}

impl Coordinate {
    pub closed spec fn r(self) -> int {
        self.row.value() as int
    }

    pub closed spec fn c(self) -> int {
        self.column.value() as int
    }

    pub fn new(row: Row, column: Column) -> (r: Self)
        ensures
            r.r() == row.value(),
            r.c() == column.value(),
            r.row_value() == row,
            r.column_value() == column,
    {
        Coordinate { row, column }
    }

    pub closed spec fn row_value(self) -> Row {
        self.row
    }

    pub closed spec fn column_value(self) -> Column {
        self.column
    }

    pub fn row(self) -> (r: Row)
        ensures
            r == self.row_value(),
            r.value() == self.r(),
            self.r() < 12,
    {
        proof {
            use_type_invariant(&self.row);
        }
        self.row
    }

    pub fn column(self) -> (r: Column)
        ensures
            r == self.column_value(),
            r.value() == self.c(),
            self.c() < 12,
    {
        proof {
            use_type_invariant(&self.column);
        }
        self.column
    }

    /// Two coordinates are the same exactly when both components agree.
    pub proof fn lemma_eq(a: Coordinate, b: Coordinate)
        ensures
            (a == b) <==> (a.r() == b.r() && a.c() == b.c()),
    {
        if a.r() == b.r() && a.c() == b.c() {
            assert(a.row == b.row);
            assert(a.column == b.column);
        }
    }

    fn same(self, other: Coordinate) -> (r: bool)
        ensures
            r == (self == other),
    {
        proof {
            Coordinate::lemma_eq(self, other);
        }
        self.row.0 == other.row.0 && self.column.0 == other.column.0
    }
}

/// Row-major order on coordinates, the order of the derived `Ord`.
pub open spec fn coordinate_le(a: Coordinate, b: Coordinate) -> bool {
    a.r() < b.r() || (a.r() == b.r() && a.c() <= b.c())
}

#[derive(Clone, Copy, Debug, PartialEq, Eq, Hash, Structural)]
pub struct Dimensions {
    width: Width,
    height: Height,
}

impl Dimensions {
    pub closed spec fn w(self) -> int {
        self.width.value() as int
    }

    pub closed spec fn h(self) -> int {
        self.height.value() as int
    }

    /// The bounds that every constructed value satisfies.
    pub open spec fn wf(self) -> bool {
        4 <= self.w() <= 12 && 4 <= self.h() <= 12
    }

    pub open spec fn cells_len(self) -> int {
        self.w() * self.h()
    }

    pub open spec fn contains(self, c: Coordinate) -> bool {
        0 <= c.r() < self.h() && 0 <= c.c() < self.w()
    }

    /// Row-major index of a coordinate.
    pub open spec fn index_of(self, c: Coordinate) -> int {
        c.r() * self.w() + c.c()
    }

    /// The size with the given width and height.
    pub closed spec fn spec_of(width: u8, height: u8) -> Dimensions {
        Dimensions { width: Width(width), height: Height(height) }
    }

    pub proof fn lemma_spec_of(width: u8, height: u8)
        ensures
            Dimensions::spec_of(width, height).w() == width,
            Dimensions::spec_of(width, height).h() == height,
    {
    }

    /// Two sizes are the same exactly when width and height agree.
    pub proof fn lemma_eq(a: Dimensions, b: Dimensions)
        ensures
            (a == b) <==> (a.w() == b.w() && a.h() == b.h()),
    {
        if a.w() == b.w() && a.h() == b.h() {
            assert(a.width == b.width);
            assert(a.height == b.height);
        }
    }

    pub proof fn lemma_wf(self)
        requires
            self.wf(),
        ensures
            16 <= self.cells_len() <= 144,
    {
        assert(16 <= self.w() * self.h() <= 144) by (nonlinear_arith)
            requires
                4 <= self.w() <= 12,
                4 <= self.h() <= 12,
        ;
    }

    pub proof fn lemma_index_of(self, c: Coordinate)
        requires
            self.wf(),
            self.contains(c),
        ensures
            0 <= self.index_of(c) < self.cells_len(),
            self.index_of(c) / self.w() == c.r(),
            self.index_of(c) % self.w() == c.c(),
    {
        let w = self.w();
        let h = self.h();
        let r = c.r();
        let col = c.c();
        assert(0 <= r * w + col < w * h) by (nonlinear_arith)
            requires
                0 <= r < h,
                0 <= col < w,
                w > 0,
        ;
        vstd::arithmetic::div_mod::lemma_fundamental_div_mod_converse(r * w + col, w, r, col);
    }

    /// Distinct coordinates inside the paper have distinct row-major indices.
    pub proof fn lemma_index_injective(self, a: Coordinate, b: Coordinate)
        requires
            self.wf(),
            self.contains(a),
            self.contains(b),
            self.index_of(a) == self.index_of(b),
        ensures
            a == b,
    {
        self.lemma_index_of(a);
        self.lemma_index_of(b);
        Coordinate::lemma_eq(a, b);
    }

    pub fn new(width: u8, height: u8) -> (r: Result<Self, PaperError>)
        ensures
            r is Ok <==> (4 <= width <= 12 && 4 <= height <= 12),
            r matches Ok(d) ==> d.w() == width && d.h() == height && d.wf(),
            !(4 <= width <= 12) ==> r == Err::<Dimensions, PaperError>(
                PaperError::WidthOutOfRange { value: width },
            ),
            (4 <= width <= 12 && !(4 <= height <= 12)) ==> r == Err::<Dimensions, PaperError>(
                PaperError::HeightOutOfRange { value: height },
            ),
    {
        let width = match Width::new(width) {
            Ok(width) => width,
            Err(error) => return Err(error),
        };
        let height = match Height::new(height) {
            Ok(height) => height,
            Err(error) => return Err(error),
        };
        Ok(Dimensions { width, height })
    }

    pub fn width(self) -> (r: Width)
        ensures
            r.value() == self.w(),
            self.wf(),
    {
        proof {
            use_type_invariant(&self.width);
            use_type_invariant(&self.height);
        }
        self.width
    }

    pub fn height(self) -> (r: Height)
        ensures
            r.value() == self.h(),
            self.wf(),
    {
        proof {
            use_type_invariant(&self.width);
            use_type_invariant(&self.height);
        }
        self.height
    }

    fn bounds(self) -> (r: (u8, u8))
        ensures
            r.0 == self.w(),
            r.1 == self.h(),
            self.wf(),
    {
        proof {
            use_type_invariant(&self.width);
            use_type_invariant(&self.height);
        }
        (self.width.0, self.height.0)
    }

    pub fn cell_count(self) -> (r: usize)
        ensures
            r as int == self.cells_len(),
            16 <= r <= 144,
            self.wf(),
    {
        let (w, h) = self.bounds();
        proof {
            self.lemma_wf();
        }
        w as usize * h as usize
    }

    /// Resolves a coordinate inside these dimensions.
    pub fn coordinate(self, row: u8, column: u8) -> (r: Result<Coordinate, PaperError>)
        ensures
            r is Ok <==> ((row as int) < self.h() && (column as int) < self.w()),
            r matches Ok(c) ==> c.r() == row && c.c() == column && self.contains(c),
            r matches Err(e) ==> e == (PaperError::CoordinateOutsidePaper {
                row,
                column,
                width: self.w() as u8,
                height: self.h() as u8,
            }),
    {
        let (w, h) = self.bounds();
        if row >= h || column >= w {
            return Err(PaperError::CoordinateOutsidePaper { row, column, width: w, height: h });
        }
        let row = Row(row);
        let column = Column(column);
        Ok(Coordinate { row, column })
    }

    fn validate_coordinate(self, coordinate: Coordinate) -> (r: Result<(), PaperError>)
        ensures
            r is Ok <==> self.contains(coordinate),
            r matches Err(e) ==> e == self.outside_error(coordinate),
    {
        let (w, h) = self.bounds();
        if coordinate.row.0 >= h || coordinate.column.0 >= w {
            return Err(
                PaperError::CoordinateOutsidePaper {
                    row: coordinate.row.0,
                    column: coordinate.column.0,
                    width: w,
                    height: h,
                },
            );
        }
        Ok(())
    }

    pub open spec fn outside_error(self, c: Coordinate) -> PaperError {
        PaperError::CoordinateOutsidePaper {
            row: c.r() as u8,
            column: c.c() as u8,
            width: self.w() as u8,
            height: self.h() as u8,
        }
    }

    fn coordinate_index(self, coordinate: Coordinate) -> (r: usize)
        requires
            self.contains(coordinate),
        ensures
            r as int == self.index_of(coordinate),
            (r as int) < self.cells_len(),
            (r as int) < 144,
            self.wf(),
    {
        let (w, h) = self.bounds();
        proof {
            self.lemma_index_of(coordinate);
            self.lemma_wf();
            assert(coordinate.row.0 as int * w as int <= 144) by (nonlinear_arith)
                requires
                    coordinate.row.0 < 12,
                    w <= 12,
            ;
        }
        coordinate.row.0 as usize * w as usize + coordinate.column.0 as usize
    }

    /// Returns the stable row-major identity at a coordinate.
    pub fn cell_id(self, coordinate: Coordinate) -> (r: Result<CellId, PaperError>)
        ensures
            r is Ok <==> self.contains(coordinate),
            r matches Ok(id) ==> id.value() as int == self.index_of(coordinate),
            r matches Err(e) ==> e == self.outside_error(coordinate),
    {
        self.validate_coordinate(coordinate)?;
        let index = self.coordinate_index(coordinate);
        Ok(CellId::from_index(index))
    }

    /// Returns the original row-major coordinate for a physical cell.
    pub fn original_coordinate(self, cell_id: CellId) -> (r: Result<Coordinate, PaperError>)
        ensures
            r is Ok <==> (cell_id.value() as int) < self.cells_len(),
            r matches Ok(c) ==> self.contains(c) && self.index_of(c) == cell_id.value() as int,
            r matches Err(e) ==> e == (PaperError::CellOutsidePaper {
                cell_id,
                cell_count: self.cells_len() as usize,
            }),
    {
        let count = self.cell_count();
        let index = cell_id.index();
        if index >= count {
            return Err(PaperError::CellOutsidePaper { cell_id, cell_count: count });
        }
        let (w, h) = self.bounds();
        let row = index / (w as usize);
        let column = index % (w as usize);
        proof {
            let wi = w as int;
            let hi = h as int;
            let ii = index as int;
            assert(ii / wi < hi) by (nonlinear_arith)
                requires
                    0 <= ii < wi * hi,
                    wi > 0,
            ;
            vstd::arithmetic::div_mod::lemma_fundamental_div_mod(ii, wi);
            assert(ii == (ii / wi) * wi + ii % wi) by (nonlinear_arith)
                requires
                    ii == wi * (ii / wi) + ii % wi,
            ;
        }
        let c = Coordinate { row: Row(row as u8), column: Column(column as u8) };
        Ok(c)
    }
}

// ---------------------------------------------------------------------------
// Faces, orientations, folds, and brushes
// ---------------------------------------------------------------------------

#[derive(Clone, Copy, Debug, PartialEq, Eq, Hash, Structural)]
pub enum Face {
    Front,
    Back,
}

impl Face {
    pub open spec fn flip(self) -> Face {
        match self {
            Face::Front => Face::Back,
            Face::Back => Face::Front,
        }
    }

    fn flipped(self) -> (r: Self)
        ensures
            r == self.flip(),
    {
        match self {
            Face::Front => Face::Back,
            Face::Back => Face::Front,
        }
    }
}

#[derive(Clone, Copy, Debug, PartialEq, Eq, Hash, Structural)]
pub enum Orientation {
    North,
    East,
    South,
    West,
}

impl Orientation {
    pub open spec fn across(self, axis: FoldAxis) -> Orientation {
        match (axis, self) {
            (FoldAxis::Vertical, Orientation::East) => Orientation::West,
            (FoldAxis::Vertical, Orientation::West) => Orientation::East,
            (FoldAxis::Horizontal, Orientation::North) => Orientation::South,
            (FoldAxis::Horizontal, Orientation::South) => Orientation::North,
            _ => self,
        }
    }

    fn folded_across(self, axis: FoldAxis) -> (r: Self)
        ensures
            r == self.across(axis),
    {
        match (axis, self) {
            (FoldAxis::Vertical, Orientation::East) => Orientation::West,
            (FoldAxis::Vertical, Orientation::West) => Orientation::East,
            (FoldAxis::Horizontal, Orientation::North) => Orientation::South,
            (FoldAxis::Horizontal, Orientation::South) => Orientation::North,
            _ => self,
        }
    }
}

#[derive(Clone, Copy, Debug, PartialEq, Eq, Hash, PartialOrd, Ord, Structural)]
pub enum FoldAxis {
    Vertical,
    Horizontal,
}

#[derive(Clone, Copy, Debug, PartialEq, Eq, Hash, PartialOrd, Ord, Structural)]
pub enum FoldDirection {
    Left,
    Right,
    Up,
    Down,
}

impl FoldDirection {
    pub open spec fn spec_axis(self) -> FoldAxis {
        match self {
            FoldDirection::Left | FoldDirection::Right => FoldAxis::Vertical,
            FoldDirection::Up | FoldDirection::Down => FoldAxis::Horizontal,
        }
    }

    pub fn axis(self) -> (r: FoldAxis)
        ensures
            r == self.spec_axis(),
    {
        match self {
            FoldDirection::Left | FoldDirection::Right => FoldAxis::Vertical,
            FoldDirection::Up | FoldDirection::Down => FoldAxis::Horizontal,
        }
    }

    /// Position of the direction in the derived order.
    pub open spec fn rank(self) -> int {
        match self {
            FoldDirection::Left => 0,
            FoldDirection::Right => 1,
            FoldDirection::Up => 2,
            FoldDirection::Down => 3,
        }
    }
}

#[derive(Clone, Copy, Debug, PartialEq, Eq, Hash, PartialOrd, Ord, Structural)]
pub struct Fold {
    direction: FoldDirection,
    crease: u8,
}

impl Fold {
    pub closed spec fn dir(self) -> FoldDirection {
        self.direction
    }

    pub closed spec fn cr(self) -> u8 {
        self.crease
    }

    /// Two folds are the same exactly when direction and crease agree.
    pub proof fn lemma_eq(a: Fold, b: Fold)
        ensures
            (a == b) <==> (a.dir() == b.dir() && a.cr() == b.cr()),
    {
    }

    /// The fold with the given direction and crease.
    pub closed spec fn spec_of(direction: FoldDirection, crease: u8) -> Fold {
        Fold { direction, crease }
    }

    /// A fold is made of its direction and crease, and is rebuilt from them.
    pub proof fn lemma_spec_of(direction: FoldDirection, crease: u8)
        ensures
            Fold::spec_of(direction, crease).dir() == direction,
            Fold::spec_of(direction, crease).cr() == crease,
            forall|f: Fold| #[trigger] Fold::spec_of(f.dir(), f.cr()) == f,
    {
    }

    pub fn new(direction: FoldDirection, crease: u8) -> (r: Self)
        ensures
            r.dir() == direction,
            r.cr() == crease,
            r == Fold::spec_of(direction, crease),
    {
        Fold { direction, crease }
    }

    pub fn direction(self) -> (r: FoldDirection)
        ensures
            r == self.dir(),
    {
        self.direction
    }

    pub fn crease(self) -> (r: u8)
        ensures
            r == self.cr(),
    {
        self.crease
    }
}

#[derive(Clone, Copy, Debug, PartialEq, Eq, Hash, PartialOrd, Ord, Structural)]
pub enum StrokeAxis {
    Horizontal,
    Vertical,
}

#[derive(Clone, Copy, Debug, PartialEq, Eq, Hash, PartialOrd, Ord, Structural)]
pub enum BrushRule {
    Dot,
    Line { axis: StrokeAxis, length: u8 },
}

#[derive(Clone, Copy, Debug, PartialEq, Eq, Hash, PartialOrd, Ord, Structural)]
pub struct LineStroke {
    start: Coordinate,
    end: Coordinate,
}

impl LineStroke {
    pub closed spec fn start_value(self) -> Coordinate {
        self.start
    }

    pub closed spec fn end_value(self) -> Coordinate {
        self.end
    }

    /// The line with the given endpoints.
    pub closed spec fn spec_of(start: Coordinate, end: Coordinate) -> LineStroke {
        LineStroke { start, end }
    }

    pub proof fn lemma_spec_of(start: Coordinate, end: Coordinate)
        ensures
            LineStroke::spec_of(start, end).start_value() == start,
            LineStroke::spec_of(start, end).end_value() == end,
            forall|l: LineStroke| #[trigger] LineStroke::spec_of(l.start_value(), l.end_value()) == l,
    {
    }

    /// Creates a line with endpoints in canonical row-major order.
    pub fn new(start: Coordinate, end: Coordinate) -> (r: Self)
        ensures
            coordinate_le(start, end) ==> r == LineStroke::spec_of(start, end),
            !coordinate_le(start, end) ==> r == LineStroke::spec_of(end, start),
            coordinate_le(start, end) ==> r.start_value() == start && r.end_value() == end,
            !coordinate_le(start, end) ==> r.start_value() == end && r.end_value() == start,
    {
        let (sr, sc) = (start.row.0, start.column.0);
        let (er, ec) = (end.row.0, end.column.0);
        if sr < er || (sr == er && sc <= ec) {
            LineStroke { start, end }
        } else {
            LineStroke { start: end, end: start }
        }
    }

    pub fn start(self) -> (r: Coordinate)
        ensures
            r == self.start_value(),
    {
        self.start
    }

    pub fn end(self) -> (r: Coordinate)
        ensures
            r == self.end_value(),
    {
        self.end
    }

    /// The axis and inclusive length of a line, or why it is not a line.
    pub open spec fn spec_axis_and_length(self) -> Result<(StrokeAxis, u8), PaperError> {
        let s = self.start_value();
        let e = self.end_value();
        if s.r() == e.r() && s.c() == e.c() {
            Err(PaperError::LineIsTooShort)
        } else if s.r() == e.r() {
            Ok((StrokeAxis::Horizontal, (abs_diff(s.c(), e.c()) + 1) as u8))
        } else if s.c() == e.c() {
            Ok((StrokeAxis::Vertical, (abs_diff(s.r(), e.r()) + 1) as u8))
        } else {
            Err(PaperError::LineIsNotAxisAligned { start: s, end: e })
        }
    }

    /// Returns the canonical axis and inclusive length of this line.
    pub fn axis_and_length(self) -> (r: Result<(StrokeAxis, u8), PaperError>)
        ensures
            r == self.spec_axis_and_length(),
            r matches Ok((_, length)) ==> 2 <= length <= 12,
    {
        proof {
            use_type_invariant(&self.start.row);
            use_type_invariant(&self.start.column);
            use_type_invariant(&self.end.row);
            use_type_invariant(&self.end.column);
        }
        let (sr, sc) = (self.start.row.0, self.start.column.0);
        let (er, ec) = (self.end.row.0, self.end.column.0);
        if sr == er && sc == ec {
            return Err(PaperError::LineIsTooShort);
        }
        if sr == er {
            let length = if sc >= ec { sc - ec } else { ec - sc } + 1;
            return Ok((StrokeAxis::Horizontal, length));
        }
        if sc == ec {
            let length = if sr >= er { sr - er } else { er - sr } + 1;
            return Ok((StrokeAxis::Vertical, length));
        }
        Err(PaperError::LineIsNotAxisAligned { start: self.start, end: self.end })
    }

    /// The coordinate at an offset from the line's first cell.
    pub open spec fn at(self, offset: int) -> Coordinate {
        let s = self.start_value();
        let e = self.end_value();
        if s.r() == e.r() {
            coordinate_of(s.r(), min(s.c(), e.c()) + offset)
        } else {
            coordinate_of(min(s.r(), e.r()) + offset, s.c())
        }
    }

    /// A line passes exactly the positions between its two endpoints, both
    /// included, along its row or column, and each of them at one offset: every
    /// offset below its length lands between the ends, no two offsets land on
    /// the same position, and every position between the ends, the ends
    /// themselves among them, is met by some offset.
    pub proof fn lemma_line_positions(self)
        requires
            self.spec_axis_and_length() is Ok,
            self.start_value().r() < 12,
            self.start_value().c() < 12,
            self.end_value().r() < 12,
            self.end_value().c() < 12,
        ensures
            ({
                let length = self.spec_axis_and_length()->Ok_0.1 as int;
                let s = self.start_value();
                let e = self.end_value();
                &&& forall|o: int| 0 <= o < length ==> between_ends(s, e, #[trigger] self.at(o))
                &&& forall|o1: int, o2: int|
                    #![trigger self.at(o1), self.at(o2)]
                    0 <= o1 < length && 0 <= o2 < length && o1 != o2 ==> self.at(o1) != self.at(o2)
                &&& forall|q: Coordinate|
                    #[trigger] between_ends(s, e, q) ==> exists|o: int| 0 <= o < length && self.at(o) == q
                &&& exists|o: int| 0 <= o < length && self.at(o) == s
                &&& exists|o: int| 0 <= o < length && self.at(o) == e
            }),
    {
        let length = self.spec_axis_and_length()->Ok_0.1 as int;
        let s = self.start_value();
        let e = self.end_value();
        assert forall|o: int| 0 <= o < length implies between_ends(s, e, #[trigger] self.at(o)) by {
            self.lemma_offset(o);
        }
        assert forall|o1: int, o2: int|
            #![trigger self.at(o1), self.at(o2)]
            0 <= o1 < length && 0 <= o2 < length && o1 != o2 implies self.at(o1) != self.at(o2) by {
            self.lemma_offset(o1);
            self.lemma_offset(o2);
        }
        assert forall|q: Coordinate| #[trigger] between_ends(s, e, q) implies exists|o: int|
            0 <= o < length && self.at(o) == q by {
            if s.r() == e.r() {
                let o = q.c() - min(s.c(), e.c());
                lemma_coordinate_of_any(s.r(), q.c());
                Coordinate::lemma_eq(self.at(o), q);
                assert(self.at(o) == q);
            } else {
                let o = q.r() - min(s.r(), e.r());
                lemma_coordinate_of_any(q.r(), s.c());
                Coordinate::lemma_eq(self.at(o), q);
                assert(self.at(o) == q);
            }
        }
        assert(between_ends(s, e, s));
        assert(between_ends(s, e, e));
    }

    /// The components of the position at an offset below the line's length.
    proof fn lemma_offset(self, o: int)
        requires
            self.spec_axis_and_length() is Ok,
            self.start_value().r() < 12,
            self.start_value().c() < 12,
            self.end_value().r() < 12,
            self.end_value().c() < 12,
            0 <= o < self.spec_axis_and_length()->Ok_0.1,
        ensures
            self.start_value().r() == self.end_value().r() ==> self.at(o).r() == self.start_value().r()
                && self.at(o).c() == min(self.start_value().c(), self.end_value().c()) + o,
            self.start_value().r() != self.end_value().r() ==> self.at(o).c() == self.start_value().c()
                && self.at(o).r() == min(self.start_value().r(), self.end_value().r()) + o,
    {
        let s = self.start_value();
        let e = self.end_value();
        if s.r() == e.r() {
            lemma_coordinate_of_any(s.r(), min(s.c(), e.c()) + o);
        } else {
            lemma_coordinate_of_any(min(s.r(), e.r()) + o, s.c());
        }
    }

    fn coordinate_at(self, offset: u8) -> (r: Coordinate)
        requires
            self.spec_axis_and_length() is Ok,
            offset < self.spec_axis_and_length()->Ok_0.1,
        ensures
            r == self.at(offset as int),
            r.r() == self.at(offset as int).r(),
            r.c() == self.at(offset as int).c(),
    {
        proof {
            use_type_invariant(&self.start.row);
            use_type_invariant(&self.start.column);
            use_type_invariant(&self.end.row);
            use_type_invariant(&self.end.column);
        }
        let (sr, sc) = (self.start.row.0, self.start.column.0);
        let (er, ec) = (self.end.row.0, self.end.column.0);
        let row_start = if sr < er { sr } else { er };
        let column_start = if sc < ec { sc } else { ec };
        let r = if sr == er {
            Coordinate { row: self.start.row, column: Column(column_start + offset) }
        } else {
            Coordinate { row: Row(row_start + offset), column: self.start.column }
        };
        proof {
            lemma_coordinate_of(r.r(), r.c());
            Coordinate::lemma_eq(r, coordinate_of(r.r(), r.c()));
        }
        r
    }
}

pub open spec fn abs_diff(a: int, b: int) -> int {
    if a >= b {
        a - b
    } else {
        b - a
    }
}

pub open spec fn min(a: int, b: int) -> int {
    if a <= b {
        a
    } else {
        b
    }
}

/// Whether a position lies on the straight run from `s` to `e`, both included:
/// on their row when they share it, else on their column.
pub open spec fn between_ends(s: Coordinate, e: Coordinate, q: Coordinate) -> bool {
    if s.r() == e.r() {
        q.r() == s.r() && (s.c() <= q.c() <= e.c() || e.c() <= q.c() <= s.c())
    } else {
        q.c() == s.c() && (s.r() <= q.r() <= e.r() || e.r() <= q.r() <= s.r())
    }
}

/// Components of a byte's range survive the round trip through a coordinate.
proof fn lemma_coordinate_of_any(row: int, column: int)
    requires
        0 <= row < 256,
        0 <= column < 256,
    ensures
        coordinate_of(row, column).r() == row,
        coordinate_of(row, column).c() == column,
{
}

/// The coordinate with the given components, when both are in the global range.
pub closed spec fn coordinate_of(row: int, column: int) -> Coordinate {
    Coordinate { row: Row(row as u8), column: Column(column as u8) }
}

pub proof fn lemma_coordinate_of(row: int, column: int)
    requires
        0 <= row < 12,
        0 <= column < 12,
    ensures
        coordinate_of(row, column).r() == row,
        coordinate_of(row, column).c() == column,
{
}

/// Every coordinate is rebuilt from its own components.
pub proof fn lemma_coordinate_of_self(c: Coordinate)
    ensures
        coordinate_of(c.r(), c.c()) == c,
{
}

#[derive(Clone, Copy, Debug, PartialEq, Eq, Hash, PartialOrd, Ord, Structural)]
pub enum PaperAction {
    Fold(Fold),
    Dot(Coordinate),
    Line(LineStroke),
}

#[derive(Clone, Copy, Debug, PartialEq, Eq)]
pub struct PaperSpec {
    width: u8,
    height: u8,
    fold_budget: u8,
    stroke_budget: u8,
    action_budget: u8,
}

impl PaperSpec {
    pub closed spec fn view_tuple(self) -> (u8, u8, u8, u8, u8) {
        (self.width, self.height, self.fold_budget, self.stroke_budget, self.action_budget)
    }

    pub fn new(width: u8, height: u8, fold_budget: u8, stroke_budget: u8, action_budget: u8) -> (r:
        Self)
        ensures
            r.view_tuple() == (width, height, fold_budget, stroke_budget, action_budget),
    {
        PaperSpec { width, height, fold_budget, stroke_budget, action_budget }
    }
}

#[allow(inconsistent_fields)]
#[derive(Clone, Copy, Debug, PartialEq, Eq, Hash)]
pub enum PaperError {
    CellIdOutOfRange { value: u8 },
    RowOutOfRange { value: u8 },
    ColumnOutOfRange { value: u8 },
    WidthOutOfRange { value: u8 },
    HeightOutOfRange { value: u8 },
    FoldBudgetOutOfRange { value: u8 },
    StrokeBudgetOutOfRange { value: u8 },
    ActionBudgetOutOfRange { value: u8 },
    CoordinateOutsidePaper { row: u8, column: u8, width: u8, height: u8 },
    CellOutsidePaper { cell_id: CellId, cell_count: usize },
    TooManyTargetCells { count: usize },
    CreaseOutsidePaper { axis: FoldAxis, crease: u8, extent: u8 },
    FoldLeavesPaper { direction: FoldDirection, crease: u8, index: u8, extent: u8 },
    EmptyMovingSide { direction: FoldDirection },
    FoldBudgetExhausted { limit: FoldCount },
    StrokeBudgetExhausted { limit: StrokeCount },
    ActionBudgetExhausted { limit: ActionCount },
    EmptyBrushPosition { coordinate: Coordinate },
    LineIsTooShort,
    LineIsNotAxisAligned { start: Coordinate, end: Coordinate },
    TargetDimensionsDiffer { paper: Dimensions, target: Dimensions },
    NothingToUndo,
}

} // verus!
