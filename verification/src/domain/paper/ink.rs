//! Ink over the original physical cells of one paper.

use vstd::prelude::*;
use vstd::set_lib::set_int_range;

use super::{CellId, Dimensions, PaperError, MAX_PHYSICAL_CELLS};

verus! {

/// The identities in the first `n` entries of a slice of cell identities.
pub open spec fn id_set(ids: Seq<CellId>, n: int) -> Set<int> {
    Set::new(|x: int| exists|k: int| 0 <= k < n && #[trigger] ids[k].value() as int == x)
}

/// The identities of the marked positions below `k`, in ascending order.
pub open spec fn ids_upto(marks: Seq<bool>, k: int) -> Seq<CellId>
    decreases k,
{
    if k <= 0 {
        Seq::empty()
    } else {
        ids_upto(marks, k - 1) + if marks[k - 1] {
            seq![CellId::spec_of((k - 1) as u8)]
        } else {
            Seq::empty()
        }
    }
}

/// The marked identities below `k` ascend, lie below `k`, and are exactly the marked positions.
proof fn lemma_ids_upto(marks: Seq<bool>, k: int)
    requires
        0 <= k <= marks.len(),
        k <= 144,
    ensures
        ids_upto(marks, k).len() <= k,
        forall|j: int| 0 <= j < ids_upto(marks, k).len() ==> (#[trigger] ids_upto(marks, k)[j].value() as int) < k,
        forall|i: int, j: int|
            0 <= i < j < ids_upto(marks, k).len() ==> (#[trigger] ids_upto(marks, k)[i].value()) < (
            #[trigger] ids_upto(marks, k)[j].value()),
        forall|x: int| #[trigger] id_set(ids_upto(marks, k), ids_upto(marks, k).len() as int).contains(x) <==> (0
            <= x < k && marks[x]),
    decreases k,
{
    if k > 0 {
        lemma_ids_upto(marks, k - 1);
        let prev = ids_upto(marks, k - 1);
        let cur = ids_upto(marks, k);
        CellId::lemma_spec_of((k - 1) as u8);
        if marks[k - 1] {
            assert(cur == prev.push(CellId::spec_of((k - 1) as u8)));
            assert forall|x: int| #[trigger] id_set(cur, cur.len() as int).contains(x) <==> (0 <= x < k && marks[x]) by {
                if id_set(cur, cur.len() as int).contains(x) {
                    let j = choose|j: int| 0 <= j < cur.len() && #[trigger] cur[j].value() as int == x;
                    if j < prev.len() {
                        assert(prev[j] == cur[j]);
                        assert(id_set(prev, prev.len() as int).contains(x));
                    }
                }
                if 0 <= x < k && marks[x] {
                    if x == k - 1 {
                        assert(cur[prev.len() as int].value() as int == x);
                    } else {
                        assert(id_set(prev, prev.len() as int).contains(x));
                        let j = choose|j: int| 0 <= j < prev.len() && #[trigger] prev[j].value() as int == x;
                        assert(cur[j] == prev[j]);
                    }
                }
            }
        } else {
            assert(cur =~= prev);
        }
    }
}

/// Which original physical cells carry ink.
#[derive(Clone, Copy, Debug, PartialEq, Eq, Hash)]
pub struct InkPattern {
    dimensions: Dimensions,
    marks: [bool; 144],
}

impl InkPattern {
    #[verifier::type_invariant]
    spec fn inv(self) -> bool {
        &&& self.dimensions.wf()
        &&& forall|i: int| self.dimensions.cells_len() <= i < 144 ==> !#[trigger] self.marks@[i]
    }

    pub closed spec fn dims(self) -> Dimensions {
        self.dimensions
    }

    /// The identities of the inked cells.
    pub closed spec fn cells(self) -> Set<int> {
        Set::new(|i: int| 0 <= i < 144 && self.marks@[i])
    }

    /// The inked identities in ascending order.
    pub closed spec fn id_seq(self) -> Seq<CellId> {
        ids_upto(self.marks@, 144)
    }

    /// Two patterns over the same paper with the same inked cells are the same value.
    pub proof fn lemma_ext(a: InkPattern, b: InkPattern)
        requires
            a.dims() == b.dims(),
            a.cells() == b.cells(),
        ensures
            a == b,
    {
        assert forall|i: int| 0 <= i < 144 implies a.marks@[i] == b.marks@[i] by {
            assert(a.cells().contains(i) == a.marks@[i]);
            assert(b.cells().contains(i) == b.marks@[i]);
        }
        assert(a.marks@ =~= b.marks@);
        assert(a.marks =~= b.marks);
    }

    /// The inked cells always belong to the paper.
    pub fn lemma_bounded(&self)
        ensures
            self.cells().subset_of(set_int_range(0, self.dims().cells_len())),
            self.cells().finite(),
            self.dims().wf(),
    {
        proof {
            use_type_invariant(self);
            vstd::set_lib::lemma_int_range(0, self.dimensions.cells_len());
            vstd::set_lib::lemma_len_subset(self.cells(), set_int_range(0, self.dimensions.cells_len()));
        }
    }

    /// The inked identities ascend, lie on the paper, and are exactly the inked cells.
    pub fn lemma_id_seq(&self)
        ensures
            self.id_seq().len() <= 144,
            forall|j: int| 0 <= j < self.id_seq().len() ==> (#[trigger] self.id_seq()[j].value() as int)
                < self.dims().cells_len(),
            forall|i: int, j: int|
                0 <= i < j < self.id_seq().len() ==> (#[trigger] self.id_seq()[i].value()) < (
                #[trigger] self.id_seq()[j].value()),
            id_set(self.id_seq(), self.id_seq().len() as int) == self.cells(),
    {
        proof {
            use_type_invariant(self);
            lemma_ids_upto(self.marks@, 144);
            let ids = self.id_seq();
            assert forall|j: int| 0 <= j < ids.len() implies (#[trigger] ids[j].value() as int)
                < self.dims().cells_len() by {
                let x = ids[j].value() as int;
                assert(id_set(ids, ids.len() as int).contains(x));
            }
            assert(id_set(ids, ids.len() as int) =~= self.cells());
        }
    }

    pub fn empty(dimensions: Dimensions) -> (r: Self)
        ensures
            r.dims() == dimensions,
            r.cells() == Set::<int>::empty(),
    {
        let _ = dimensions.cell_count();
        let r = InkPattern { dimensions, marks: [false; 144] };
        assert(r.cells() =~= Set::<int>::empty());
        r
    }

    /// Builds an ink pattern from stable physical-cell identities.
    pub fn from_cell_ids(dimensions: Dimensions, cell_ids: &[CellId]) -> (r: Result<Self, PaperError>)
        ensures
            r is Ok <==> (cell_ids@.len() <= 144 && forall|k: int|
                0 <= k < cell_ids@.len() ==> (#[trigger] cell_ids@[k].value() as int) < dimensions.cells_len()),
            r matches Ok(p) ==> p.dims() == dimensions && p.cells() == id_set(cell_ids@, cell_ids@.len() as int),
            cell_ids@.len() > 144 ==> r == Err::<Self, PaperError>(PaperError::TooManyTargetCells { count: cell_ids@.len() as usize }),
            (cell_ids@.len() <= 144 && r is Err) ==> exists|k: int|
                0 <= k < cell_ids@.len()
                && (cell_ids@[k].value() as int) >= dimensions.cells_len()
                && (forall|j: int| 0 <= j < k ==> (#[trigger] cell_ids@[j].value() as int) < dimensions.cells_len())
                && r == Err::<Self, PaperError>(PaperError::CellOutsidePaper {
                    cell_id: cell_ids@[k],
                    cell_count: dimensions.cells_len() as usize,
                }),
    {
        if cell_ids.len() > MAX_PHYSICAL_CELLS {
            return Err(PaperError::TooManyTargetCells { count: cell_ids.len() });
        }
        let count = dimensions.cell_count();
        let mut pattern = Self::empty(dimensions);
        assert(pattern.cells() =~= id_set(cell_ids@, 0));
        let mut i: usize = 0;
        while i < cell_ids.len()
            invariant
                i <= cell_ids@.len(),
                cell_ids@.len() <= 144,
                count as int == dimensions.cells_len(),
                pattern.dims() == dimensions,
                pattern.cells() == id_set(cell_ids@, i as int),
                forall|j: int| 0 <= j < i ==> (#[trigger] cell_ids@[j].value() as int) < dimensions.cells_len(),
            decreases cell_ids@.len() - i,
        {
            let cell_id = cell_ids[i];
            if cell_id.index() >= count {
                return Err(PaperError::CellOutsidePaper { cell_id, cell_count: count });
            }
            pattern.insert(cell_id);
            proof {
                assert forall|x: int| #[trigger] id_set(cell_ids@, i + 1).contains(x) == pattern.cells().contains(x) by {
                    if id_set(cell_ids@, i + 1).contains(x) {
                        let k = choose|k: int| 0 <= k < i + 1 && #[trigger] cell_ids@[k].value() as int == x;
                        if k < i {
                            assert(id_set(cell_ids@, i as int).contains(x));
                        }
                    }
                    if pattern.cells().contains(x) && x != cell_id.value() as int {
                        assert(id_set(cell_ids@, i as int).contains(x));
                        let k = choose|k: int| 0 <= k < i && #[trigger] cell_ids@[k].value() as int == x;
                        assert(cell_ids@[k].value() as int == x);
                    }
                    if x == cell_id.value() as int {
                        assert(cell_ids@[i as int].value() as int == x);
                    }
                }
                assert(id_set(cell_ids@, i + 1) =~= pattern.cells());
            }
            i = i + 1;
        }
        Ok(pattern)
    }

    pub fn contains(self, cell_id: CellId) -> (r: bool)
        ensures
            r == self.cells().contains(cell_id.value() as int),
    {
        proof {
            use_type_invariant(&self);
        }
        let index = cell_id.index();
        self.marks[index]
    }

    /// Number of inked physical cells.
    pub fn len(self) -> (r: usize)
        ensures
            r as int == self.cells().len(),
            self.cells().finite(),
    {
        let mut count: usize = 0;
        let mut i: usize = 0;
        let ghost mut seen: Set<int> = Set::empty();
        while i < 144
            invariant
                i <= 144,
                seen == Set::new(|j: int| 0 <= j < i && self.marks@[j]),
                seen.finite(),
                count as int == seen.len(),
                count <= i,
            decreases 144 - i,
        {
            if self.marks[i] {
                proof {
                    assert(!seen.contains(i as int));
                    seen = seen.insert(i as int);
                }
                count = count + 1;
            }
            proof {
                assert(seen =~= Set::new(|j: int| 0 <= j < i + 1 && self.marks@[j]));
            }
            i = i + 1;
        }
        assert(seen =~= self.cells());
        count
    }

    pub fn is_empty(self) -> (r: bool)
        ensures
            r <==> self.cells() == Set::<int>::empty(),
            r <==> (forall|i: int| !#[trigger] self.cells().contains(i)),
    {
        let mut i: usize = 0;
        while i < 144
            invariant
                i <= 144,
                forall|j: int| 0 <= j < i ==> !#[trigger] self.marks@[j],
            decreases 144 - i,
        {
            if self.marks[i] {
                assert(self.cells().contains(i as int));
                return false;
            }
            i = i + 1;
        }
        assert(self.cells() =~= Set::<int>::empty());
        true
    }

    /// The inked identities in ascending order.
    pub fn cell_ids(self) -> (r: Vec<CellId>)
        ensures
            forall|j: int| 0 <= j < r@.len() ==> self.cells().contains(#[trigger] r@[j].value() as int),
            forall|j: int, k: int| 0 <= j < k < r@.len() ==> r@[j].value() < r@[k].value(),
            forall|x: int| #[trigger] self.cells().contains(x) ==> exists|j: int|
                0 <= j < r@.len() && r@[j].value() as int == x,
            r@ == self.id_seq(),
    {
        proof {
            use_type_invariant(&self);
        }
        let mut ids: Vec<CellId> = Vec::new();
        let mut i: usize = 0;
        while i < 144
            invariant
                i <= 144,
                forall|j: int| 0 <= j < ids@.len() ==> self.cells().contains(#[trigger] ids@[j].value() as int),
                forall|j: int| 0 <= j < ids@.len() ==> (#[trigger] ids@[j].value() as int) < i,
                forall|j: int, k: int| 0 <= j < k < ids@.len() ==> ids@[j].value() < ids@[k].value(),
                forall|x: int| 0 <= x < i && #[trigger] self.cells().contains(x) ==> exists|j: int|
                    0 <= j < ids@.len() && ids@[j].value() as int == x,
                ids@ == ids_upto(self.marks@, i as int),
            decreases 144 - i,
        {
            if self.marks[i] {
                let id = CellId::from_index(i);
                let ghost before = ids@;
                ids.push(id);
                proof {
                    assert(ids@[ids@.len() - 1].value() as int == i as int);
                    assert forall|x: int| 0 <= x < i + 1 && #[trigger] self.cells().contains(x) implies exists|j: int|
                        0 <= j < ids@.len() && ids@[j].value() as int == x by {
                        if x < i {
                            let j = choose|j: int| 0 <= j < before.len() && before[j].value() as int == x;
                            assert(ids@[j] == before[j]);
                        } else {
                            assert(ids@[ids@.len() - 1].value() as int == x);
                        }
                    }
                    assert(ids@ =~= ids_upto(self.marks@, i + 1));
                }
            } else {
                assert(ids@ =~= ids_upto(self.marks@, i + 1));
            }
            i = i + 1;
        }
        ids
    }

    pub fn dimensions(self) -> (r: Dimensions)
        ensures
            r == self.dims(),
    {
        self.dimensions
    }

    /// Exact equality of two patterns.
    pub fn same(self, other: Self) -> (r: bool)
        ensures
            r == (self == other),
    {
        if !(self.dimensions == other.dimensions) {
            return false;
        }
        let mut i: usize = 0;
        while i < 144
            invariant
                i <= 144,
                forall|j: int| 0 <= j < i ==> self.marks@[j] == other.marks@[j],
            decreases 144 - i,
        {
            if self.marks[i] != other.marks[i] {
                return false;
            }
            i = i + 1;
        }
        assert(self.marks =~= other.marks);
        true
    }

    pub(crate) fn insert(&mut self, cell_id: CellId)
        requires
            (cell_id.value() as int) < old(self).dims().cells_len(),
        ensures
            final(self).dims() == old(self).dims(),
            final(self).cells() == old(self).cells().insert(cell_id.value() as int),
    {
        proof {
            use_type_invariant(&*self);
        }
        let index = cell_id.index();
        self.marks[index] = true;
        assert(self.cells() =~= old(self).cells().insert(cell_id.value() as int));
    }

    pub(crate) fn difference(self, other: Self) -> (r: Self)
        ensures
            r.dims() == self.dims(),
            r.cells() == self.cells().difference(other.cells()),
    {
        proof {
            use_type_invariant(&self);
        }
        let mut marks = [false; 144];
        let mut i: usize = 0;
        while i < 144
            invariant
                i <= 144,
                forall|j: int| 0 <= j < i ==> marks@[j] == (self.marks@[j] && !other.marks@[j]),
                forall|j: int| i <= j < 144 ==> !#[trigger] marks@[j],
            decreases 144 - i,
        {
            marks[i] = self.marks[i] && !other.marks[i];
            i = i + 1;
        }
        let r = InkPattern { dimensions: self.dimensions, marks };
        assert(r.cells() =~= self.cells().difference(other.cells()));
        r
    }
}

/// Where the ink of a paper differs from a target.
#[derive(Clone, Copy, Debug, PartialEq, Eq)]
pub struct InkComparison {
    missing: InkPattern,
    extra: InkPattern,
}

impl InkComparison {
    pub closed spec fn missing_cells(self) -> InkPattern {
        self.missing
    }

    pub closed spec fn extra_cells(self) -> InkPattern {
        self.extra
    }

    pub(crate) fn new(missing: InkPattern, extra: InkPattern) -> (r: Self)
        ensures
            r.missing_cells() == missing,
            r.extra_cells() == extra,
    {
        InkComparison { missing, extra }
    }

    pub fn missing(self) -> (r: InkPattern)
        ensures
            r == self.missing_cells(),
    {
        self.missing
    }

    pub fn extra(self) -> (r: InkPattern)
        ensures
            r == self.extra_cells(),
    {
        self.extra
    }

    /// Whether nothing is missing and nothing is extra.
    pub open spec fn exact(self) -> bool {
        self.missing_cells().cells() == Set::<int>::empty() && self.extra_cells().cells() == Set::<int>::empty()
    }

    pub fn is_exact(self) -> (r: bool)
        ensures
            r == self.exact(),
    {
        self.missing.is_empty() && self.extra.is_empty()
    }
}

} // verus!
