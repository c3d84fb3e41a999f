//! Validated puzzle contracts.

use vstd::prelude::*;
use vstd::relations::{sorted_by, total_ordering};
use vstd::string::StringSliceAdditionalSpecFns;
use vstd::utf8::encode_utf8;

use crate::domain::paper::ink::id_set;
use crate::domain::paper::state::fold_extent;
use crate::domain::paper::{
    BrushRule, CellId, Dimensions, Fold, FoldCount, FoldDirection, InkPattern, PaperError, PaperSpec,
    StrokeAxis, StrokeCount, MAX_ACTIONS, MAX_PHYSICAL_CELLS,
};
use crate::domain::attempt::{fresh_paper, Attempt};
use crate::domain::score::Par;

verus! {

pub const CURRENT_PUZZLE_FORMAT_VERSION: u16 = 1;
pub const MAX_ID_BYTES: usize = 64;
pub const MAX_ALLOWED_FOLDS: usize = 44;
pub const MAX_BRUSH_RULES: usize = 23;

// ---------------------------------------------------------------------------
// Rule ordering
// ---------------------------------------------------------------------------

/// A rule with a total order given by an integer key.
pub trait RuleKey: Sized + Copy {
    spec fn key(&self) -> int;

    fn rule_key(&self) -> (r: u16)
        ensures
            r as int == self.key(),
    ;

    proof fn lemma_key_injective(a: Self, b: Self)
        ensures
            a.key() == b.key() ==> a == b,
    ;
}

impl RuleKey for Fold {
    /// Direction first (left, right, up, down), then crease.
    open spec fn key(&self) -> int {
        self.dir().rank() * 256 + self.cr()
    }

    fn rule_key(&self) -> (r: u16) {
        let rank: u16 = match self.direction() {
            FoldDirection::Left => 0,
            FoldDirection::Right => 1,
            FoldDirection::Up => 2,
            FoldDirection::Down => 3,
        };
        rank * 256 + self.crease() as u16
    }

    proof fn lemma_key_injective(a: Self, b: Self) {
        Fold::lemma_eq(a, b);
    }
}

impl RuleKey for BrushRule {
    /// The dot first, then horizontal lines by length, then vertical lines by length.
    open spec fn key(&self) -> int {
        match *self {
            BrushRule::Dot => 0,
            BrushRule::Line { axis: StrokeAxis::Horizontal, length } => 1 + length,
            BrushRule::Line { axis: StrokeAxis::Vertical, length } => 257 + length,
        }
    }

    fn rule_key(&self) -> (r: u16) {
        match *self {
            BrushRule::Dot => 0,
            BrushRule::Line { axis: StrokeAxis::Horizontal, length } => 1 + length as u16,
            BrushRule::Line { axis: StrokeAxis::Vertical, length } => 257 + length as u16,
        }
    }

    proof fn lemma_key_injective(a: Self, b: Self) {
    }
}

pub open spec fn key_leq<T: RuleKey>() -> spec_fn(T, T) -> bool {
    |a: T, b: T| a.key() <= b.key()
}

/// Rules in ascending key order.
pub open spec fn sorted_rules<T: RuleKey>(s: Seq<T>) -> Seq<T> {
    s.sort_by(key_leq::<T>())
}

pub proof fn lemma_key_total<T: RuleKey>()
    ensures
        total_ordering(key_leq::<T>()),
{
    assert forall|a: T, b: T| #[trigger] key_leq::<T>()(a, b) && #[trigger] key_leq::<T>()(b, a) implies a == b by {
        T::lemma_key_injective(a, b);
    }
}

/// Sorts rules by key.
fn sort_rules<T: RuleKey>(input: Vec<T>) -> (r: Vec<T>)
    ensures
        r@ == sorted_rules(input@),
{
    broadcast use vstd::seq_lib::group_to_multiset_ensures, vstd::multiset::group_multiset_axioms;

    let ghost original = input@;
    let mut remaining = input;
    let mut out: Vec<T> = Vec::new();
    proof {
        assert(out@.to_multiset() =~= vstd::multiset::Multiset::empty());
        assert(out@.to_multiset().add(remaining@.to_multiset()) =~= original.to_multiset());
    }
    while remaining.len() > 0
        invariant
            out@.to_multiset().add(remaining@.to_multiset()) == original.to_multiset(),
            sorted_by(out@, key_leq::<T>()),
            forall|i: int, j: int| 0 <= i < out@.len() && 0 <= j < remaining@.len() ==> #[trigger] out@[i].key()
                <= #[trigger] remaining@[j].key(),
        decreases remaining@.len(),
    {
        let mut best: usize = 0;
        let mut best_key = remaining[0].rule_key();
        let mut k: usize = 1;
        while k < remaining.len()
            invariant
                0 <= best < k <= remaining@.len(),
                best_key as int == remaining@[best as int].key(),
                forall|j: int| 0 <= j < k ==> remaining@[best as int].key() <= #[trigger] remaining@[j].key(),
            decreases remaining@.len() - k,
        {
            let candidate = remaining[k].rule_key();
            if candidate < best_key {
                best = k;
                best_key = candidate;
            }
            k = k + 1;
        }
        let ghost before_out = out@;
        let ghost before_remaining = remaining@;
        let x = remaining.remove(best);
        out.push(x);
        proof {
            assert(before_remaining[best as int] == x);
            assert(before_remaining.contains(x));
            before_remaining.to_multiset_ensures();
            vstd::seq_lib::to_multiset_build(before_out, x);
            vstd::seq_lib::to_multiset_remove(before_remaining, best as int);
            assert(before_remaining.remove(best as int) == remaining@);
            assert(before_out.push(x) == out@);
            assert(before_remaining.to_multiset().count(x) > 0);
            assert(out@.to_multiset().add(remaining@.to_multiset()) =~= before_out.to_multiset().add(
                before_remaining.to_multiset(),
            ));
            assert forall|i: int, j: int| 0 <= i < out@.len() && 0 <= j < remaining@.len() implies #[trigger] out@[i].key()
                <= #[trigger] remaining@[j].key() by {
                if j < best {
                    assert(remaining@[j] == before_remaining[j]);
                } else {
                    assert(remaining@[j] == before_remaining[j + 1]);
                }
                if i < before_out.len() {
                    assert(out@[i] == before_out[i]);
                }
            }
            assert forall|i: int, j: int| 0 <= i < j < out@.len() implies key_leq::<T>()(out@[i], out@[j]) by {
                if j < before_out.len() {
                    assert(out@[i] == before_out[i]);
                    assert(out@[j] == before_out[j]);
                } else {
                    assert(out@[i] == before_out[i]);
                    assert(out@[j] == x);
                }
            }
        }
    }
    proof {
        assert(remaining@.to_multiset() =~= vstd::multiset::Multiset::empty());
        assert(out@.to_multiset() =~= original.to_multiset());
        lemma_key_total::<T>();
        original.lemma_sort_by_ensures(key_leq::<T>());
        vstd::seq_lib::lemma_sorted_unique(out@, original.sort_by(key_leq::<T>()), key_leq::<T>());
    }
    out
}

/// Whether positions `i - 1` and `i` hold the same rule.
pub open spec fn repeat_at<T>(s: Seq<T>, i: int) -> bool {
    1 <= i < s.len() && s[i - 1] == s[i]
}

pub open spec fn first_repeat<T>(s: Seq<T>, i: int) -> bool {
    repeat_at(s, i) && forall|k: int| 0 <= k < i ==> !#[trigger] repeat_at(s, k)
}

/// Finds the first adjacent repeat of a sequence.
fn find_repeat<T: RuleKey>(s: &Vec<T>) -> (r: Option<usize>)
    ensures
        r matches Some(i) ==> first_repeat(s@, i as int),
        r is None ==> forall|i: int| !#[trigger] repeat_at(s@, i),
{
    let mut i: usize = 1;
    while i < s.len()
        invariant
            1 <= i,
            forall|k: int| 0 <= k < i ==> !#[trigger] repeat_at(s@, k),
        decreases s@.len() - i,
    {
        let a = s[i - 1].rule_key();
        let b = s[i].rule_key();
        proof {
            T::lemma_key_injective(s@[i - 1], s@[i as int]);
        }
        if a == b {
            return Some(i);
        }
        i = i + 1;
    }
    proof {
        assert forall|k: int| !#[trigger] repeat_at(s@, k) by {
            if 0 <= k < i {
            }
        }
    }
    None
}

// ---------------------------------------------------------------------------
// Identities
// ---------------------------------------------------------------------------

#[derive(Clone, Copy, Debug, PartialEq, Eq, Hash, Structural)]
pub enum IdentityPart {
    Pack,
    Puzzle,
}

#[derive(Clone, Copy, Debug, PartialEq, Eq, Hash, Structural)]
pub enum IdentityErrorReason {
    Empty,
    TooLong,
    InvalidCharacter,
    InvalidHyphen,
}

/// A lowercase ASCII letter or digit.
pub open spec fn is_segment_byte(b: u8) -> bool {
    (97 <= b <= 122) || (48 <= b <= 57)
}

/// Whether the byte at `k` breaks the identifier grammar, scanning from the start.
pub open spec fn id_byte_bad(bytes: Seq<u8>, k: int) -> bool {
    0 <= k < bytes.len() && !is_segment_byte(bytes[k]) && !(bytes[k] == 45 && !(k > 0 && bytes[k - 1] == 45))
}

pub open spec fn first_bad_id_byte(bytes: Seq<u8>, k: int) -> bool {
    id_byte_bad(bytes, k) && forall|j: int| 0 <= j < k ==> !#[trigger] id_byte_bad(bytes, j)
}

/// Why bytes are not a portable identifier, if they are not one: at most 64 bytes
/// of lowercase letters and digits in segments joined by single hyphens.
pub open spec fn id_error(bytes: Seq<u8>) -> Option<IdentityErrorReason> {
    if bytes.len() == 0 {
        Some(IdentityErrorReason::Empty)
    } else if bytes.len() > 64 {
        Some(IdentityErrorReason::TooLong)
    } else if !is_segment_byte(bytes[0]) || !is_segment_byte(bytes[bytes.len() - 1]) {
        if bytes[0] == 45 || bytes[bytes.len() - 1] == 45 {
            Some(IdentityErrorReason::InvalidHyphen)
        } else {
            Some(IdentityErrorReason::InvalidCharacter)
        }
    } else if exists|k: int| #[trigger] first_bad_id_byte(bytes, k) {
        let k = choose|k: int| #[trigger] first_bad_id_byte(bytes, k);
        if bytes[k] == 45 {
            Some(IdentityErrorReason::InvalidHyphen)
        } else {
            Some(IdentityErrorReason::InvalidCharacter)
        }
    } else {
        None
    }
}

fn is_segment_character(byte: u8) -> (r: bool)
    ensures
        r == is_segment_byte(byte),
{
    (byte >= 97 && byte <= 122) || (byte >= 48 && byte <= 57)
}

#[verifier::loop_isolation(false)]
pub(crate) fn validate_id(value: &str, part: IdentityPart) -> (r: Result<(), PuzzleError>)
    ensures
        r is Ok <==> id_error(value.spec_bytes()) is None,
        r matches Err(e) ==> e == (PuzzleError::InvalidIdentity {
            part,
            reason: id_error(value.spec_bytes())->Some_0,
        }),
{
    let bytes = value.as_bytes();
    let ghost b = value.spec_bytes();
    let n = bytes.len();
    if n == 0 {
        return Err(PuzzleError::InvalidIdentity { part, reason: IdentityErrorReason::Empty });
    }
    if n > MAX_ID_BYTES {
        return Err(PuzzleError::InvalidIdentity { part, reason: IdentityErrorReason::TooLong });
    }
    if !is_segment_character(bytes[0]) || !is_segment_character(bytes[n - 1]) {
        let invalid = if bytes[0] == 45 || bytes[n - 1] == 45 {
            IdentityErrorReason::InvalidHyphen
        } else {
            IdentityErrorReason::InvalidCharacter
        };
        return Err(PuzzleError::InvalidIdentity { part, reason: invalid });
    }
    let mut previous_hyphen = false;
    let mut i: usize = 0;
    while i < n
        invariant
            bytes@ == b,
            n == b.len(),
            1 <= n <= 64,
            is_segment_byte(b[0]),
            is_segment_byte(b[n - 1]),
            i <= n,
            previous_hyphen == (i > 0 && b[i - 1] == 45),
            forall|j: int| 0 <= j < i ==> !#[trigger] id_byte_bad(b, j),
        decreases n - i,
    {
        let byte = bytes[i];
        if is_segment_character(byte) {
            previous_hyphen = false;
        } else if byte == 45 && !previous_hyphen {
            previous_hyphen = true;
        } else {
            proof {
                assert(first_bad_id_byte(b, i as int));
                let k = choose|k: int| #[trigger] first_bad_id_byte(b, k);
                assert(k == i) by {
                    if k < i {
                        assert(!id_byte_bad(b, k));
                    }
                    if k > i {
                        assert(!id_byte_bad(b, i as int));
                    }
                }
            }
            return Err(
                PuzzleError::InvalidIdentity {
                    part,
                    reason: if byte == 45 {
                        IdentityErrorReason::InvalidHyphen
                    } else {
                        IdentityErrorReason::InvalidCharacter
                    },
                },
            );
        }
        i = i + 1;
    }
    Ok(())
}

/// A portable pack-scoped puzzle identity.
#[derive(Debug, PartialEq, Eq, Hash)]
pub struct PuzzleIdentity {
    pack_id: String,
    puzzle_id: String,
}

impl PuzzleIdentity {
    /// Both parts of every identity follow the portable grammar.
    #[verifier::type_invariant]
    spec fn portable(&self) -> bool {
        &&& id_error(encode_utf8(self.pack_id@)) is None
        &&& id_error(encode_utf8(self.puzzle_id@)) is None
    }

    pub closed spec fn pack_view(&self) -> Seq<char> {
        self.pack_id@
    }

    pub closed spec fn puzzle_view(&self) -> Seq<char> {
        self.puzzle_id@
    }

    /// Creates a portable pack-scoped puzzle identity.
    pub fn new(pack_id: &str, puzzle_id: &str) -> (r: Result<Self, PuzzleError>)
        ensures
            r is Ok <==> (id_error(pack_id.spec_bytes()) is None && id_error(puzzle_id.spec_bytes()) is None),
            r matches Ok(id) ==> id.pack_view() == pack_id@ && id.puzzle_view() == puzzle_id@,
            id_error(pack_id.spec_bytes()) is Some ==> r == Err::<Self, PuzzleError>(PuzzleError::InvalidIdentity {
                part: IdentityPart::Pack,
                reason: id_error(pack_id.spec_bytes())->Some_0,
            }),
            (id_error(pack_id.spec_bytes()) is None && id_error(puzzle_id.spec_bytes()) is Some) ==> r == Err::<
                Self,
                PuzzleError,
            >(PuzzleError::InvalidIdentity {
                part: IdentityPart::Puzzle,
                reason: id_error(puzzle_id.spec_bytes())->Some_0,
            }),
    {
        validate_id(pack_id, IdentityPart::Pack)?;
        validate_id(puzzle_id, IdentityPart::Puzzle)?;
        Ok(PuzzleIdentity { pack_id: pack_id.to_owned(), puzzle_id: puzzle_id.to_owned() })
    }

    pub fn pack_id(&self) -> (r: &str)
        ensures
            r@ == self.pack_view(),
    {
        self.pack_id.as_str()
    }

    pub fn puzzle_id(&self) -> (r: &str)
        ensures
            r@ == self.puzzle_view(),
    {
        self.puzzle_id.as_str()
    }

    /// Both parts of an identity are portable identifiers.
    pub fn lemma_portable(&self)
        ensures
            id_error(encode_utf8(self.pack_view())) is None,
            id_error(encode_utf8(self.puzzle_view())) is None,
    {
        proof {
            use_type_invariant(self);
        }
    }

    /// A copy of this identity.
    pub fn duplicate(&self) -> (r: Self)
        ensures
            r.pack_view() == self.pack_view(),
            r.puzzle_view() == self.puzzle_view(),
    {
        proof {
            use_type_invariant(self);
        }
        PuzzleIdentity { pack_id: self.pack_id.clone(), puzzle_id: self.puzzle_id.clone() }
    }

    /// Whether two identities name the same puzzle.
    pub fn same(&self, other: &Self) -> (r: bool)
        ensures
            r == (self.pack_view() == other.pack_view() && self.puzzle_view() == other.puzzle_view()),
    {
        self.pack_id == other.pack_id && self.puzzle_id == other.puzzle_id
    }
}

impl Clone for Puzzle {
    fn clone(&self) -> (r: Self)
        ensures
            r.view() == self.view(),
    {
        self.duplicate()
    }
}

impl Clone for PuzzleIdentity {
    fn clone(&self) -> (r: Self)
        ensures
            r.pack_view() == self.pack_view(),
            r.puzzle_view() == self.puzzle_view(),
    {
        self.duplicate()
    }
}

// ---------------------------------------------------------------------------
// Puzzle specifications
// ---------------------------------------------------------------------------

/// The plain contents of a puzzle specification.
pub struct PuzzleSpecView {
    pub format_version: u16,
    pub pack: Seq<char>,
    pub puzzle: Seq<char>,
    pub width: u8,
    pub height: u8,
    pub target_cells: Seq<CellId>,
    pub allowed_folds: Seq<Fold>,
    pub allowed_brushes: Seq<BrushRule>,
    pub fold_budget: u8,
    pub stroke_budget: u8,
    pub par: Option<Par>,
}

/// An unvalidated puzzle description.
#[derive(Clone, Debug, PartialEq, Eq)]
pub struct PuzzleSpec {
    format_version: u16,
    identity: PuzzleIdentity,
    width: u8,
    height: u8,
    target_cells: Vec<CellId>,
    allowed_folds: Vec<Fold>,
    allowed_brushes: Vec<BrushRule>,
    fold_budget: u8,
    stroke_budget: u8,
    par: Option<Par>,
}

impl PuzzleSpec {
    pub closed spec fn view(&self) -> PuzzleSpecView {
        PuzzleSpecView {
            format_version: self.format_version,
            pack: self.identity.pack_view(),
            puzzle: self.identity.puzzle_view(),
            width: self.width,
            height: self.height,
            target_cells: self.target_cells@,
            allowed_folds: self.allowed_folds@,
            allowed_brushes: self.allowed_brushes@,
            fold_budget: self.fold_budget,
            stroke_budget: self.stroke_budget,
            par: self.par,
        }
    }

    pub fn new(identity: PuzzleIdentity, width: u8, height: u8) -> (r: Self)
        ensures
            r.view() == (PuzzleSpecView {
                format_version: 1,
                pack: identity.pack_view(),
                puzzle: identity.puzzle_view(),
                width,
                height,
                target_cells: Seq::empty(),
                allowed_folds: Seq::empty(),
                allowed_brushes: Seq::empty(),
                fold_budget: 0,
                stroke_budget: 0,
                par: None,
            }),
    {
        let r = PuzzleSpec {
            format_version: CURRENT_PUZZLE_FORMAT_VERSION,
            identity,
            width,
            height,
            target_cells: Vec::new(),
            allowed_folds: Vec::new(),
            allowed_brushes: Vec::new(),
            fold_budget: 0,
            stroke_budget: 0,
            par: None,
        };
        assert(r.view().target_cells =~= Seq::<CellId>::empty());
        assert(r.view().allowed_folds =~= Seq::<Fold>::empty());
        assert(r.view().allowed_brushes =~= Seq::<BrushRule>::empty());
        r
    }

    pub fn with_format_version(self, format_version: u16) -> (r: Self)
        ensures
            r.view() == (PuzzleSpecView { format_version, ..self.view() }),
    {
        PuzzleSpec { format_version, ..self }
    }

    pub fn with_target_cells(self, target_cells: Vec<CellId>) -> (r: Self)
        ensures
            r.view() == (PuzzleSpecView { target_cells: target_cells@, ..self.view() }),
    {
        PuzzleSpec { target_cells, ..self }
    }

    pub fn with_allowed_folds(self, allowed_folds: Vec<Fold>) -> (r: Self)
        ensures
            r.view() == (PuzzleSpecView { allowed_folds: allowed_folds@, ..self.view() }),
    {
        PuzzleSpec { allowed_folds, ..self }
    }

    pub fn with_allowed_brushes(self, allowed_brushes: Vec<BrushRule>) -> (r: Self)
        ensures
            r.view() == (PuzzleSpecView { allowed_brushes: allowed_brushes@, ..self.view() }),
    {
        PuzzleSpec { allowed_brushes, ..self }
    }

    pub fn with_budgets(self, fold_budget: u8, stroke_budget: u8) -> (r: Self)
        ensures
            r.view() == (PuzzleSpecView { fold_budget, stroke_budget, ..self.view() }),
    {
        PuzzleSpec { fold_budget, stroke_budget, ..self }
    }

    pub fn with_par(self, par: Par) -> (r: Self)
        ensures
            r.view() == (PuzzleSpecView { par: Some(par), ..self.view() }),
    {
        PuzzleSpec { par: Some(par), ..self }
    }
}

// ---------------------------------------------------------------------------
// Validation rules
// ---------------------------------------------------------------------------

/// Whether entry `k` is outside the paper or repeats an earlier entry.
pub open spec fn target_bad(ids: Seq<CellId>, n: int, k: int) -> bool {
    0 <= k < ids.len() && ((ids[k].value() as int) >= n || exists|j: int| 0 <= j < k && #[trigger] ids[j] == ids[k])
}

pub open spec fn first_target_bad(ids: Seq<CellId>, n: int, k: int) -> bool {
    target_bad(ids, n, k) && forall|j: int| 0 <= j < k ==> !#[trigger] target_bad(ids, n, j)
}

pub open spec fn target_error(d: Dimensions, ids: Seq<CellId>) -> Option<PuzzleError> {
    if ids.len() > 144 {
        Some(PuzzleError::Paper(PaperError::TooManyTargetCells { count: ids.len() as usize }))
    } else if exists|k: int| #[trigger] first_target_bad(ids, d.cells_len(), k) {
        let k = choose|k: int| #[trigger] first_target_bad(ids, d.cells_len(), k);
        if (ids[k].value() as int) >= d.cells_len() {
            Some(
                PuzzleError::Paper(
                    PaperError::CellOutsidePaper { cell_id: ids[k], cell_count: d.cells_len() as usize },
                ),
            )
        } else {
            Some(PuzzleError::DuplicateTargetCell { cell_id: ids[k] })
        }
    } else {
        None
    }
}

pub open spec fn crease_bad(d: Dimensions, f: Fold) -> bool {
    f.cr() == 0 || f.cr() >= fold_extent(d, f)
}

pub open spec fn first_bad_crease(d: Dimensions, s: Seq<Fold>, i: int) -> bool {
    0 <= i < s.len() && crease_bad(d, s[i]) && forall|k: int| 0 <= k < i ==> !crease_bad(d, #[trigger] s[k])
}

/// Why sorted fold rules are refused, if they are.
pub open spec fn fold_rules_error(d: Dimensions, s: Seq<Fold>) -> Option<PuzzleError> {
    if exists|i: int| #[trigger] first_repeat(s, i) {
        let i = choose|i: int| #[trigger] first_repeat(s, i);
        Some(PuzzleError::DuplicateAllowedFold { fold: s[i] })
    } else if exists|i: int| #[trigger] first_bad_crease(d, s, i) {
        let i = choose|i: int| #[trigger] first_bad_crease(d, s, i);
        Some(PuzzleError::AllowedCreaseOutsidePaper { fold: s[i], extent: fold_extent(d, s[i]) as u8 })
    } else {
        None
    }
}

pub open spec fn line_extent(d: Dimensions, axis: StrokeAxis) -> int {
    match axis {
        StrokeAxis::Horizontal => d.w(),
        StrokeAxis::Vertical => d.h(),
    }
}

pub open spec fn brush_bad(d: Dimensions, b: BrushRule) -> bool {
    match b {
        BrushRule::Dot => false,
        BrushRule::Line { axis, length } => length < 2 || length > line_extent(d, axis),
    }
}

pub open spec fn first_bad_brush(d: Dimensions, s: Seq<BrushRule>, i: int) -> bool {
    0 <= i < s.len() && brush_bad(d, s[i]) && forall|k: int| 0 <= k < i ==> !brush_bad(d, #[trigger] s[k])
}

/// Why sorted brush rules are refused, if they are.
pub open spec fn brush_rules_error(d: Dimensions, s: Seq<BrushRule>) -> Option<PuzzleError> {
    if exists|i: int| #[trigger] first_repeat(s, i) {
        let i = choose|i: int| #[trigger] first_repeat(s, i);
        Some(PuzzleError::DuplicateBrushRule { rule: s[i] })
    } else if exists|i: int| #[trigger] first_bad_brush(d, s, i) {
        let i = choose|i: int| #[trigger] first_bad_brush(d, s, i);
        match s[i] {
            BrushRule::Line { axis, length } => Some(
                PuzzleError::LineLengthOutOfRange { axis, length, extent: line_extent(d, axis) as u8 },
            ),
            BrushRule::Dot => None,
        }
    } else {
        None
    }
}

/// Budgets and rules must come together.
pub open spec fn budget_rules_error(fold_budget: int, stroke_budget: int, folds: int, brushes: int) -> Option<PuzzleError> {
    if fold_budget == 0 && folds > 0 {
        Some(PuzzleError::FoldRulesWithoutBudget)
    } else if fold_budget > 0 && folds == 0 {
        Some(PuzzleError::FoldBudgetWithoutRules)
    } else if stroke_budget == 0 && brushes > 0 {
        Some(PuzzleError::BrushRulesWithoutBudget)
    } else if stroke_budget > 0 && brushes == 0 {
        Some(PuzzleError::StrokeBudgetWithoutRules)
    } else {
        None
    }
}

/// Why a specification is refused, if it is, checked in this order: format version,
/// size, budgets, target cells, fold rules, brush rules, budgets against rules,
/// a target that needs a stroke, and par against budgets.
pub open spec fn puzzle_error(v: PuzzleSpecView) -> Option<PuzzleError> {
    let d = Dimensions::spec_of(v.width, v.height);
    if v.format_version != 1 {
        Some(PuzzleError::UnsupportedFormatVersion { found: v.format_version, supported: 1 })
    } else if !(4 <= v.width <= 12) {
        Some(PuzzleError::Paper(PaperError::WidthOutOfRange { value: v.width }))
    } else if !(4 <= v.height <= 12) {
        Some(PuzzleError::Paper(PaperError::HeightOutOfRange { value: v.height }))
    } else if v.fold_budget > 12 {
        Some(PuzzleError::Paper(PaperError::FoldBudgetOutOfRange { value: v.fold_budget }))
    } else if v.stroke_budget > 8 {
        Some(PuzzleError::Paper(PaperError::StrokeBudgetOutOfRange { value: v.stroke_budget }))
    } else if target_error(d, v.target_cells) is Some {
        target_error(d, v.target_cells)
    } else if v.allowed_folds.len() > 44 {
        Some(PuzzleError::TooManyAllowedFolds { count: v.allowed_folds.len() as usize, limit: 44 })
    } else if fold_rules_error(d, sorted_rules(v.allowed_folds)) is Some {
        fold_rules_error(d, sorted_rules(v.allowed_folds))
    } else if v.allowed_brushes.len() > 23 {
        Some(PuzzleError::TooManyBrushRules { count: v.allowed_brushes.len() as usize, limit: 23 })
    } else if brush_rules_error(d, sorted_rules(v.allowed_brushes)) is Some {
        brush_rules_error(d, sorted_rules(v.allowed_brushes))
    } else if budget_rules_error(
        v.fold_budget as int,
        v.stroke_budget as int,
        v.allowed_folds.len() as int,
        v.allowed_brushes.len() as int,
    ) is Some {
        budget_rules_error(
            v.fold_budget as int,
            v.stroke_budget as int,
            v.allowed_folds.len() as int,
            v.allowed_brushes.len() as int,
        )
    } else if v.target_cells.len() > 0 && v.stroke_budget == 0 {
        Some(PuzzleError::TargetNeedsStroke)
    } else if v.par matches Some(par) && (par.fold_part().value() > v.fold_budget
        || par.stroke_part().value() > v.stroke_budget) {
        Some(
            PuzzleError::ParExceedsBudget {
                par: v.par->Some_0,
                fold_budget: FoldCount::spec_of(v.fold_budget),
                stroke_budget: StrokeCount::spec_of(v.stroke_budget),
            },
        )
    } else {
        None
    }
}

fn validate_target_cells(dimensions: Dimensions, target_cells: &Vec<CellId>) -> (r: Result<(), PuzzleError>)
    ensures
        r is Ok <==> target_error(dimensions, target_cells@) is None,
        r matches Err(e) ==> target_error(dimensions, target_cells@) == Some(e),
        r is Ok ==> target_cells@.len() <= 144 && forall|k: int|
            0 <= k < target_cells@.len() ==> !#[trigger] target_bad(target_cells@, dimensions.cells_len(), k),
{
    let ghost ids = target_cells@;
    if target_cells.len() > MAX_PHYSICAL_CELLS {
        return Err(PuzzleError::Paper(PaperError::TooManyTargetCells { count: target_cells.len() }));
    }
    let count = dimensions.cell_count();
    let mut seen = [false; 144];
    let mut i: usize = 0;
    while i < target_cells.len()
        invariant
            ids == target_cells@,
            ids.len() <= 144,
            count as int == dimensions.cells_len(),
            i <= ids.len(),
            forall|j: int| 0 <= j < i ==> !#[trigger] target_bad(ids, dimensions.cells_len(), j),
            forall|x: int| 0 <= x < 144 ==> (#[trigger] seen@[x] <==> exists|j: int| 0 <= j < i && ids[j].value() as int == x),
        decreases ids.len() - i,
    {
        let cell_id = target_cells[i];
        let index = cell_id.index();
        if index >= count {
            proof {
                assert(first_target_bad(ids, dimensions.cells_len(), i as int));
                let k = choose|k: int| #[trigger] first_target_bad(ids, dimensions.cells_len(), k);
                assert(k == i) by {
                    if k < i {
                        assert(!target_bad(ids, dimensions.cells_len(), k));
                    }
                    if k > i {
                        assert(!target_bad(ids, dimensions.cells_len(), i as int));
                    }
                }
            }
            return Err(PuzzleError::Paper(PaperError::CellOutsidePaper { cell_id, cell_count: count }));
        }
        if seen[index] {
            proof {
                let j = choose|j: int| 0 <= j < i && ids[j].value() as int == index as int;
                CellId::lemma_eq(ids[j], ids[i as int]);
                assert(target_bad(ids, dimensions.cells_len(), i as int));
                assert(first_target_bad(ids, dimensions.cells_len(), i as int));
                let k = choose|k: int| #[trigger] first_target_bad(ids, dimensions.cells_len(), k);
                assert(k == i) by {
                    if k < i {
                        assert(!target_bad(ids, dimensions.cells_len(), k));
                    }
                    if k > i {
                        assert(!target_bad(ids, dimensions.cells_len(), i as int));
                    }
                }
            }
            return Err(PuzzleError::DuplicateTargetCell { cell_id });
        }
        proof {
            assert forall|j: int| 0 <= j < i implies #[trigger] ids[j] != ids[i as int] by {
                CellId::lemma_eq(ids[j], ids[i as int]);
                if ids[j] == ids[i as int] {
                    assert(seen@[index as int]);
                }
            }
            assert(!target_bad(ids, dimensions.cells_len(), i as int));
        }
        seen[index] = true;
        proof {
            assert forall|x: int| 0 <= x < 144 implies (#[trigger] seen@[x] <==> exists|j: int| 0 <= j < i + 1 && ids[j].value() as int == x) by {
                if x == index {
                    assert(ids[i as int].value() as int == x);
                } else if seen@[x] {
                    let j = choose|j: int| 0 <= j < i && ids[j].value() as int == x;
                    assert(0 <= j < i + 1 && ids[j].value() as int == x);
                }
            }
        }
        i = i + 1;
    }
    proof {
        assert(!exists|k: int| #[trigger] first_target_bad(ids, dimensions.cells_len(), k));
    }
    Ok(())
}

fn fold_extent_of(dimensions: Dimensions, fold: Fold) -> (r: u8)
    ensures
        r as int == fold_extent(dimensions, fold),
{
    match fold.direction().axis() {
        crate::domain::paper::FoldAxis::Vertical => dimensions.width().get(),
        crate::domain::paper::FoldAxis::Horizontal => dimensions.height().get(),
    }
}

#[verifier::loop_isolation(false)]
fn validate_allowed_folds(dimensions: Dimensions, allowed_folds: Vec<Fold>) -> (r: Result<Vec<Fold>, PuzzleError>)
    ensures
        allowed_folds@.len() > 44 ==> r == Err::<Vec<Fold>, PuzzleError>(PuzzleError::TooManyAllowedFolds {
            count: allowed_folds@.len() as usize,
            limit: 44,
        }),
        allowed_folds@.len() <= 44 ==> match fold_rules_error(dimensions, sorted_rules(allowed_folds@)) {
            Some(e) => r matches Err(x) && x == e,
            None => r matches Ok(v) && v@ == sorted_rules(allowed_folds@),
        },
        r matches Ok(v) ==> forall|k: int| 0 <= k < v@.len() ==> !crease_bad(dimensions, #[trigger] v@[k]),
{
    let ghost input = allowed_folds@;
    if allowed_folds.len() > MAX_ALLOWED_FOLDS {
        return Err(PuzzleError::TooManyAllowedFolds { count: allowed_folds.len(), limit: MAX_ALLOWED_FOLDS });
    }
    let sorted = sort_rules(allowed_folds);
    let ghost s = sorted@;
    match find_repeat(&sorted) {
        Some(i) => {
            proof {
                let k = choose|k: int| #[trigger] first_repeat(s, k);
                assert(k == i) by {
                    if k < i {
                        assert(!repeat_at(s, k));
                    }
                    if k > i {
                        assert(!repeat_at(s, i as int));
                    }
                }
            }
            return Err(PuzzleError::DuplicateAllowedFold { fold: sorted[i - 1] });
        },
        None => {},
    }
    let mut i: usize = 0;
    while i < sorted.len()
        invariant
            s == sorted@,
            s == sorted_rules(input),
            input.len() <= 44,
            forall|k: int| !#[trigger] repeat_at(s, k),
            i <= s.len(),
            forall|k: int| 0 <= k < i ==> !crease_bad(dimensions, #[trigger] s[k]),
        decreases s.len() - i,
    {
        let fold = sorted[i];
        let extent = fold_extent_of(dimensions, fold);
        if fold.crease() == 0 || fold.crease() >= extent {
            proof {
                assert(first_bad_crease(dimensions, s, i as int));
                assert(!exists|k: int| #[trigger] first_repeat(s, k));
                let k = choose|k: int| #[trigger] first_bad_crease(dimensions, s, k);
                assert(k == i) by {
                    if k < i {
                        assert(!crease_bad(dimensions, s[k]));
                    }
                    if k > i {
                        assert(!crease_bad(dimensions, s[i as int]));
                    }
                }
            }
            return Err(PuzzleError::AllowedCreaseOutsidePaper { fold, extent });
        }
        i = i + 1;
    }
    proof {
        assert(!exists|k: int| #[trigger] first_repeat(s, k));
        assert(!exists|k: int| #[trigger] first_bad_crease(dimensions, s, k));
    }
    Ok(sorted)
}

fn line_extent_of(dimensions: Dimensions, axis: StrokeAxis) -> (r: u8)
    ensures
        r as int == line_extent(dimensions, axis),
{
    match axis {
        StrokeAxis::Horizontal => dimensions.width().get(),
        StrokeAxis::Vertical => dimensions.height().get(),
    }
}

#[verifier::loop_isolation(false)]
fn validate_allowed_brushes(dimensions: Dimensions, allowed_brushes: Vec<BrushRule>) -> (r: Result<Vec<BrushRule>, PuzzleError>)
    ensures
        allowed_brushes@.len() > 23 ==> r == Err::<Vec<BrushRule>, PuzzleError>(PuzzleError::TooManyBrushRules {
            count: allowed_brushes@.len() as usize,
            limit: 23,
        }),
        allowed_brushes@.len() <= 23 ==> match brush_rules_error(dimensions, sorted_rules(allowed_brushes@)) {
            Some(e) => r matches Err(x) && x == e,
            None => r matches Ok(v) && v@ == sorted_rules(allowed_brushes@),
        },
        r matches Ok(v) ==> forall|k: int| 0 <= k < v@.len() ==> !brush_bad(dimensions, #[trigger] v@[k]),
{
    let ghost input = allowed_brushes@;
    if allowed_brushes.len() > MAX_BRUSH_RULES {
        return Err(PuzzleError::TooManyBrushRules { count: allowed_brushes.len(), limit: MAX_BRUSH_RULES });
    }
    let sorted = sort_rules(allowed_brushes);
    let ghost s = sorted@;
    match find_repeat(&sorted) {
        Some(i) => {
            proof {
                let k = choose|k: int| #[trigger] first_repeat(s, k);
                assert(k == i) by {
                    if k < i {
                        assert(!repeat_at(s, k));
                    }
                    if k > i {
                        assert(!repeat_at(s, i as int));
                    }
                }
            }
            return Err(PuzzleError::DuplicateBrushRule { rule: sorted[i - 1] });
        },
        None => {},
    }
    let mut i: usize = 0;
    while i < sorted.len()
        invariant
            s == sorted@,
            s == sorted_rules(input),
            input.len() <= 23,
            forall|k: int| !#[trigger] repeat_at(s, k),
            i <= s.len(),
            forall|k: int| 0 <= k < i ==> !brush_bad(dimensions, #[trigger] s[k]),
        decreases s.len() - i,
    {
        let rule = sorted[i];
        match rule {
            BrushRule::Dot => {},
            BrushRule::Line { axis, length } => {
                let extent = line_extent_of(dimensions, axis);
                if length < 2 || length > extent {
                    proof {
                        assert(first_bad_brush(dimensions, s, i as int));
                        assert(!exists|k: int| #[trigger] first_repeat(s, k));
                        let k = choose|k: int| #[trigger] first_bad_brush(dimensions, s, k);
                        assert(k == i) by {
                            if k < i {
                                assert(!brush_bad(dimensions, s[k]));
                            }
                            if k > i {
                                assert(!brush_bad(dimensions, s[i as int]));
                            }
                        }
                    }
                    return Err(PuzzleError::LineLengthOutOfRange { axis, length, extent });
                }
            },
        }
        i = i + 1;
    }
    proof {
        assert(!exists|k: int| #[trigger] first_repeat(s, k));
        assert(!exists|k: int| #[trigger] first_bad_brush(dimensions, s, k));
    }
    Ok(sorted)
}

fn validate_budget_rules(fold_budget: FoldCount, stroke_budget: StrokeCount, folds: usize, brushes: usize) -> (r:
    Result<(), PuzzleError>)
    ensures
        r is Ok <==> budget_rules_error(fold_budget.value() as int, stroke_budget.value() as int, folds as int, brushes as int) is None,
        r matches Err(e) ==> budget_rules_error(fold_budget.value() as int, stroke_budget.value() as int, folds as int, brushes as int) == Some(e),
{
    if fold_budget.get() == 0 && folds > 0 {
        return Err(PuzzleError::FoldRulesWithoutBudget);
    }
    if fold_budget.get() > 0 && folds == 0 {
        return Err(PuzzleError::FoldBudgetWithoutRules);
    }
    if stroke_budget.get() == 0 && brushes > 0 {
        return Err(PuzzleError::BrushRulesWithoutBudget);
    }
    if stroke_budget.get() > 0 && brushes == 0 {
        return Err(PuzzleError::StrokeBudgetWithoutRules);
    }
    Ok(())
}

// ---------------------------------------------------------------------------
// Puzzles
// ---------------------------------------------------------------------------

/// The plain contents of a validated puzzle.
pub struct PuzzleView {
    pub format_version: u16,
    pub pack: Seq<char>,
    pub puzzle: Seq<char>,
    pub dims: Dimensions,
    pub target: InkPattern,
    pub folds: Seq<Fold>,
    pub brushes: Seq<BrushRule>,
    pub fold_budget: FoldCount,
    pub stroke_budget: StrokeCount,
    pub par: Option<Par>,
}

/// Copies a slice of plain values.
pub fn copy_vec<T: Copy>(v: &Vec<T>) -> (r: Vec<T>)
    ensures
        r@ == v@,
{
    let mut out: Vec<T> = Vec::with_capacity(v.len());
    let mut i: usize = 0;
    while i < v.len()
        invariant
            i <= v@.len(),
            out@ == v@.subrange(0, i as int),
        decreases v@.len() - i,
    {
        out.push(v[i]);
        i = i + 1;
        assert(out@ =~= v@.subrange(0, i as int));
    }
    assert(out@ =~= v@);
    out
}

/// Copies a slice of plain values.
pub fn copy_slice<T: Copy>(v: &[T]) -> (r: Vec<T>)
    ensures
        r@ == v@,
{
    let mut out: Vec<T> = Vec::with_capacity(v.len());
    let mut i: usize = 0;
    while i < v.len()
        invariant
            i <= v@.len(),
            out@ == v@.subrange(0, i as int),
        decreases v@.len() - i,
    {
        out.push(v[i]);
        i = i + 1;
        assert(out@ =~= v@.subrange(0, i as int));
    }
    assert(out@ =~= v@);
    out
}

/// A validated, playable puzzle.
#[derive(Debug, PartialEq, Eq)]
pub struct Puzzle {
    format_version: u16,
    identity: PuzzleIdentity,
    dimensions: Dimensions,
    target: InkPattern,
    allowed_folds: Vec<Fold>,
    allowed_brushes: Vec<BrushRule>,
    fold_budget: FoldCount,
    stroke_budget: StrokeCount,
    par: Option<Par>,
}

impl Puzzle {
    /// Every puzzle is what validation builds from its own specification.
    #[verifier::type_invariant]
    spec fn validated(&self) -> bool {
        as_built(self.view())
    }

    /// A puzzle is what validation builds from its own specification.
    pub fn lemma_as_built(&self)
        ensures
            as_built(self.view()),
    {
        proof {
            use_type_invariant(self);
        }
    }

    pub closed spec fn view(&self) -> PuzzleView {
        PuzzleView {
            format_version: self.format_version,
            pack: self.identity.pack_view(),
            puzzle: self.identity.puzzle_view(),
            dims: self.dimensions,
            target: self.target,
            folds: self.allowed_folds@,
            brushes: self.allowed_brushes@,
            fold_budget: self.fold_budget,
            stroke_budget: self.stroke_budget,
            par: self.par,
        }
    }

    /// What every validated puzzle satisfies.
    pub open spec fn wf(&self) -> bool {
        let v = self.view();
        &&& v.dims.wf()
        &&& v.target.dims() == v.dims
        &&& v.fold_budget.value() <= 12
        &&& v.stroke_budget.value() <= 8
        &&& v.folds.len() <= 44
        &&& v.brushes.len() <= 23
        &&& forall|k: int| 0 <= k < v.folds.len() ==> !crease_bad(v.dims, #[trigger] v.folds[k])
        &&& forall|k: int| 0 <= k < v.brushes.len() ==> !brush_bad(v.dims, #[trigger] v.brushes[k])
    }

    /// Validates and constructs one playable puzzle.
    pub fn new(spec: PuzzleSpec) -> (r: Result<Self, PuzzleError>)
        ensures
            r is Ok <==> puzzle_error(spec.view()) is None,
            r matches Err(e) ==> puzzle_error(spec.view()) == Some(e),
            r matches Ok(p) ==> {
                let v = spec.view();
                &&& p.wf()
                &&& p.view().format_version == v.format_version
                &&& p.view().pack == v.pack
                &&& p.view().puzzle == v.puzzle
                &&& p.view().dims == Dimensions::spec_of(v.width, v.height)
                &&& p.view().target.cells() == id_set(v.target_cells, v.target_cells.len() as int)
                &&& p.view().folds == sorted_rules(v.allowed_folds)
                &&& p.view().brushes == sorted_rules(v.allowed_brushes)
                &&& p.view().fold_budget.value() == v.fold_budget
                &&& p.view().stroke_budget.value() == v.stroke_budget
                &&& p.view().par == v.par
                &&& rules_hold(p.view())
            },
    {
        let ghost v = spec.view();
        proof {
            Dimensions::lemma_spec_of(v.width, v.height);
            FoldCount::lemma_spec_of(v.fold_budget);
            StrokeCount::lemma_spec_of(v.stroke_budget);
        }
        if spec.format_version != CURRENT_PUZZLE_FORMAT_VERSION {
            return Err(PuzzleError::UnsupportedFormatVersion {
                found: spec.format_version,
                supported: CURRENT_PUZZLE_FORMAT_VERSION,
            });
        }
        let dimensions = match Dimensions::new(spec.width, spec.height) {
            Ok(dimensions) => dimensions,
            Err(error) => return Err(PuzzleError::Paper(error)),
        };
        proof {
            Dimensions::lemma_eq(dimensions, Dimensions::spec_of(v.width, v.height));
        }
        let fold_budget = match FoldCount::new(spec.fold_budget) {
            Ok(budget) => budget,
            Err(error) => return Err(PuzzleError::Paper(error)),
        };
        let stroke_budget = match StrokeCount::new(spec.stroke_budget) {
            Ok(budget) => budget,
            Err(error) => return Err(PuzzleError::Paper(error)),
        };
        validate_target_cells(dimensions, &spec.target_cells)?;
        proof {
            assert forall|k: int| 0 <= k < v.target_cells.len() implies (#[trigger] v.target_cells[k].value() as int)
                < dimensions.cells_len() by {
                assert(!target_bad(v.target_cells, dimensions.cells_len(), k));
            }
        }
        let target = match InkPattern::from_cell_ids(dimensions, spec.target_cells.as_slice()) {
            Ok(target) => target,
            Err(error) => return Err(PuzzleError::Paper(error)),
        };
        let allowed_folds = validate_allowed_folds(dimensions, spec.allowed_folds)?;
        let allowed_brushes = validate_allowed_brushes(dimensions, spec.allowed_brushes)?;
        proof {
            broadcast use vstd::seq_lib::group_to_multiset_ensures;
            lemma_key_total::<Fold>();
            lemma_key_total::<BrushRule>();
            v.allowed_folds.lemma_sort_by_ensures(key_leq::<Fold>());
            v.allowed_brushes.lemma_sort_by_ensures(key_leq::<BrushRule>());
            v.allowed_folds.to_multiset_ensures();
            v.allowed_brushes.to_multiset_ensures();
            allowed_folds@.to_multiset_ensures();
            allowed_brushes@.to_multiset_ensures();
            assert(allowed_folds@.len() == v.allowed_folds.len());
            assert(allowed_brushes@.len() == v.allowed_brushes.len());
        }
        validate_budget_rules(fold_budget, stroke_budget, allowed_folds.len(), allowed_brushes.len())?;
        let is_empty = target.is_empty();
        proof {
            if v.target_cells.len() > 0 {
                assert(target.cells().contains(v.target_cells[0].value() as int));
            }
            if !is_empty {
                let x = choose|x: int| target.cells().contains(x);
                assert(id_set(v.target_cells, v.target_cells.len() as int).contains(x));
            }
        }
        if !is_empty && stroke_budget.get() == 0 {
            return Err(PuzzleError::TargetNeedsStroke);
        }
        match spec.par {
            Some(par) => {
                if par.folds().get() > fold_budget.get() || par.strokes().get() > stroke_budget.get() {
                    return Err(PuzzleError::ParExceedsBudget { par, fold_budget, stroke_budget });
                }
            },
            None => {},
        }
        target.lemma_id_seq();
        spec.identity.lemma_portable();
        let ghost built = PuzzleView {
            format_version: spec.format_version,
            pack: spec.identity.pack_view(),
            puzzle: spec.identity.puzzle_view(),
            dims: dimensions,
            target,
            folds: allowed_folds@,
            brushes: allowed_brushes@,
            fold_budget,
            stroke_budget,
            par: spec.par,
        };
        proof {
            assert(built_view(built, v));
            lemma_own_spec(v, built);
            assert(as_built(built));
            lemma_as_built_rules(built);
        }
        Ok(Puzzle {
            format_version: spec.format_version,
            identity: spec.identity,
            dimensions,
            target,
            allowed_folds,
            allowed_brushes,
            fold_budget,
            stroke_budget,
            par: spec.par,
        })
    }

    pub fn format_version(&self) -> (r: u16)
        ensures
            r == self.view().format_version,
    {
        self.format_version
    }

    pub fn identity(&self) -> (r: &PuzzleIdentity)
        ensures
            r.pack_view() == self.view().pack,
            r.puzzle_view() == self.view().puzzle,
    {
        &self.identity
    }

    pub fn dimensions(&self) -> (r: Dimensions)
        ensures
            r == self.view().dims,
    {
        self.dimensions
    }

    pub fn target(&self) -> (r: InkPattern)
        ensures
            r == self.view().target,
    {
        self.target
    }

    pub fn allowed_folds(&self) -> (r: &[Fold])
        ensures
            r@ == self.view().folds,
    {
        self.allowed_folds.as_slice()
    }

    pub fn allowed_brushes(&self) -> (r: &[BrushRule])
        ensures
            r@ == self.view().brushes,
    {
        self.allowed_brushes.as_slice()
    }

    pub fn fold_budget(&self) -> (r: FoldCount)
        ensures
            r == self.view().fold_budget,
    {
        self.fold_budget
    }

    pub fn stroke_budget(&self) -> (r: StrokeCount)
        ensures
            r == self.view().stroke_budget,
    {
        self.stroke_budget
    }

    pub fn par(&self) -> (r: Option<Par>)
        ensures
            r == self.view().par,
    {
        self.par
    }

    /// A copy of this puzzle.
    pub fn duplicate(&self) -> (r: Self)
        ensures
            r.view() == self.view(),
    {
        proof {
            use_type_invariant(self);
        }
        Puzzle {
            format_version: self.format_version,
            identity: self.identity.duplicate(),
            dimensions: self.dimensions,
            target: self.target,
            allowed_folds: copy_vec(&self.allowed_folds),
            allowed_brushes: copy_vec(&self.allowed_brushes),
            fold_budget: self.fold_budget,
            stroke_budget: self.stroke_budget,
            par: self.par,
        }
    }

    /// The complete bounded gameplay revision for replay validation.
    pub fn revision(&self) -> (r: PuzzleRevision)
        ensures
            r.view() == self.revision_view(),
    {
        PuzzleRevision {
            dimensions: self.dimensions,
            target: self.target,
            allowed_folds: copy_vec(&self.allowed_folds),
            allowed_brushes: copy_vec(&self.allowed_brushes),
            fold_budget: self.fold_budget,
            stroke_budget: self.stroke_budget,
            par: self.par,
        }
    }

    /// Everything in a puzzle that can change legal actions or result evaluation.
    pub open spec fn revision_view(&self) -> (Dimensions, InkPattern, Seq<Fold>, Seq<BrushRule>, FoldCount, StrokeCount, Option<Par>) {
        revision_of(self.view())
    }

    /// Starts an attempt that owns a copy of this validated puzzle.
    pub fn start(&self) -> (r: Attempt)
        requires
            self.wf(),
        ensures
            r.wf(),
            r.puzzle_view() == self.view(),
            r.paper_model() == fresh_paper(self.view()),
            r.undos() == 0,
            !r.hints(),
    {
        Attempt::new(self.duplicate())
    }

    /// The size and budgets of the paper an attempt plays on.
    pub fn paper_spec(&self) -> (r: PaperSpec)
        requires
            self.wf(),
        ensures
            r.view_tuple() == (
                self.view().dims.w() as u8,
                self.view().dims.h() as u8,
                self.view().fold_budget.value(),
                self.view().stroke_budget.value(),
                64u8,
            ),
    {
        PaperSpec::new(
            self.dimensions.width().get(),
            self.dimensions.height().get(),
            self.fold_budget.get(),
            self.stroke_budget.get(),
            MAX_ACTIONS,
        )
    }
}

/// Everything in a puzzle that can change legal actions or result evaluation.
pub open spec fn revision_of(v: PuzzleView) -> (Dimensions, InkPattern, Seq<Fold>, Seq<BrushRule>, FoldCount, StrokeCount, Option<Par>) {
    (v.dims, v.target, v.folds, v.brushes, v.fold_budget, v.stroke_budget, v.par)
}

/// The exact bounded gameplay definition used to bind saved replays.
#[derive(Clone, Debug, PartialEq, Eq, Hash)]
pub struct PuzzleRevision {
    dimensions: Dimensions,
    target: InkPattern,
    allowed_folds: Vec<Fold>,
    allowed_brushes: Vec<BrushRule>,
    fold_budget: FoldCount,
    stroke_budget: StrokeCount,
    par: Option<Par>,
}

fn same_rules<T: RuleKey>(a: &Vec<T>, b: &Vec<T>) -> (r: bool)
    ensures
        r == (a@ == b@),
{
    if a.len() != b.len() {
        return false;
    }
    let mut i: usize = 0;
    while i < a.len()
        invariant
            a@.len() == b@.len(),
            i <= a@.len(),
            forall|k: int| 0 <= k < i ==> a@[k] == b@[k],
        decreases a@.len() - i,
    {
        proof {
            T::lemma_key_injective(a@[i as int], b@[i as int]);
        }
        if a[i].rule_key() != b[i].rule_key() {
            return false;
        }
        i = i + 1;
    }
    assert(a@ =~= b@);
    true
}

impl PuzzleRevision {
    pub closed spec fn view(&self) -> (Dimensions, InkPattern, Seq<Fold>, Seq<BrushRule>, FoldCount, StrokeCount, Option<Par>) {
        (
            self.dimensions,
            self.target,
            self.allowed_folds@,
            self.allowed_brushes@,
            self.fold_budget,
            self.stroke_budget,
            self.par,
        )
    }

    /// A copy of this revision.
    pub fn duplicate(&self) -> (r: Self)
        ensures
            r.view() == self.view(),
    {
        PuzzleRevision {
            dimensions: self.dimensions,
            target: self.target,
            allowed_folds: copy_vec(&self.allowed_folds),
            allowed_brushes: copy_vec(&self.allowed_brushes),
            fold_budget: self.fold_budget,
            stroke_budget: self.stroke_budget,
            par: self.par,
        }
    }

    /// Whether this revision is exactly the gameplay definition of a puzzle.
    pub fn matches(&self, puzzle: &Puzzle) -> (r: bool)
        ensures
            r == (self.view() == puzzle.revision_view()),
    {
        let same_par = match (self.par, puzzle.par) {
            (Some(a), Some(b)) => a == b,
            (None, None) => true,
            _ => false,
        };
        self.dimensions == puzzle.dimensions && self.target.same(puzzle.target) && same_rules(
            &self.allowed_folds,
            &puzzle.allowed_folds,
        ) && same_rules(&self.allowed_brushes, &puzzle.allowed_brushes) && self.fold_budget
            == puzzle.fold_budget && self.stroke_budget == puzzle.stroke_budget && same_par
    }
}

/// The view of the puzzle that `Puzzle::new` builds from a specification.
pub open spec fn built_view(p: PuzzleView, v: PuzzleSpecView) -> bool {
    &&& p.format_version == v.format_version
    &&& p.pack == v.pack
    &&& p.puzzle == v.puzzle
    &&& p.dims == Dimensions::spec_of(v.width, v.height)
    &&& p.target.cells() == id_set(v.target_cells, v.target_cells.len() as int)
    &&& p.folds == sorted_rules(v.allowed_folds)
    &&& p.brushes == sorted_rules(v.allowed_brushes)
    &&& p.fold_budget.value() == v.fold_budget
    &&& p.stroke_budget.value() == v.stroke_budget
    &&& p.par == v.par
}

/// The specification that builds a puzzle view: its own size, its target cells
/// in identity order, its rules, budgets, and par.
pub open spec fn own_spec(p: PuzzleView) -> PuzzleSpecView {
    PuzzleSpecView {
        format_version: p.format_version,
        pack: p.pack,
        puzzle: p.puzzle,
        width: p.dims.w() as u8,
        height: p.dims.h() as u8,
        target_cells: p.target.id_seq(),
        allowed_folds: p.folds,
        allowed_brushes: p.brushes,
        fold_budget: p.fold_budget.value(),
        stroke_budget: p.stroke_budget.value(),
        par: p.par,
    }
}

/// Whether a puzzle view is one that validation builds: its identity is portable,
/// and its own specification passes every rule and builds exactly it.
pub open spec fn as_built(p: PuzzleView) -> bool {
    &&& id_error(encode_utf8(p.pack)) is None
    &&& id_error(encode_utf8(p.puzzle)) is None
    &&& puzzle_error(own_spec(p)) is None
    &&& built_view(p, own_spec(p))
}

/// The rules that every validated puzzle keeps: folds exactly when it has a fold
/// budget, brushes exactly when it has a stroke budget, a stroke for any target,
/// a par within both budgets, every crease strictly inside the paper, and every
/// line between two cells and the paper's extent long.
pub open spec fn rules_hold(p: PuzzleView) -> bool {
    &&& (p.fold_budget.value() == 0 <==> p.folds.len() == 0)
    &&& (p.stroke_budget.value() == 0 <==> p.brushes.len() == 0)
    &&& (p.target.cells() != Set::<int>::empty() ==> p.stroke_budget.value() >= 1)
    &&& (p.par matches Some(par) ==> par.fold_part().value() <= p.fold_budget.value()
        && par.stroke_part().value() <= p.stroke_budget.value())
    &&& forall|i: int| 0 <= i < p.folds.len() ==> !#[trigger] crease_bad(p.dims, p.folds[i])
    &&& forall|i: int| 0 <= i < p.brushes.len() ==> !#[trigger] brush_bad(p.dims, p.brushes[i])
}

/// A bad crease in a rule list means there is a first one.
proof fn lemma_first_bad_crease(d: Dimensions, s: Seq<Fold>, i: int)
    requires
        0 <= i < s.len(),
        crease_bad(d, s[i]),
    ensures
        exists|j: int| #[trigger] first_bad_crease(d, s, j),
    decreases i,
{
    if forall|k: int| 0 <= k < i ==> !#[trigger] crease_bad(d, s[k]) {
        assert(first_bad_crease(d, s, i));
    } else {
        let k = choose|k: int| 0 <= k < i && #[trigger] crease_bad(d, s[k]);
        lemma_first_bad_crease(d, s, k);
    }
}

/// A bad brush in a rule list means there is a first one.
proof fn lemma_first_bad_brush(d: Dimensions, s: Seq<BrushRule>, i: int)
    requires
        0 <= i < s.len(),
        brush_bad(d, s[i]),
    ensures
        exists|j: int| #[trigger] first_bad_brush(d, s, j),
    decreases i,
{
    if forall|k: int| 0 <= k < i ==> !#[trigger] brush_bad(d, s[k]) {
        assert(first_bad_brush(d, s, i));
    } else {
        let k = choose|k: int| 0 <= k < i && #[trigger] brush_bad(d, s[k]);
        lemma_first_bad_brush(d, s, k);
    }
}

/// Every puzzle that validation builds keeps the puzzle rules.
pub proof fn lemma_as_built_rules(p: PuzzleView)
    requires
        as_built(p),
    ensures
        rules_hold(p),
{
    let o = own_spec(p);
    let d = Dimensions::spec_of(o.width, o.height);
    lemma_sorted_fixed(p.folds);
    lemma_sorted_fixed(p.brushes);
    assert(d == p.dims);
    assert(sorted_rules(p.folds) == p.folds);
    assert(sorted_rules(p.brushes) == p.brushes);
    assert forall|i: int| 0 <= i < p.folds.len() implies !#[trigger] crease_bad(p.dims, p.folds[i]) by {
        if crease_bad(p.dims, p.folds[i]) {
            lemma_first_bad_crease(p.dims, p.folds, i);
        }
    }
    assert forall|i: int| 0 <= i < p.brushes.len() implies !#[trigger] brush_bad(p.dims, p.brushes[i]) by {
        if brush_bad(p.dims, p.brushes[i]) {
            lemma_first_bad_brush(p.dims, p.brushes, i);
        }
    }
    if p.target.cells() != Set::<int>::empty() {
        if p.target.id_seq().len() == 0 {
            assert(p.target.cells() =~= Set::<int>::empty());
        }
    }
}

/// Rules in key order are their own sorted order.
proof fn lemma_sorted_fixed<T: RuleKey>(s: Seq<T>)
    ensures
        sorted_rules(sorted_rules(s)) == sorted_rules(s),
        sorted_rules(s).len() == s.len(),
{
    broadcast use vstd::seq_lib::group_to_multiset_ensures;

    lemma_key_total::<T>();
    s.lemma_sort_by_ensures(key_leq::<T>());
    let t = sorted_rules(s);
    t.lemma_sort_by_ensures(key_leq::<T>());
    vstd::seq_lib::lemma_sorted_unique(sorted_rules(t), t, key_leq::<T>());
    assert(t.to_multiset().len() == s.to_multiset().len());
}

/// A valid specification stays valid with another target of ascending cells on
/// the paper, when strokes are allowed, and a par within the budgets.
pub proof fn lemma_retarget(v: PuzzleSpecView, ids: Seq<CellId>, par: Option<Par>)
    requires
        puzzle_error(v) is None,
        ids.len() <= 144,
        forall|j: int| 0 <= j < ids.len() ==> (#[trigger] ids[j].value() as int) < Dimensions::spec_of(
            v.width,
            v.height,
        ).cells_len(),
        forall|i: int, j: int| 0 <= i < j < ids.len() ==> (#[trigger] ids[i].value()) < (#[trigger] ids[j].value()),
        ids.len() > 0 ==> v.stroke_budget > 0,
        par matches Some(p) ==> p.fold_part().value() <= v.fold_budget && p.stroke_part().value() <= v.stroke_budget,
    ensures
        puzzle_error(PuzzleSpecView { target_cells: ids, par, ..v }) is None,
{
    let d = Dimensions::spec_of(v.width, v.height);
    assert forall|k: int| 0 <= k < ids.len() implies !(#[trigger] target_bad(ids, d.cells_len(), k)) by {
        assert forall|j: int| 0 <= j < k implies ids[j] != ids[k] by {
            assert(ids[j].value() < ids[k].value());
        }
    }
    assert(!exists|k: int| #[trigger] first_target_bad(ids, d.cells_len(), k));
    assert(target_error(d, ids) is None);
    FoldCount::lemma_spec_of(v.fold_budget);
    StrokeCount::lemma_spec_of(v.stroke_budget);
}

/// A puzzle that a valid specification builds is also built by its own specification.
proof fn lemma_own_spec(v: PuzzleSpecView, p: PuzzleView)
    requires
        puzzle_error(v) is None,
        built_view(p, v),
        p.target.id_seq().len() <= 144,
        forall|j: int| 0 <= j < p.target.id_seq().len() ==> (#[trigger] p.target.id_seq()[j].value() as int)
            < p.dims.cells_len(),
        forall|i: int, j: int|
            0 <= i < j < p.target.id_seq().len() ==> (#[trigger] p.target.id_seq()[i].value()) < (
            #[trigger] p.target.id_seq()[j].value()),
        id_set(p.target.id_seq(), p.target.id_seq().len() as int) == p.target.cells(),
    ensures
        puzzle_error(own_spec(p)) is None,
        built_view(p, own_spec(p)),
{
    let o = own_spec(p);
    let ids = p.target.id_seq();
    let d = p.dims;
    Dimensions::lemma_spec_of(v.width, v.height);
    lemma_sorted_fixed(v.allowed_folds);
    lemma_sorted_fixed(v.allowed_brushes);
    assert(o.width == v.width && o.height == v.height);
    assert(Dimensions::spec_of(o.width, o.height) == d);
    // The target in identity order has no cell outside the paper and no repeat.
    assert forall|k: int| 0 <= k < ids.len() implies !(#[trigger] target_bad(ids, d.cells_len(), k)) by {
        assert forall|j: int| 0 <= j < k implies ids[j] != ids[k] by {
            assert(ids[j].value() < ids[k].value());
        }
    }
    assert(!exists|k: int| #[trigger] first_target_bad(ids, d.cells_len(), k));
    assert(target_error(d, ids) is None);
    // The target is nonempty exactly when the specification's target is.
    if ids.len() > 0 {
        assert(id_set(ids, ids.len() as int).contains(ids[0].value() as int));
        let x = ids[0].value() as int;
        assert(id_set(v.target_cells, v.target_cells.len() as int).contains(x));
        assert(v.target_cells.len() > 0);
    }
}

// ---------------------------------------------------------------------------
// Errors
// ---------------------------------------------------------------------------

#[derive(Clone, Debug, PartialEq, Eq)]
pub enum PuzzleError {
    InvalidIdentity { part: IdentityPart, reason: IdentityErrorReason },
    UnsupportedFormatVersion { found: u16, supported: u16 },
    Paper(PaperError),
    DuplicateTargetCell { cell_id: CellId },
    TooManyAllowedFolds { count: usize, limit: usize },
    DuplicateAllowedFold { fold: Fold },
    AllowedCreaseOutsidePaper { fold: Fold, extent: u8 },
    TooManyBrushRules { count: usize, limit: usize },
    DuplicateBrushRule { rule: BrushRule },
    LineLengthOutOfRange { axis: StrokeAxis, length: u8, extent: u8 },
    FoldRulesWithoutBudget,
    FoldBudgetWithoutRules,
    BrushRulesWithoutBudget,
    StrokeBudgetWithoutRules,
    TargetNeedsStroke,
    ParExceedsBudget { par: Par, fold_budget: FoldCount, stroke_budget: StrokeCount },
}

} // verus!
