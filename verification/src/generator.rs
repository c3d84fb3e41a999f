//! Versioned, bounded, deterministic puzzle generation.

use vstd::prelude::*;
use vstd::string::{StringExecFns, StringSliceAdditionalSpecFns};
use vstd::utf8::encode_utf8;

use crate::domain::attempt::{attempt_step, fresh_paper, history_actions, ActionError, Attempt};
use crate::domain::paper::state::PaperModel;
use crate::domain::paper::ink::id_set;
use crate::domain::paper::{coordinate_le, BrushRule, CellId, Dimensions, Fold, InkPattern, PaperAction};
use crate::domain::puzzle::{
    brush_bad, built_view, copy_slice, copy_vec, id_error, puzzle_error, sorted_rules, Puzzle, PuzzleError, PuzzleIdentity, PuzzleSpec,
    PuzzleSpecView, PuzzleView, MAX_ALLOWED_FOLDS, MAX_BRUSH_RULES,
};
use crate::domain::replay::{lemma_run_history, lemma_run_same_rules, lemma_run_wf, run, Replay, ReplayMetadata};
use crate::domain::score::Par;
use crate::solver::{
    action_catalog, catalog, limits_error, lines_in_order, reaches_states, score_le, solution_from_start, solves, Cancellation, CatalogError,
    ExhaustionReason, InvalidSolverInput, Solution, SolveOutcome, Solver, SolverLimits,
};
use crate::domain::messages::puzzle_error_text;
use crate::text::{decimal, decimal_padded, hex_fixed, push_decimal, push_hex, push_padded};

verus! {

pub const CURRENT_GENERATOR_COMPATIBILITY_VERSION: u16 = 1;
pub const MAX_GENERATION_ATTEMPTS: u16 = 512;

// ---------------------------------------------------------------------------
// Calendar dates and seeds
// ---------------------------------------------------------------------------

pub open spec fn is_leap(year: int) -> bool {
    year % 4 == 0 && (year % 100 != 0 || year % 400 == 0)
}

/// Days in a month of the Gregorian calendar, or zero for no month.
pub open spec fn month_days(year: int, month: int) -> int {
    if month == 1 || month == 3 || month == 5 || month == 7 || month == 8 || month == 10 || month == 12 {
        31
    } else if month == 4 || month == 6 || month == 9 || month == 11 {
        30
    } else if month == 2 && is_leap(year) {
        29
    } else if month == 2 {
        28
    } else {
        0
    }
}

/// Why a year, month, and day are not a date, if they are not.
pub open spec fn date_error(year: u16, month: u8, day: u8) -> Option<CalendarDateError> {
    if year == 0 || year > 9999 {
        Some(CalendarDateError::Year { found: year })
    } else if month == 0 || month > 12 {
        Some(CalendarDateError::Month { found: month })
    } else if day == 0 || day > month_days(year as int, month as int) {
        Some(CalendarDateError::Day { found: day, maximum: month_days(year as int, month as int) as u8 })
    } else {
        None
    }
}

fn days_in_month(year: u16, month: u8) -> (r: u8)
    ensures
        r as int == month_days(year as int, month as int),
{
    match month {
        1 | 3 | 5 | 7 | 8 | 10 | 12 => 31,
        4 | 6 | 9 | 11 => 30,
        2 => if is_leap_year(year) {
            29
        } else {
            28
        },
        _ => 0,
    }
}

fn is_leap_year(year: u16) -> (r: bool)
    ensures
        r == is_leap(year as int),
{
    year % 4 == 0 && (year % 100 != 0 || year % 400 == 0)
}

/// A Gregorian calendar date between the years 1 and 9999.
#[derive(Clone, Copy, Debug, PartialEq, Eq, Hash)]
pub struct CalendarDate {
    year: u16,
    month: u8,
    day: u8,
}

impl CalendarDate {
    pub closed spec fn view(self) -> (u16, u8, u8) {
        (self.year, self.month, self.day)
    }

    /// Constructs a Gregorian calendar date without consulting a system clock.
    pub fn new(year: u16, month: u8, day: u8) -> (r: Result<Self, CalendarDateError>)
        ensures
            r is Ok <==> date_error(year, month, day) is None,
            r matches Ok(d) ==> d.view() == (year, month, day),
            r matches Err(e) ==> date_error(year, month, day) == Some(e),
    {
        if year == 0 || year > 9_999 {
            return Err(CalendarDateError::Year { found: year });
        }
        if month == 0 || month > 12 {
            return Err(CalendarDateError::Month { found: month });
        }
        let maximum_day = days_in_month(year, month);
        if day == 0 || day > maximum_day {
            return Err(CalendarDateError::Day { found: day, maximum: maximum_day });
        }
        Ok(CalendarDate { year, month, day })
    }

    pub fn year(self) -> (r: u16)
        ensures
            r == self.view().0,
    {
        self.year
    }

    pub fn month(self) -> (r: u8)
        ensures
            r == self.view().1,
    {
        self.month
    }

    pub fn day(self) -> (r: u8)
        ensures
            r == self.view().2,
    {
        self.day
    }

    /// The date as `YYYY-MM-DD`.
    pub fn label(self) -> (r: String)
        ensures
            r@ == date_text(self),
    {
        let mut text = String::new();
        push_padded(&mut text, self.year as u64, 4);
        text.append("-");
        push_padded(&mut text, self.month as u64, 2);
        text.append("-");
        push_padded(&mut text, self.day as u64, 2);
        text
    }
}

pub open spec fn date_text(d: CalendarDate) -> Seq<char> {
    decimal_padded(d.view().0 as nat, 4) + "-"@ + decimal_padded(d.view().1 as nat, 2) + "-"@ + decimal_padded(
        d.view().2 as nat,
        2,
    )
}

#[derive(Clone, Copy, Debug, PartialEq, Eq)]
pub enum CalendarDateError {
    Year { found: u16 },
    Month { found: u8 },
    Day { found: u8, maximum: u8 },
}

/// The 64-bit FNV-1a hash of the first `n` bytes.
pub open spec fn fnv(bytes: Seq<u8>, n: int) -> u64
    decreases n,
{
    if n <= 0 {
        0xcbf2_9ce4_8422_2325
    } else {
        (fnv(bytes, n - 1) ^ (bytes[n - 1] as u64)).wrapping_mul(0x0000_0100_0000_01b3)
    }
}

fn fnv1a64(bytes: &[u8]) -> (r: u64)
    ensures
        r == fnv(bytes@, bytes@.len() as int),
{
    let mut hash: u64 = 0xcbf2_9ce4_8422_2325;
    let mut i: usize = 0;
    while i < bytes.len()
        invariant
            i <= bytes@.len(),
            hash == fnv(bytes@, i as int),
        decreases bytes@.len() - i,
    {
        hash = (hash ^ bytes[i] as u64).wrapping_mul(0x0000_0100_0000_01b3);
        i = i + 1;
    }
    hash
}

/// The daily seed of a date: the hash of `orifude:1:` and the date.
pub open spec fn daily_seed(d: CalendarDate) -> u64 {
    let bytes = encode_utf8("orifude:1:"@ + date_text(d));
    fnv(bytes, bytes.len() as int)
}

fn daily_seed_v1(date: CalendarDate) -> (r: u64)
    ensures
        r == daily_seed(date),
{
    let mut text = String::new();
    text.append("orifude:1:");
    let label = date.label();
    text.append(label.as_str());
    fnv1a64(text.as_str().as_bytes())
}

/// A generator compatibility version and a seed value.
#[derive(Clone, Copy, Debug, PartialEq, Eq, Hash)]
pub struct GenerationSeed {
    compatibility_version: u16,
    value: u64,
}

impl GenerationSeed {
    pub closed spec fn view(self) -> (u16, u64) {
        (self.compatibility_version, self.value)
    }

    pub fn new(compatibility_version: u16, value: u64) -> (r: Self)
        ensures
            r.view() == (compatibility_version, value),
    {
        GenerationSeed { compatibility_version, value }
    }

    pub fn current(value: u64) -> (r: Self)
        ensures
            r.view() == (1u16, value),
    {
        GenerationSeed::new(CURRENT_GENERATOR_COMPATIBILITY_VERSION, value)
    }

    /// Derives a daily seed through the current compatibility path.
    pub fn for_date(date: CalendarDate) -> (r: Self)
        ensures
            r.view() == (1u16, daily_seed(date)),
    {
        match GenerationSeed::for_date_with_version(CURRENT_GENERATOR_COMPATIBILITY_VERSION, date) {
            Ok(seed) => seed,
            Err(_) => vstd::pervasive::unreached(),
        }
    }

    /// Derives a daily seed through the requested preserved compatibility path.
    pub fn for_date_with_version(compatibility_version: u16, date: CalendarDate) -> (r: Result<Self, GenerationError>)
        ensures
            compatibility_version == 1 ==> (r matches Ok(seed) && seed.view() == (1u16, daily_seed(date))),
            compatibility_version != 1 ==> r == Err::<Self, GenerationError>(GenerationError::UnsupportedCompatibility {
                found: compatibility_version,
                supported: 1,
            }),
    {
        match compatibility_version {
            1 => Ok(GenerationSeed::new(compatibility_version, daily_seed_v1(date))),
            found => Err(GenerationError::UnsupportedCompatibility {
                found,
                supported: CURRENT_GENERATOR_COMPATIBILITY_VERSION,
            }),
        }
    }

    pub fn compatibility_version(self) -> (r: u16)
        ensures
            r == self.view().0,
    {
        self.compatibility_version
    }

    pub fn value(self) -> (r: u64)
        ensures
            r == self.view().1,
    {
        self.value
    }

    /// The seed as `v<version>-<sixteen hexadecimal digits>`.
    pub fn label(self) -> (r: String)
        ensures
            r@ == "v"@ + decimal(self.view().0 as nat) + "-"@ + hex_fixed(self.view().1 as nat, 16),
    {
        let mut text = String::new();
        text.append("v");
        push_decimal(&mut text, self.compatibility_version as u64);
        text.append("-");
        push_hex(&mut text, self.value, 16);
        text
    }
}

// ---------------------------------------------------------------------------
// Stable randomness
// ---------------------------------------------------------------------------

/// The output mix of one step of the generator's random sequence.
pub open spec fn mix(z: u64) -> u64 {
    let a = (z ^ (z >> 30u64)).wrapping_mul(0xbf58_476d_1ce4_e5b9);
    let b = (a ^ (a >> 27u64)).wrapping_mul(0x94d0_49bb_1331_11eb);
    b ^ (b >> 31u64)
}

pub open spec fn advance(state: u64) -> u64 {
    state.wrapping_add(0x9e37_79b9_7f4a_7c15)
}

/// A random value scaled into `0..upper`.
pub open spec fn scaled(value: u64, upper: int) -> int {
    (value as int * upper) / 18446744073709551616
}

#[derive(Clone, Copy, Debug, PartialEq, Eq)]
struct StableRandom {
    state: u64,
}

impl StableRandom {
    fn new(seed: u64) -> (r: Self)
        ensures
            r.state == seed,
    {
        StableRandom { state: seed }
    }

    fn next_u64(&mut self) -> (r: u64)
        ensures
            final(self).state == advance(old(self).state),
            r == mix(advance(old(self).state)),
    {
        self.state = self.state.wrapping_add(0x9e37_79b9_7f4a_7c15);
        let mut value = self.state;
        value = (value ^ (value >> 30)).wrapping_mul(0xbf58_476d_1ce4_e5b9);
        value = (value ^ (value >> 27)).wrapping_mul(0x94d0_49bb_1331_11eb);
        value ^ (value >> 31)
    }

    fn index(&mut self, exclusive_upper: usize) -> (r: usize)
        requires
            exclusive_upper > 0,
        ensures
            final(self).state == advance(old(self).state),
            r as int == scaled(mix(advance(old(self).state)), exclusive_upper as int),
            r < exclusive_upper,
    {
        let value = self.next_u64();
        proof {
            let v = value as int;
            let u = exclusive_upper as int;
            assert(v * u <= 18446744073709551615 * 18446744073709551615) by (nonlinear_arith)
                requires
                    0 <= v <= 18446744073709551615,
                    0 <= u <= 18446744073709551615,
            ;
        }
        let product = value as u128 * exclusive_upper as u128;
        let mapped = product / 18446744073709551616u128;
        proof {
            let v = value as int;
            let u = exclusive_upper as int;
            assert(v * u < 18446744073709551616 * u) by (nonlinear_arith)
                requires
                    0 <= v < 18446744073709551616,
                    u > 0,
            ;
            assert((v * u) / 18446744073709551616 < u) by (nonlinear_arith)
                requires
                    v * u < 18446744073709551616 * u,
                    v * u >= 0,
            ;
        }
        mapped as usize
    }

    fn inclusive_u8(&mut self, lower: u8, upper: u8) -> (r: u8)
        requires
            lower <= upper,
        ensures
            final(self).state == advance(old(self).state),
            r as int == lower + scaled(mix(advance(old(self).state)), upper - lower + 1),
            lower <= r <= upper,
    {
        let width = (upper - lower) as usize + 1;
        let offset = self.index(width);
        lower + offset as u8
    }
}

// ---------------------------------------------------------------------------
// Generation policies
// ---------------------------------------------------------------------------

/// The plain contents of a generation policy.
pub struct GeneratorConfigView {
    pub pack: Seq<char>,
    pub template: Seq<char>,
    pub width: u8,
    pub height: u8,
    pub folds: Seq<Fold>,
    pub brushes: Seq<BrushRule>,
    pub fold_budget: u8,
    pub stroke_budget: u8,
    pub minimum_source_actions: u8,
    pub maximum_source_actions: u8,
    pub maximum_attempts: u16,
    pub solver_limits: SolverLimits,
}

/// The name of every generator's template puzzle is a portable identifier.
proof fn lemma_template_name_valid(name: &str)
    requires
        name@ == "generated-template"@,
    ensures
        id_error(name.spec_bytes()) is None,
{
    reveal_strlit("generated-template");
    vstd::string::is_ascii_spec_bytes(name);
    assert(vstd::string::is_ascii(name));
    let b = name.spec_bytes();
    assert(b.len() == 18);
    assert forall|k: int| 0 <= k < b.len() implies !#[trigger] crate::domain::puzzle::id_byte_bad(b, k) by {
        assert(b[k] == name@[k] as u8);
    }
}

/// A bounded generation policy.
#[derive(Clone, Debug, PartialEq, Eq)]
pub struct GeneratorConfig {
    template_identity: PuzzleIdentity,
    width: u8,
    height: u8,
    allowed_folds: Vec<Fold>,
    allowed_brushes: Vec<BrushRule>,
    fold_budget: u8,
    stroke_budget: u8,
    minimum_source_actions: u8,
    maximum_source_actions: u8,
    maximum_attempts: u16,
    solver_limits: SolverLimits,
}

impl GeneratorConfig {
    pub closed spec fn view(&self) -> GeneratorConfigView {
        GeneratorConfigView {
            pack: self.template_identity.pack_view(),
            template: self.template_identity.puzzle_view(),
            width: self.width,
            height: self.height,
            folds: self.allowed_folds@,
            brushes: self.allowed_brushes@,
            fold_budget: self.fold_budget,
            stroke_budget: self.stroke_budget,
            minimum_source_actions: self.minimum_source_actions,
            maximum_source_actions: self.maximum_source_actions,
            maximum_attempts: self.maximum_attempts,
            solver_limits: self.solver_limits,
        }
    }

    /// Starts a generation policy with a validated pack identity.
    pub fn new(pack_id: &str, width: u8, height: u8) -> (r: Result<Self, GenerationError>)
        ensures
            r is Ok <==> id_error(pack_id.spec_bytes()) is None,
            id_error(pack_id.spec_bytes()) is Some ==> r == Err::<Self, GenerationError>(GenerationError::Puzzle(
                PuzzleError::InvalidIdentity {
                    part: crate::domain::puzzle::IdentityPart::Pack,
                    reason: id_error(pack_id.spec_bytes())->Some_0,
                },
            )),
            r matches Ok(c) ==> c.view() == (GeneratorConfigView {
                pack: pack_id@,
                template: "generated-template"@,
                width,
                height,
                folds: Seq::empty(),
                brushes: Seq::empty(),
                fold_budget: 0,
                stroke_budget: 0,
                minimum_source_actions: 2,
                maximum_source_actions: 2,
                maximum_attempts: 512,
                solver_limits: SolverLimits::spec_default(),
            }),
    {
        let template_name = "generated-template";
        proof {
            lemma_template_name_valid(template_name);
        }
        let template_identity = match PuzzleIdentity::new(pack_id, template_name) {
            Ok(identity) => identity,
            Err(error) => return Err(GenerationError::Puzzle(error)),
        };
        let r = GeneratorConfig {
            template_identity,
            width,
            height,
            allowed_folds: Vec::new(),
            allowed_brushes: Vec::new(),
            fold_budget: 0,
            stroke_budget: 0,
            minimum_source_actions: 2,
            maximum_source_actions: 2,
            maximum_attempts: MAX_GENERATION_ATTEMPTS,
            solver_limits: SolverLimits::default(),
        };
        assert(r.view().folds =~= Seq::<Fold>::empty());
        assert(r.view().brushes =~= Seq::<BrushRule>::empty());
        Ok(r)
    }

    /// Adds rule collections only when both fit the puzzle storage bounds.
    pub fn with_rules(self, allowed_folds: Vec<Fold>, allowed_brushes: Vec<BrushRule>) -> (r: Result<Self, GenerationError>)
        ensures
            allowed_folds@.len() > 44 ==> r == Err::<Self, GenerationError>(GenerationError::Puzzle(
                PuzzleError::TooManyAllowedFolds { count: allowed_folds@.len() as usize, limit: 44 },
            )),
            allowed_folds@.len() <= 44 && allowed_brushes@.len() > 23 ==> r == Err::<Self, GenerationError>(
                GenerationError::Puzzle(PuzzleError::TooManyBrushRules { count: allowed_brushes@.len() as usize, limit: 23 }),
            ),
            allowed_folds@.len() <= 44 && allowed_brushes@.len() <= 23 ==> (r matches Ok(c) && c.view() == (
            GeneratorConfigView { folds: allowed_folds@, brushes: allowed_brushes@, ..self.view() })),
    {
        if allowed_folds.len() > MAX_ALLOWED_FOLDS {
            return Err(GenerationError::Puzzle(PuzzleError::TooManyAllowedFolds {
                count: allowed_folds.len(),
                limit: MAX_ALLOWED_FOLDS,
            }));
        }
        if allowed_brushes.len() > MAX_BRUSH_RULES {
            return Err(GenerationError::Puzzle(PuzzleError::TooManyBrushRules {
                count: allowed_brushes.len(),
                limit: MAX_BRUSH_RULES,
            }));
        }
        Ok(GeneratorConfig { allowed_folds, allowed_brushes, ..self })
    }

    pub fn with_budgets(self, fold_budget: u8, stroke_budget: u8) -> (r: Self)
        ensures
            r.view() == (GeneratorConfigView { fold_budget, stroke_budget, ..self.view() }),
    {
        GeneratorConfig { fold_budget, stroke_budget, ..self }
    }

    pub fn with_source_action_range(self, minimum: u8, maximum: u8) -> (r: Self)
        ensures
            r.view() == (GeneratorConfigView {
                minimum_source_actions: minimum,
                maximum_source_actions: maximum,
                ..self.view()
            }),
    {
        GeneratorConfig { minimum_source_actions: minimum, maximum_source_actions: maximum, ..self }
    }

    pub fn with_attempt_limit(self, maximum_attempts: u16) -> (r: Self)
        ensures
            r.view() == (GeneratorConfigView { maximum_attempts, ..self.view() }),
    {
        GeneratorConfig { maximum_attempts, ..self }
    }

    pub fn with_solver_limits(self, solver_limits: SolverLimits) -> (r: Self)
        ensures
            r.view() == (GeneratorConfigView { solver_limits, ..self.view() }),
    {
        GeneratorConfig { solver_limits, ..self }
    }
}

/// Why a generation policy is refused, if it is, before its puzzle rules are checked.
pub open spec fn config_error(v: GeneratorConfigView) -> Option<GenerationError> {
    if v.maximum_attempts == 0 || v.maximum_attempts > 512 {
        Some(GenerationError::AttemptLimit { found: v.maximum_attempts, maximum: 512 })
    } else if v.folds.len() == 0 || v.fold_budget == 0 {
        Some(GenerationError::NeedsFold)
    } else if v.brushes.len() == 0 || v.stroke_budget == 0 {
        Some(GenerationError::NeedsBrush)
    } else if v.minimum_source_actions < 2 || v.minimum_source_actions > v.maximum_source_actions
        || v.maximum_source_actions > 64 {
        Some(
            GenerationError::SourceActionRange {
                minimum: v.minimum_source_actions,
                maximum: v.maximum_source_actions,
            },
        )
    } else if v.maximum_source_actions > v.fold_budget + v.stroke_budget {
        Some(
            GenerationError::SourceActionsExceedBudget {
                maximum: v.maximum_source_actions,
                budget: (v.fold_budget + v.stroke_budget) as u8,
            },
        )
    } else {
        None
    }
}

fn validate_config(config: &GeneratorConfig) -> (r: Result<(), GenerationError>)
    ensures
        r is Ok <==> config_error(config.view()) is None,
        r matches Err(e) ==> config_error(config.view()) == Some(e),
{
    if config.maximum_attempts == 0 || config.maximum_attempts > MAX_GENERATION_ATTEMPTS {
        return Err(GenerationError::AttemptLimit { found: config.maximum_attempts, maximum: MAX_GENERATION_ATTEMPTS });
    }
    if config.allowed_folds.len() == 0 || config.fold_budget == 0 {
        return Err(GenerationError::NeedsFold);
    }
    if config.allowed_brushes.len() == 0 || config.stroke_budget == 0 {
        return Err(GenerationError::NeedsBrush);
    }
    if config.minimum_source_actions < 2 || config.minimum_source_actions > config.maximum_source_actions
        || config.maximum_source_actions > 64 {
        return Err(GenerationError::SourceActionRange {
            minimum: config.minimum_source_actions,
            maximum: config.maximum_source_actions,
        });
    }
    let combined_budget = config.fold_budget as u16 + config.stroke_budget as u16;
    if config.maximum_source_actions as u16 > combined_budget {
        return Err(GenerationError::SourceActionsExceedBudget {
            maximum: config.maximum_source_actions,
            budget: combined_budget as u8,
        });
    }
    Ok(())
}

/// The specification of the template puzzle of a policy: its rules with no target.
pub open spec fn template_view(v: GeneratorConfigView) -> PuzzleSpecView {
    PuzzleSpecView {
        format_version: 1,
        pack: v.pack,
        puzzle: v.template,
        width: v.width,
        height: v.height,
        target_cells: Seq::empty(),
        allowed_folds: v.folds,
        allowed_brushes: v.brushes,
        fold_budget: v.fold_budget,
        stroke_budget: v.stroke_budget,
        par: None,
    }
}

/// The identifier of a generated candidate: `paper-v<version>-<seed in hexadecimal>-<attempt>`.
pub open spec fn candidate_id(seed: GenerationSeed, attempt_index: u16) -> Seq<char> {
    "paper-v"@ + decimal(seed.view().0 as nat) + "-"@ + hex_fixed(seed.view().1 as nat, 16) + "-"@ + decimal(
        attempt_index as nat,
    )
}

/// The specification of a candidate puzzle with a target and an optional par.
pub open spec fn candidate_view(
    v: GeneratorConfigView,
    seed: GenerationSeed,
    attempt_index: u16,
    target: Seq<CellId>,
    par: Option<Par>,
) -> PuzzleSpecView {
    PuzzleSpecView {
        format_version: 1,
        pack: v.pack,
        puzzle: candidate_id(seed, attempt_index),
        width: v.width,
        height: v.height,
        target_cells: target,
        allowed_folds: v.folds,
        allowed_brushes: v.brushes,
        fold_budget: v.fold_budget,
        stroke_budget: v.stroke_budget,
        par,
    }
}

/// The stretch of the catalog from which action `index` of `count` is drawn:
/// the folds for the first action, the brush strokes for a last action on a
/// blank sheet, and the whole catalog otherwise.
pub open spec fn draw_range(folds: int, total: int, index: int, count: int, m: PaperModel) -> (int, int) {
    if index == 0 {
        (0, folds)
    } else if index + 1 == count && m.state.ink == Set::<int>::empty() {
        (folds, total - folds)
    } else {
        (0, total)
    }
}

/// The first action of a catalog range, taken round from `start`, that applies
/// to the paper and either folds it or changes its ink, with the paper it gives.
#[verifier::opaque]
pub open spec fn pick_action(p: PuzzleView, m: PaperModel, range_start: int, range_len: int, start: int, offset: int)
    -> Option<(PaperAction, PaperModel)>
    decreases range_len - offset,
{
    if offset < 0 || offset >= range_len {
        None
    } else {
        let a = catalog(p)[range_start + (start + offset) % range_len];
        match attempt_step(p, m, a) {
            Ok(next) => if a is Fold || next.state.ink != m.state.ink {
                Some((a, next))
            } else {
                pick_action(p, m, range_start, range_len, start, offset + 1)
            },
            Err(_) => pick_action(p, m, range_start, range_len, start, offset + 1),
        }
    }
}

/// Draws actions `index..count` of a candidate from a random state: whether
/// every draw found an action, the paper reached, and the random state after
/// the last draw.
#[verifier::opaque]
pub open spec fn draw_actions(p: PuzzleView, m: PaperModel, state: u64, index: int, count: int) -> (
    bool,
    PaperModel,
    u64,
)
    decreases count - index,
{
    if index >= count {
        (true, m, state)
    } else {
        let range = draw_range(p.folds.len() as int, catalog(p).len() as int, index, count, m);
        let next = advance(state);
        match pick_action(p, m, range.0, range.1, scaled(mix(next), range.1), 0) {
            Some(step) => draw_actions(p, step.1, next, index + 1, count),
            None => (false, m, next),
        }
    }
}

/// One candidate drawn from a random state on a fresh sheet of the template:
/// its number of actions first, then each action in turn.
pub open spec fn draw_candidate(p: PuzzleView, v: GeneratorConfigView, state: u64) -> (bool, PaperModel, u64) {
    let next = advance(state);
    let count = v.minimum_source_actions + scaled(
        mix(next),
        v.maximum_source_actions - v.minimum_source_actions + 1,
    );
    draw_actions(p, fresh_paper(p), next, 0, count)
}

/// The random state before candidate `attempt` of the sequence a seed starts.
pub open spec fn draw_state(p: PuzzleView, v: GeneratorConfigView, seed: u64, attempt: nat) -> u64
    decreases attempt,
{
    if attempt == 0 {
        seed
    } else {
        draw_candidate(p, v, draw_state(p, v, seed, (attempt - 1) as nat)).2
    }
}

/// Candidate `attempt` drawn under a template, a policy and a seed: whether it
/// was built, and the paper it reached.
pub open spec fn drawn_candidate(p: PuzzleView, v: GeneratorConfigView, seed: GenerationSeed, attempt: nat) -> (
    bool,
    PaperModel,
) {
    let d = draw_candidate(p, v, draw_state(p, v, seed.view().1, attempt));
    (d.0, d.1)
}

/// Whether candidate `k` was built.
pub open spec fn drawn_built(p: PuzzleView, v: GeneratorConfigView, seed: GenerationSeed, k: nat) -> bool {
    drawn_candidate(p, v, seed, k).0
}

/// The ink of candidate `k`.
pub open spec fn drawn_ink(p: PuzzleView, v: GeneratorConfigView, seed: GenerationSeed, k: nat) -> Set<int> {
    drawn_candidate(p, v, seed, k).1.state.ink
}

/// Whether one of the first `n` candidates was built with this ink.
pub open spec fn built_before(p: PuzzleView, v: GeneratorConfigView, seed: GenerationSeed, n: nat, ink: Set<int>) -> bool {
    exists|j: nat| j < n && #[trigger] drawn_built(p, v, seed, j) && drawn_ink(p, v, seed, j) == ink
}

/// Whether candidate `k` repeats the target of an earlier built candidate.
pub open spec fn drawn_repeated(p: PuzzleView, v: GeneratorConfigView, seed: GenerationSeed, k: nat) -> bool {
    built_before(p, v, seed, k, drawn_ink(p, v, seed, k))
}

/// The cells of an ink set on a sheet, in identity order.
pub open spec fn ink_ids(d: Dimensions, ink: Set<int>) -> Seq<CellId> {
    (choose|t: InkPattern| t.dims() == d && t.cells() == ink).id_seq()
}

/// Whether candidate `k`, with its ink as the target, makes a valid puzzle.
pub open spec fn drawn_valid(p: PuzzleView, v: GeneratorConfigView, seed: GenerationSeed, k: nat) -> bool {
    &&& id_error(encode_utf8(v.pack)) is None
    &&& id_error(encode_utf8(candidate_id(seed, k as u16))) is None
    &&& puzzle_error(candidate_view(v, seed, k as u16, ink_ids(p.dims, drawn_ink(p, v, seed, k)), None)) is None
}

/// Whether candidate `k` is handed to the solver: built, new, and valid.
pub open spec fn drawn_searched(p: PuzzleView, v: GeneratorConfigView, seed: GenerationSeed, k: nat) -> bool {
    &&& drawn_built(p, v, seed, k)
    &&& !drawn_repeated(p, v, seed, k)
    &&& drawn_valid(p, v, seed, k)
}

/// How many of the first `n` candidates were built and repeated an earlier target.
pub open spec fn repeated_count(p: PuzzleView, v: GeneratorConfigView, seed: GenerationSeed, n: nat) -> nat
    decreases n,
{
    if n == 0 {
        0
    } else {
        let k = (n - 1) as nat;
        repeated_count(p, v, seed, k) + if drawn_built(p, v, seed, k) && drawn_repeated(p, v, seed, k) {
            1nat
        } else {
            0nat
        }
    }
}

/// How many of the first `n` candidates were handed to the solver.
pub open spec fn searched_count(p: PuzzleView, v: GeneratorConfigView, seed: GenerationSeed, n: nat) -> nat
    decreases n,
{
    if n == 0 {
        0
    } else {
        let k = (n - 1) as nat;
        searched_count(p, v, seed, k) + if drawn_searched(p, v, seed, k) {
            1nat
        } else {
            0nat
        }
    }
}

/// Whether the actions, no more than `depth` and writing their lines start
/// first, leave exactly `ink` on the sheet without a fold or without a stroke.
pub open spec fn trivial_solution(p: PuzzleView, ink: Set<int>, depth: int, actions: Seq<PaperAction>) -> bool {
    let m = run(p, actions, actions.len() as int)->Ok_0;
    &&& lines_in_order(actions, actions.len() as int)
    &&& actions.len() <= depth
    &&& run(p, actions, actions.len() as int) is Ok
    &&& m.state.ink == ink
    &&& (m.state.folds == 0 || m.state.strokes == 0)
}

/// Whether some solution for this ink is trivial.
pub open spec fn trivially_solvable(p: PuzzleView, ink: Set<int>, depth: int) -> bool {
    exists|actions: Seq<PaperAction>| #[trigger] trivial_solution(p, ink, depth, actions)
}

/// Whether a rejection is the one the generator gives candidate `k`: an
/// unbuilt or invalid candidate is an invalid sequence, a repeated target a
/// duplicate, and a candidate handed to the solver is trivial when it has a
/// trivial solution, or else the solver stopped; it stops on depth only when
/// the depth limit is below the budgets, and on visited states only when the
/// sheet reaches at least that many states within the depth limit.
pub open spec fn rejection_fits(
    r: CandidateRejection,
    p: PuzzleView,
    v: GeneratorConfigView,
    seed: GenerationSeed,
    k: nat,
) -> bool {
    if !drawn_built(p, v, seed, k) {
        r == CandidateRejection::InvalidSequence
    } else if drawn_repeated(p, v, seed, k) {
        r == CandidateRejection::DuplicateTarget
    } else if !drawn_valid(p, v, seed, k) {
        r == CandidateRejection::InvalidSequence
    } else {
        ||| r == CandidateRejection::Trivial && trivially_solvable(
            p,
            drawn_ink(p, v, seed, k),
            v.solver_limits.view().2 as int,
        )
        ||| r matches CandidateRejection::SolverExhausted(reason) && (reason == ExhaustionReason::Depth
            ==> v.solver_limits.view().2 < p.fold_budget.value() + p.stroke_budget.value()) && (reason
            == ExhaustionReason::VisitedStates ==> reaches_states(
            p,
            v.solver_limits.view().2 as int,
            v.solver_limits.view().0 as int,
        ))
    }
}

/// The targets remembered after `n` candidates are the inks of the built ones.
spec fn seen_matches(p: PuzzleView, v: GeneratorConfigView, seed: GenerationSeed, n: nat, seen: Seq<InkPattern>) -> bool {
    &&& forall|i: int|
        0 <= i < seen.len() ==> (#[trigger] seen[i]).dims() == p.dims && built_before(p, v, seed, n, seen[i].cells())
    &&& forall|j: nat|
        j < n && #[trigger] drawn_built(p, v, seed, j) ==> exists|i: int|
            0 <= i < seen.len() && seen[i].cells() == drawn_ink(p, v, seed, j)
}

proof fn lemma_built_before_grows(p: PuzzleView, v: GeneratorConfigView, seed: GenerationSeed, n: nat, ink: Set<int>)
    requires
        built_before(p, v, seed, n, ink),
    ensures
        built_before(p, v, seed, n + 1, ink),
{
    let j = choose|j: nat| j < n && #[trigger] drawn_built(p, v, seed, j) && drawn_ink(p, v, seed, j) == ink;
    assert(drawn_built(p, v, seed, j));
}

/// A candidate that was not built leaves the remembered targets as they were.
proof fn lemma_seen_unbuilt(p: PuzzleView, v: GeneratorConfigView, seed: GenerationSeed, k: nat, seen: Seq<InkPattern>)
    requires
        seen_matches(p, v, seed, k, seen),
        !drawn_built(p, v, seed, k),
    ensures
        seen_matches(p, v, seed, k + 1, seen),
{
    assert forall|i: int| 0 <= i < seen.len() implies (#[trigger] seen[i]).dims() == p.dims && built_before(
        p,
        v,
        seed,
        k + 1,
        seen[i].cells(),
    ) by {
        lemma_built_before_grows(p, v, seed, k, seen[i].cells());
    }
}

/// A built candidate's ink is remembered exactly when it repeats an earlier target.
proof fn lemma_seen_contains(
    p: PuzzleView,
    v: GeneratorConfigView,
    seed: GenerationSeed,
    k: nat,
    seen: Seq<InkPattern>,
    t: InkPattern,
)
    requires
        seen_matches(p, v, seed, k, seen),
        t.dims() == p.dims,
        t.cells() == drawn_ink(p, v, seed, k),
    ensures
        seen.contains(t) <==> drawn_repeated(p, v, seed, k),
{
    if seen.contains(t) {
        let i = choose|i: int| 0 <= i < seen.len() && seen[i] == t;
        assert(seen[i].dims() == p.dims);
    }
    if drawn_repeated(p, v, seed, k) {
        let j = choose|j: nat| j < k && #[trigger] drawn_built(p, v, seed, j) && drawn_ink(p, v, seed, j) == t.cells();
        let i = choose|i: int| 0 <= i < seen.len() && seen[i].cells() == drawn_ink(p, v, seed, j);
        assert(seen[i].dims() == p.dims);
        InkPattern::lemma_ext(seen[i], t);
        assert(seen[i] == t);
    }
}

/// A built candidate whose ink is remembered, or is remembered now.
proof fn lemma_seen_built(
    p: PuzzleView,
    v: GeneratorConfigView,
    seed: GenerationSeed,
    k: nat,
    seen: Seq<InkPattern>,
    next: Seq<InkPattern>,
    t: InkPattern,
)
    requires
        seen_matches(p, v, seed, k, seen),
        drawn_built(p, v, seed, k),
        t.dims() == p.dims,
        t.cells() == drawn_ink(p, v, seed, k),
        next == seen || next == seen.push(t),
        next == seen ==> seen.contains(t),
    ensures
        seen_matches(p, v, seed, k + 1, next),
{
    assert forall|i: int| 0 <= i < next.len() implies (#[trigger] next[i]).dims() == p.dims && built_before(
        p,
        v,
        seed,
        k + 1,
        next[i].cells(),
    ) by {
        if i < seen.len() {
            assert(next[i] == seen[i]);
            lemma_built_before_grows(p, v, seed, k, seen[i].cells());
        } else {
            assert(next[i] == t);
            assert(drawn_built(p, v, seed, k));
        }
    }
    assert forall|j: nat| j < k + 1 && #[trigger] drawn_built(p, v, seed, j) implies exists|i: int|
        0 <= i < next.len() && next[i].cells() == drawn_ink(p, v, seed, j) by {
        if j < k {
            let i = choose|i: int| 0 <= i < seen.len() && seen[i].cells() == drawn_ink(p, v, seed, j);
            assert(next[i] == seen[i]);
        } else if next == seen {
            let i = choose|i: int| 0 <= i < seen.len() && seen[i] == t;
            assert(next[i].cells() == drawn_ink(p, v, seed, j));
        } else {
            assert(next[seen.len() as int] == t);
            assert(next[seen.len() as int].cells() == drawn_ink(p, v, seed, j));
        }
    }
}

/// The cells of a pattern, in identity order, are its identities.
proof fn lemma_ink_ids(d: Dimensions, t: InkPattern)
    requires
        t.dims() == d,
    ensures
        ink_ids(d, t.cells()) == t.id_seq(),
{
    let c = choose|c: InkPattern| c.dims() == d && c.cells() == t.cells();
    InkPattern::lemma_ext(c, t);
}

/// Catalog actions write their lines start first.
proof fn lemma_catalog_lines(p: PuzzleView, acts: Seq<PaperAction>)
    requires
        p.dims.wf(),
        forall|j: int| 0 <= j < p.brushes.len() ==> !brush_bad(p.dims, #[trigger] p.brushes[j]),
        forall|k: int| 0 <= k < acts.len() ==> #[trigger] catalog(p).contains(acts[k]),
    ensures
        lines_in_order(acts, acts.len() as int),
{
    assert forall|i: int| 0 <= i < acts.len() implies (#[trigger] acts[i] matches PaperAction::Line(l) ==> coordinate_le(
        l.start_value(),
        l.end_value(),
    )) by {
        crate::solver::lemma_catalog_lines_in_order(p, acts[i]);
    }
}

/// What a generated puzzle is under a policy and a seed: a valid puzzle of the
/// policy's pack, named after the seed and the candidate that produced it, on
/// the policy's sheet with its rules and budgets, whose par is the score of its
/// recorded solution; that solution spends at least one fold and one stroke and
/// solves the puzzle.
pub open spec fn generated_under(g: GeneratedPuzzle, v: GeneratorConfigView, seed: GenerationSeed) -> bool {
    let p = g.puzzle_view().view();
    let score = g.solution_view().score_view();
    &&& g.puzzle_view().wf()
    &&& g.seed_view() == seed
    &&& g.attempt_view() < v.maximum_attempts
    &&& p.format_version == 1
    &&& p.pack == v.pack
    &&& p.puzzle == candidate_id(seed, g.attempt_view())
    &&& p.dims == Dimensions::spec_of(v.width, v.height)
    &&& p.folds == sorted_rules(v.folds)
    &&& p.brushes == sorted_rules(v.brushes)
    &&& p.fold_budget.value() == v.fold_budget
    &&& p.stroke_budget.value() == v.stroke_budget
    &&& p.par == Some(Par::spec_of(score.fold_part(), score.stroke_part()))
    &&& score.fold_part().value() > 0
    &&& score.stroke_part().value() > 0
    &&& solves(p, g.solution_view().replay_view(), score)
    &&& g.solution_view().replay_view().actions_view().len() <= v.solver_limits.view().2
    &&& lines_in_order(
        g.solution_view().replay_view().actions_view(),
        g.solution_view().replay_view().actions_view().len() as int,
    )
}

/// A generated puzzle's par is the best score among all its solutions that are
/// no longer than the policy's search depth and write their lines start first.
pub open spec fn par_is_best(g: GeneratedPuzzle, v: GeneratorConfigView) -> bool {
    let p = g.puzzle_view().view();
    let score = g.solution_view().score_view();
    forall|actions: Seq<PaperAction>|
        lines_in_order(actions, actions.len() as int) && actions.len() <= v.solver_limits.view().2
            && #[trigger] solution_from_start(p, actions) ==> score_le(
            score.fold_part().value() as int,
            score.stroke_part().value() as int,
            run(p, actions, actions.len() as int)->Ok_0.state.folds,
            run(p, actions, actions.len() as int)->Ok_0.state.strokes,
        )
}

/// A generated puzzle's target is the ink of the candidate drawn at its
/// attempt under the template, the policy and the seed, and that draw built
/// a candidate.
pub open spec fn drawn_target(p: PuzzleView, v: GeneratorConfigView, seed: GenerationSeed, g: GeneratedPuzzle) -> bool {
    let d = drawn_candidate(p, v, seed, g.attempt_view() as nat);
    &&& d.0
    &&& g.puzzle_view().view().target.cells() == d.1.state.ink
}

/// Two puzzles generated at the same attempt under the same template, policy
/// and seed are the same puzzle, and their recorded solutions score the same.
pub proof fn lemma_generation_is_determined(
    p: PuzzleView,
    v: GeneratorConfigView,
    seed: GenerationSeed,
    a: GeneratedPuzzle,
    b: GeneratedPuzzle,
)
    requires
        generated_under(a, v, seed),
        par_is_best(a, v),
        drawn_target(p, v, seed, a),
        generated_under(b, v, seed),
        par_is_best(b, v),
        drawn_target(p, v, seed, b),
        a.attempt_view() == b.attempt_view(),
    ensures
        a.puzzle_view().view() == b.puzzle_view().view(),
        a.solution_view().score_view() == b.solution_view().score_view(),
{
    let pa = a.puzzle_view().view();
    let pb = b.puzzle_view().view();
    let sa = a.solution_view().score_view();
    let sb = b.solution_view().score_view();
    let acts_a = a.solution_view().replay_view().actions_view();
    let acts_b = b.solution_view().replay_view().actions_view();
    crate::domain::paper::FoldCount::lemma_spec_of(v.fold_budget);
    crate::domain::paper::StrokeCount::lemma_spec_of(v.stroke_budget);
    assert(pa.fold_budget == crate::domain::paper::FoldCount::spec_of(pa.fold_budget.value()));
    assert(pb.fold_budget == crate::domain::paper::FoldCount::spec_of(pb.fold_budget.value()));
    assert(pa.stroke_budget == crate::domain::paper::StrokeCount::spec_of(pa.stroke_budget.value()));
    assert(pb.stroke_budget == crate::domain::paper::StrokeCount::spec_of(pb.stroke_budget.value()));
    InkPattern::lemma_ext(pa.target, pb.target);
    lemma_run_same_rules(pa, pb, acts_a, acts_a.len() as int);
    lemma_run_same_rules(pa, pb, acts_b, acts_b.len() as int);
    assert(solution_from_start(pb, acts_a));
    assert(solution_from_start(pa, acts_b));
    crate::domain::paper::FoldCount::lemma_spec_of(sa.fold_part().value());
    crate::domain::paper::StrokeCount::lemma_spec_of(sa.stroke_part().value());
    assert(sa.fold_part() == crate::domain::paper::FoldCount::spec_of(sa.fold_part().value()));
    assert(sb.fold_part() == crate::domain::paper::FoldCount::spec_of(sb.fold_part().value()));
    assert(sa.stroke_part() == crate::domain::paper::StrokeCount::spec_of(sa.stroke_part().value()));
    assert(sb.stroke_part() == crate::domain::paper::StrokeCount::spec_of(sb.stroke_part().value()));
    crate::domain::score::Score::lemma_ext(sa, sb);
    assert(pa == pb);
}

// ---------------------------------------------------------------------------
// Generators
// ---------------------------------------------------------------------------

/// A validated generator's template has as many fold and brush rules as its policy.
proof fn lemma_rule_counts(p: PuzzleView, v: GeneratorConfigView)
    requires
        built_view(p, template_view(v)),
    ensures
        p.folds.len() == v.folds.len(),
        p.brushes.len() == v.brushes.len(),
{
    broadcast use vstd::seq_lib::group_to_multiset_ensures;

    crate::domain::puzzle::lemma_key_total::<Fold>();
    crate::domain::puzzle::lemma_key_total::<BrushRule>();
    v.folds.lemma_sort_by_ensures(crate::domain::puzzle::key_leq::<Fold>());
    v.brushes.lemma_sort_by_ensures(crate::domain::puzzle::key_leq::<BrushRule>());
    assert(p.folds.to_multiset().len() == v.folds.to_multiset().len());
    assert(p.brushes.to_multiset().len() == v.brushes.to_multiset().len());
}

/// A validated generation policy with its template puzzle and action catalog.
#[derive(Clone, Debug, PartialEq, Eq)]
pub struct Generator {
    config: GeneratorConfig,
    template: Puzzle,
    catalog: Vec<PaperAction>,
}

impl Generator {
    pub closed spec fn config_view(&self) -> GeneratorConfigView {
        self.config.view()
    }

    /// The template puzzle that every candidate starts from.
    pub closed spec fn template_puzzle(&self) -> PuzzleView {
        self.template.view()
    }

    /// What every validated generator satisfies.
    pub closed spec fn wf(&self) -> bool {
        let v = self.config.view();
        &&& config_error(v) is None
        &&& limits_error(v.solver_limits) is None
        &&& self.template.wf()
        &&& built_view(self.template.view(), template_view(v))
        &&& self.catalog@ == catalog(self.template.view())
    }

    /// Validates a complete generation policy before retaining it.
    pub fn new(config: GeneratorConfig) -> (r: Result<Self, GenerationError>)
        ensures
            config_error(config.view()) matches Some(e) ==> r == Err::<Self, GenerationError>(e),
            config_error(config.view()) is None ==> (limits_error(config.view().solver_limits) matches Some(e)
                ==> r == Err::<Self, GenerationError>(GenerationError::SolverLimits(e))),
            config_error(config.view()) is None && limits_error(config.view().solver_limits) is None ==> (puzzle_error(
                template_view(config.view()),
            ) matches Some(e) ==> r == Err::<Self, GenerationError>(GenerationError::Puzzle(e))),
            r matches Ok(g) ==> g.wf() && g.config_view() == config.view() && built_view(
                g.template_puzzle(),
                template_view(config.view()),
            ),
            r matches Err(e) ==> config_error(config.view()) is None && limits_error(config.view().solver_limits)
                is None && puzzle_error(template_view(config.view())) is None ==> e == GenerationError::Allocation,
    {
        validate_config(&config)?;
        match config.solver_limits.validate() {
            Ok(()) => {},
            Err(error) => return Err(GenerationError::SolverLimits(error)),
        }
        let spec = PuzzleSpec::new(config.template_identity.duplicate(), config.width, config.height)
            .with_allowed_folds(copy_vec(&config.allowed_folds))
            .with_allowed_brushes(copy_vec(&config.allowed_brushes))
            .with_budgets(config.fold_budget, config.stroke_budget);
        let template = match Puzzle::new(spec) {
            Ok(template) => template,
            Err(error) => return Err(GenerationError::Puzzle(error)),
        };
        let catalog = match action_catalog(&template) {
            Ok(catalog) => catalog,
            Err(CatalogError::Allocation) => return Err(GenerationError::Allocation),
        };
        Ok(Generator { config, template, catalog })
    }

    pub fn config(&self) -> (r: &GeneratorConfig)
        ensures
            r.view() == self.config_view(),
    {
        &self.config
    }

    /// Generates one validated nontrivial puzzle from an explicit seed. A
    /// generated puzzle comes with a solution that replays to its target.
    /// Candidates are drawn from the template, the policy and the seed alone;
    /// the puzzle returned is the one drawn at its attempt, and its par is the
    /// best score within the policy's search depth.
    pub fn generate<C: Cancellation + ?Sized>(&self, seed: GenerationSeed, cancellation: &C) -> (r: GenerationOutcome)
        requires
            self.wf(),
        ensures
            seed.view().0 != 1 ==> r == GenerationOutcome::Invalid(GenerationError::UnsupportedCompatibility {
                found: seed.view().0,
                supported: 1,
            }),
            r matches GenerationOutcome::Generated { puzzle, stats } ==> generated_under(*puzzle, self.config_view(), seed)
                && stats.view().0 == puzzle.attempt_view() + 1 && par_is_best(*puzzle, self.config_view())
                && drawn_target(self.template_puzzle(), self.config_view(), seed, *puzzle),
            r matches GenerationOutcome::Generated { puzzle, stats } ==> drawn_searched(
                self.template_puzzle(),
                self.config_view(),
                seed,
                puzzle.attempt_view() as nat,
            ) && stats.view().1 == repeated_count(
                self.template_puzzle(),
                self.config_view(),
                seed,
                (puzzle.attempt_view() + 1) as nat,
            ) && stats.view().2 == searched_count(
                self.template_puzzle(),
                self.config_view(),
                seed,
                (puzzle.attempt_view() + 1) as nat,
            ),
            seed.view().0 == 1 ==> (r matches GenerationOutcome::Exhausted { seed: s, stats, last_rejection } ==> s
                == seed && stats.view().0 == self.config_view().maximum_attempts && stats.view().1 == repeated_count(
                self.template_puzzle(),
                self.config_view(),
                seed,
                self.config_view().maximum_attempts as nat,
            ) && stats.view().2 == searched_count(
                self.template_puzzle(),
                self.config_view(),
                seed,
                self.config_view().maximum_attempts as nat,
            ) && rejection_fits(
                last_rejection,
                self.template_puzzle(),
                self.config_view(),
                seed,
                (self.config_view().maximum_attempts - 1) as nat,
            )),
            seed.view().0 == 1 ==> (r matches GenerationOutcome::Cancelled { seed: s, .. } ==> s == seed),
            cancellation.never_cancels() ==> !(r is Cancelled),
            seed.view().0 == 1 ==> (r matches GenerationOutcome::Invalid(e) ==> e == GenerationError::Allocation),
    {
        match seed.compatibility_version {
            1 => self.generate_v1(seed, cancellation),
            found => GenerationOutcome::Invalid(GenerationError::UnsupportedCompatibility {
                found,
                supported: CURRENT_GENERATOR_COMPATIBILITY_VERSION,
            }),
        }
    }

    fn generate_v1<C: Cancellation + ?Sized>(&self, seed: GenerationSeed, cancellation: &C) -> (r: GenerationOutcome)
        requires
            self.wf(),
        ensures
            r matches GenerationOutcome::Generated { puzzle, stats } ==> generated_under(*puzzle, self.config_view(), seed)
                && stats.view().0 == puzzle.attempt_view() + 1 && par_is_best(*puzzle, self.config_view())
                && drawn_target(self.template_puzzle(), self.config_view(), seed, *puzzle),
            r matches GenerationOutcome::Generated { puzzle, stats } ==> drawn_searched(
                self.template_puzzle(),
                self.config_view(),
                seed,
                puzzle.attempt_view() as nat,
            ) && stats.view().1 == repeated_count(
                self.template_puzzle(),
                self.config_view(),
                seed,
                (puzzle.attempt_view() + 1) as nat,
            ) && stats.view().2 == searched_count(
                self.template_puzzle(),
                self.config_view(),
                seed,
                (puzzle.attempt_view() + 1) as nat,
            ),
            r matches GenerationOutcome::Exhausted { seed: s, stats, last_rejection } ==> s == seed && stats.view().0
                == self.config_view().maximum_attempts && stats.view().1 == repeated_count(
                self.template_puzzle(),
                self.config_view(),
                seed,
                self.config_view().maximum_attempts as nat,
            ) && stats.view().2 == searched_count(
                self.template_puzzle(),
                self.config_view(),
                seed,
                self.config_view().maximum_attempts as nat,
            ) && rejection_fits(
                last_rejection,
                self.template_puzzle(),
                self.config_view(),
                seed,
                (self.config_view().maximum_attempts - 1) as nat,
            ),
            r matches GenerationOutcome::Cancelled { seed: s, .. } ==> s == seed,
            cancellation.never_cancels() ==> !(r is Cancelled),
            r matches GenerationOutcome::Invalid(e) ==> e == GenerationError::Allocation,
    {
        let mut random = StableRandom::new(seed.value);
        let mut seen_targets: Vec<InkPattern> = Vec::new();
        if seen_targets.try_reserve(self.config.maximum_attempts as usize).is_err() {
            return GenerationOutcome::Invalid(GenerationError::Allocation);
        }
        let mut stats = GenerationStats { attempted_candidates: 0, duplicate_candidates: 0, solver_calls: 0 };
        let mut last_rejection = CandidateRejection::InvalidSequence;
        let mut candidate = self.template.start();
        let maximum_attempts = self.config.maximum_attempts;
        let mut attempt_index: u16 = 0;
        let ghost p = self.template.view();
        let ghost v = self.config.view();
        while attempt_index < maximum_attempts
            invariant
                self.wf(),
                maximum_attempts == self.config.maximum_attempts,
                maximum_attempts <= 512,
                attempt_index <= maximum_attempts,
                candidate.wf(),
                candidate.puzzle_view() == self.template.view(),
                stats.attempted_candidates == attempt_index,
                stats.duplicate_candidates <= attempt_index,
                stats.solver_calls <= attempt_index,
                random.state == draw_state(self.template.view(), self.config.view(), seed.value, attempt_index as nat),
                p == self.template.view(),
                v == self.config.view(),
                seen_matches(p, v, seed, attempt_index as nat, seen_targets@),
                stats.duplicate_candidates == repeated_count(p, v, seed, attempt_index as nat),
                stats.solver_calls == searched_count(p, v, seed, attempt_index as nat),
                attempt_index > 0 ==> rejection_fits(last_rejection, p, v, seed, (attempt_index - 1) as nat),
            decreases maximum_attempts - attempt_index,
        {
            if cancellation.is_cancelled() {
                return GenerationOutcome::Cancelled { seed, stats };
            }
            stats.attempted_candidates = stats.attempted_candidates + 1;
            let ghost state_before = random.state;
            match self.build_candidate(&mut random, cancellation, &mut candidate) {
                CandidateBuild::Built => {},
                CandidateBuild::Rejected => {
                    proof {
                        assert(draw_state(self.template.view(), self.config.view(), seed.value, attempt_index as nat + 1)
                            == random.state);
                        let k = attempt_index as nat;
                        assert(!drawn_built(p, v, seed, k));
                        lemma_seen_unbuilt(p, v, seed, k, seen_targets@);
                        assert(repeated_count(p, v, seed, k + 1) == repeated_count(p, v, seed, k));
                        assert(searched_count(p, v, seed, k + 1) == searched_count(p, v, seed, k));
                    }
                    last_rejection = CandidateRejection::InvalidSequence;
                    attempt_index = attempt_index + 1;
                    continue;
                },
                CandidateBuild::Cancelled => {
                    return GenerationOutcome::Cancelled { seed, stats };
                },
            }
            let ghost target = candidate.ink_value();
            let ghost drawn = candidate.paper_model();
            proof {
                candidate.lemma_wf();
                assert(target.cells() == drawn.state.ink);
                assert(draw_state(self.template.view(), self.config.view(), seed.value, attempt_index as nat + 1)
                    == random.state);
                assert(drawn_candidate(p, v, seed, attempt_index as nat) == (true, drawn));
                assert(target.dims() == p.dims);
                lemma_seen_contains(p, v, seed, attempt_index as nat, seen_targets@, target);
                lemma_ink_ids(p.dims, target);
            }
            let ghost seen0 = seen_targets@;
            let puzzle = match self.validate_candidate(seed, attempt_index, &candidate, &mut seen_targets) {
                Ok(puzzle) => puzzle,
                Err(rejection) => {
                    proof {
                        let k = attempt_index as nat;
                        lemma_seen_built(p, v, seed, k, seen0, seen_targets@, target);
                        assert(searched_count(p, v, seed, k + 1) == searched_count(p, v, seed, k));
                    }
                    match rejection {
                        CandidateRejection::DuplicateTarget => {
                            stats.duplicate_candidates = stats.duplicate_candidates + 1;
                        },
                        _ => {},
                    }
                    last_rejection = rejection;
                    attempt_index = attempt_index + 1;
                    continue;
                },
            };
            proof {
                let k = attempt_index as nat;
                lemma_seen_built(p, v, seed, k, seen0, seen_targets@, target);
                assert(drawn_searched(p, v, seed, k));
                assert(repeated_count(p, v, seed, k + 1) == repeated_count(p, v, seed, k));
                assert(searched_count(p, v, seed, k + 1) == searched_count(p, v, seed, k) + 1);
            }
            stats.solver_calls = stats.solver_calls + 1;
            let ghost acts = history_actions(candidate.paper_model());
            proof {
                let tv = self.template.view();
                let pv = puzzle.view();
                let v = self.config.view();
                crate::domain::paper::FoldCount::lemma_spec_of(v.fold_budget);
                crate::domain::paper::StrokeCount::lemma_spec_of(v.stroke_budget);
                assert(crate::domain::paper::FoldCount::spec_of(tv.fold_budget.value()) == crate::domain::paper::FoldCount::spec_of(
                    pv.fold_budget.value(),
                ));
                assert(crate::domain::paper::StrokeCount::spec_of(tv.stroke_budget.value())
                    == crate::domain::paper::StrokeCount::spec_of(pv.stroke_budget.value()));
                lemma_run_same_rules(tv, pv, acts, acts.len() as int);
                assert(pv.target.cells() == candidate.paper_model().state.ink);
                assert(solution_from_start(pv, acts));
            }
            let solution = match Solver::solve(&puzzle, self.config.solver_limits, cancellation) {
                SolveOutcome::Solved(solution) => solution,
                SolveOutcome::Unsolved(_) => {
                    proof {
                        assert(!solution_from_start(puzzle.view(), acts));
                    }
                    vstd::pervasive::unreached()
                },
                SolveOutcome::Exhausted { reason, .. } => {
                    proof {
                        if reason == ExhaustionReason::VisitedStates {
                            let pv = puzzle.view();
                            crate::domain::paper::FoldCount::lemma_spec_of(v.fold_budget);
                            crate::domain::paper::StrokeCount::lemma_spec_of(v.stroke_budget);
                            assert(crate::domain::paper::FoldCount::spec_of(p.fold_budget.value())
                                == crate::domain::paper::FoldCount::spec_of(pv.fold_budget.value()));
                            assert(crate::domain::paper::StrokeCount::spec_of(p.stroke_budget.value())
                                == crate::domain::paper::StrokeCount::spec_of(pv.stroke_budget.value()));
                            crate::solver::lemma_reaches_same_rules(
                                pv,
                                p,
                                v.solver_limits.view().2 as int,
                                v.solver_limits.view().0 as int,
                            );
                        }
                    }
                    last_rejection = CandidateRejection::SolverExhausted(reason);
                    attempt_index = attempt_index + 1;
                    continue;
                },
                SolveOutcome::Cancelled(_) => {
                    return GenerationOutcome::Cancelled { seed, stats };
                },
                SolveOutcome::Invalid(error) => {
                    return GenerationOutcome::Invalid(GenerationError::SolverLimits(error));
                },
            };
            if solution.score().folds().get() == 0 || solution.score().strokes().get() == 0 {
                proof {
                    let pv = puzzle.view();
                    let sacts = solution.replay_view().actions_view();
                    crate::domain::paper::FoldCount::lemma_spec_of(v.fold_budget);
                    crate::domain::paper::StrokeCount::lemma_spec_of(v.stroke_budget);
                    assert(crate::domain::paper::FoldCount::spec_of(p.fold_budget.value())
                        == crate::domain::paper::FoldCount::spec_of(pv.fold_budget.value()));
                    assert(crate::domain::paper::StrokeCount::spec_of(p.stroke_budget.value())
                        == crate::domain::paper::StrokeCount::spec_of(pv.stroke_budget.value()));
                    lemma_run_same_rules(p, pv, sacts, sacts.len() as int);
                    assert(trivial_solution(p, drawn_ink(p, v, seed, attempt_index as nat), v.solver_limits.view().2 as int, sacts));
                }
                last_rejection = CandidateRejection::Trivial;
                attempt_index = attempt_index + 1;
                continue;
            }
            proof {
                assert(drawn_candidate(self.template.view(), self.config.view(), seed, attempt_index as nat) == (
                    true,
                    drawn,
                ));
            }
            return self.generated_outcome(seed, attempt_index, &puzzle, solution, stats, Ghost(target));
        }
        GenerationOutcome::Exhausted { seed, last_rejection, stats }
    }

    fn build_candidate<C: Cancellation + ?Sized>(
        &self,
        random: &mut StableRandom,
        cancellation: &C,
        candidate: &mut Attempt,
    ) -> (r: CandidateBuild)
        requires
            self.wf(),
            old(candidate).wf(),
            old(candidate).puzzle_view() == self.template.view(),
        ensures
            final(candidate).wf(),
            final(candidate).puzzle_view() == self.template.view(),
            ({
                let acts = history_actions(final(candidate).paper_model());
                &&& run(self.template.view(), acts, acts.len() as int) == Ok::<PaperModel, (int, ActionError)>(
                    final(candidate).paper_model(),
                )
                &&& lines_in_order(acts, acts.len() as int)
                &&& r is Built ==> {
                    &&& self.config_view().minimum_source_actions <= acts.len()
                        <= self.config_view().maximum_source_actions
                    &&& acts[0] is Fold
                    &&& final(candidate).paper_model().state.ink != Set::<int>::empty()
                }
            }),
            cancellation.never_cancels() ==> !(r is Cancelled),
            !(r is Cancelled) ==> draw_candidate(self.template.view(), self.config_view(), old(random).state) == (
                r is Built,
                final(candidate).paper_model(),
                final(random).state,
            ),
    {
        let ghost p = self.template.view();
        let ghost v = self.config.view();
        let ghost s0 = random.state;
        proof {
            lemma_rule_counts(p, v);
            p.dims.lemma_wf();
            crate::solver::lemma_catalog_layout(p);
            crate::solver::lemma_brush_actions_not_fold(p.dims, p.brushes, p.brushes.len() as int);
        }
        let source_actions = random.inclusive_u8(self.config.minimum_source_actions, self.config.maximum_source_actions);
        candidate.reset();
        let fold_actions = self.template.allowed_folds().len();
        let total = self.catalog.len();
        let ghost mut acts: Seq<PaperAction> = Seq::empty();
        proof {
            candidate.lemma_wf();
            crate::domain::paper::Dimensions::lemma_eq(candidate.paper_model().dims, p.dims);
            assert(candidate.paper_model() == fresh_paper(p));
            assert(run(p, acts, 0) == Ok::<PaperModel, (int, ActionError)>(fresh_paper(p)));
        }
        let mut action_index: u8 = 0;
        while action_index < source_actions
            invariant
                self.wf(),
                p == self.template.view(),
                v == self.config.view(),
                candidate.wf(),
                candidate.puzzle_view() == p,
                fold_actions == p.folds.len(),
                fold_actions >= 1,
                total == self.catalog@.len(),
                total >= fold_actions + 1,
                total <= 44 + 144 * 23,
                self.catalog@ == catalog(p),
                forall|j: int| fold_actions <= j < total ==> !(#[trigger] self.catalog@[j] is Fold),
                action_index <= source_actions,
                v.minimum_source_actions <= source_actions <= v.maximum_source_actions,
                source_actions >= 2,
                acts.len() == action_index,
                run(p, acts, acts.len() as int) == Ok::<PaperModel, (int, ActionError)>(candidate.paper_model()),
                action_index >= 1 ==> acts[0] is Fold,
                action_index == source_actions ==> candidate.paper_model().state.ink != Set::<int>::empty(),
                forall|k: int| 0 <= k < acts.len() ==> #[trigger] catalog(p).contains(acts[k]),
                s0 == old(random).state,
                draw_candidate(p, v, s0) == draw_actions(
                    p,
                    candidate.paper_model(),
                    random.state,
                    action_index as int,
                    source_actions as int,
                ),
            decreases source_actions - action_index,
        {
            let needs_fold = action_index == 0;
            let needs_brush = action_index + 1 == source_actions && candidate.ink().is_empty();
            let (range_start, range_len) = if needs_fold {
                (0, fold_actions)
            } else if needs_brush {
                (fold_actions, total - fold_actions)
            } else {
                (0, total)
            };
            let ghost sp = random.state;
            proof {
                assert((range_start as int, range_len as int) == draw_range(
                    p.folds.len() as int,
                    catalog(p).len() as int,
                    action_index as int,
                    source_actions as int,
                    candidate.paper_model(),
                ));
            }
            let start = random.index(range_len);
            let ghost m0 = candidate.paper_model();
            let chosen = match self.scan_catalog(cancellation, candidate, range_start, range_len, start) {
                CatalogScan::Found(action) => action,
                CatalogScan::Missing => {
                    proof {
                        assert(draw_actions(p, m0, sp, action_index as int, source_actions as int) == (
                            false,
                            m0,
                            advance(sp),
                        )) by {
                            reveal(draw_actions);
                        }
                        lemma_run_history(p, acts, acts.len() as int);
                        assert(history_actions(m0) =~= acts);
                        lemma_catalog_lines(p, acts);
                    }
                    return CandidateBuild::Rejected;
                },
                CatalogScan::Cancelled => {
                    proof {
                        lemma_run_history(p, acts, acts.len() as int);
                        assert(history_actions(m0) =~= acts);
                        lemma_catalog_lines(p, acts);
                    }
                    return CandidateBuild::Cancelled;
                },
            };
            proof {
                let j = choose|j: int|
                    range_start <= j < range_start + range_len && #[trigger] catalog(p)[j] == chosen;
                assert(catalog(p).contains(chosen)) by {
                    assert(catalog(p)[j] == chosen);
                }
                if needs_fold {
                    assert(self.catalog@[j] == PaperAction::Fold(p.folds[j]));
                } else if needs_brush {
                    assert(!(self.catalog@[j] is Fold));
                }
            }
            proof {
                assert(draw_actions(p, m0, sp, action_index as int, source_actions as int) == draw_actions(
                    p,
                    candidate.paper_model(),
                    random.state,
                    action_index + 1,
                    source_actions as int,
                )) by {
                    reveal(draw_actions);
                }
                let next = acts.push(chosen);
                assert forall|k: int| 0 <= k < next.len() implies #[trigger] catalog(p).contains(next[k]) by {
                    if k < acts.len() {
                        assert(next[k] == acts[k]);
                    }
                }
                crate::domain::replay::lemma_run_ext(p, next, acts, acts.len() as int);
                assert(run(p, next, next.len() as int) == Ok::<PaperModel, (int, ActionError)>(candidate.paper_model()));
                crate::domain::paper::state::lemma_apply_keeps_ink(m0, chosen);
                if action_index == 0 {
                    assert(next[0] == chosen);
                } else {
                    assert(next[0] == acts[0]);
                }
                acts = next;
            }
            action_index = action_index + 1;
        }
        proof {
            let m = candidate.paper_model();
            lemma_run_history(p, acts, acts.len() as int);
            assert(history_actions(m) =~= acts);
            lemma_catalog_lines(p, acts);
            assert(draw_actions(p, m, random.state, action_index as int, source_actions as int) == (
                true,
                m,
                random.state,
            )) by {
                reveal(draw_actions);
            }
        }
        CandidateBuild::Built
    }

    /// Scans a catalog range round from `start` for the first action that
    /// applies to the candidate and either folds it or changes its ink, and
    /// leaves the candidate with that action made.
    fn scan_catalog<C: Cancellation + ?Sized>(
        &self,
        cancellation: &C,
        candidate: &mut Attempt,
        range_start: usize,
        range_len: usize,
        start: usize,
    ) -> (r: CatalogScan)
        requires
            self.wf(),
            old(candidate).wf(),
            old(candidate).puzzle_view() == self.template.view(),
            range_start + range_len <= self.catalog@.len() <= 44 + 144 * 23,
            1 <= range_len,
            start < range_len,
        ensures
            final(candidate).wf(),
            final(candidate).puzzle_view() == self.template.view(),
            !(r is Found) ==> final(candidate).paper_model() == old(candidate).paper_model(),
            cancellation.never_cancels() ==> !(r is Cancelled),
            r is Missing ==> pick_action(
                self.template.view(),
                old(candidate).paper_model(),
                range_start as int,
                range_len as int,
                start as int,
                0,
            ) is None,
            r matches CatalogScan::Found(a) ==> {
                let p = self.template.view();
                let m0 = old(candidate).paper_model();
                let m1 = final(candidate).paper_model();
                &&& pick_action(p, m0, range_start as int, range_len as int, start as int, 0) == Some((a, m1))
                &&& attempt_step(p, m0, a) == Ok::<PaperModel, ActionError>(m1)
                &&& exists|j: int| range_start <= j < range_start + range_len && #[trigger] catalog(p)[j] == a
                &&& (a is Fold || m1.state.ink != m0.state.ink)
            },
    {
        let ghost p = self.template.view();
        let ghost m0 = candidate.paper_model();
        let mut offset: usize = 0;
        while offset < range_len
            invariant
                self.wf(),
                p == self.template.view(),
                candidate.wf(),
                candidate.puzzle_view() == p,
                candidate.paper_model() == m0,
                m0 == old(candidate).paper_model(),
                self.catalog@ == catalog(p),
                range_start + range_len <= self.catalog@.len() <= 44 + 144 * 23,
                1 <= range_len,
                start < range_len,
                offset <= range_len,
                pick_action(p, m0, range_start as int, range_len as int, start as int, 0) == pick_action(
                    p,
                    m0,
                    range_start as int,
                    range_len as int,
                    start as int,
                    offset as int,
                ),
            decreases range_len - offset,
        {
            if cancellation.is_cancelled() {
                return CatalogScan::Cancelled;
            }
            proof {
                let sum = start + offset;
                let len = range_len as int;
                assert(sum % len < len) by (nonlinear_arith)
                    requires
                        len > 0,
                        sum >= 0,
                ;
            }
            let index = range_start + (start + offset) % range_len;
            let action = self.catalog[index];
            let ink_before = candidate.ink();
            proof {
                candidate.lemma_wf();
                assert(action == catalog(p)[range_start + (start + offset) % range_len as int]);
            }
            match candidate.apply(action) {
                Ok(()) => {
                    proof {
                        crate::domain::paper::state::lemma_undo_after_apply(m0, action);
                        candidate.lemma_wf();
                    }
                    let is_fold = match action {
                        PaperAction::Fold(_) => true,
                        _ => false,
                    };
                    let ink_after = candidate.ink();
                    if !is_fold && ink_after.same(ink_before) {
                        proof {
                            assert(pick_action(p, m0, range_start as int, range_len as int, start as int, offset as int)
                                == pick_action(
                                p,
                                m0,
                                range_start as int,
                                range_len as int,
                                start as int,
                                offset as int + 1,
                            )) by {
                                reveal(pick_action);
                            }
                        }
                        match candidate.undo() {
                            Ok(()) => {},
                            Err(_) => vstd::pervasive::unreached(),
                        }
                        offset = offset + 1;
                    } else {
                        proof {
                            if !is_fold && candidate.paper_model().state.ink == m0.state.ink {
                                InkPattern::lemma_ext(ink_after, ink_before);
                            }
                            assert(pick_action(p, m0, range_start as int, range_len as int, start as int, offset as int)
                                == Some((action, candidate.paper_model()))) by {
                                reveal(pick_action);
                            }
                            let j = range_start + (start + offset) % range_len as int;
                            assert(catalog(p)[j] == action);
                        }
                        return CatalogScan::Found(action);
                    }
                },
                Err(_) => {
                    proof {
                        assert(pick_action(p, m0, range_start as int, range_len as int, start as int, offset as int)
                            == pick_action(
                            p,
                            m0,
                            range_start as int,
                            range_len as int,
                            start as int,
                            offset as int + 1,
                        )) by {
                            reveal(pick_action);
                        }
                    }
                    offset = offset + 1;
                },
            }
        }
        proof {
            assert(pick_action(p, m0, range_start as int, range_len as int, start as int, offset as int) is None) by {
                reveal(pick_action);
            }
        }
        CatalogScan::Missing
    }

    fn validate_candidate(
        &self,
        seed: GenerationSeed,
        attempt_index: u16,
        candidate: &Attempt,
        seen_targets: &mut Vec<InkPattern>,
    ) -> (r: Result<Puzzle, CandidateRejection>)
        requires
            self.wf(),
            candidate.wf(),
            candidate.puzzle_view() == self.template.view(),
        ensures
            old(seen_targets)@.contains(candidate.ink_value()) <==> r == Err::<Puzzle, CandidateRejection>(
                CandidateRejection::DuplicateTarget,
            ),
            old(seen_targets)@.contains(candidate.ink_value()) ==> final(seen_targets)@ == old(seen_targets)@,
            !old(seen_targets)@.contains(candidate.ink_value()) ==> {
                let cv = candidate_view(self.config_view(), seed, attempt_index, candidate.ink_value().id_seq(), None);
                &&& final(seen_targets)@ == old(seen_targets)@.push(candidate.ink_value())
                &&& (r is Ok <==> (id_error(encode_utf8(self.config_view().pack)) is None && id_error(
                    encode_utf8(candidate_id(seed, attempt_index)),
                ) is None && puzzle_error(cv) is None))
                &&& (r is Err ==> r == Err::<Puzzle, CandidateRejection>(CandidateRejection::InvalidSequence))
            },
            r matches Ok(p) ==> {
                let cv = candidate_view(self.config_view(), seed, attempt_index, candidate.ink_value().id_seq(), None);
                &&& p.wf()
                &&& built_view(p.view(), cv)
                &&& id_error(encode_utf8(self.config_view().pack)) is None
                &&& id_error(encode_utf8(candidate_id(seed, attempt_index))) is None
                &&& puzzle_error(cv) is None
                &&& id_set(candidate.ink_value().id_seq(), candidate.ink_value().id_seq().len() as int)
                    == candidate.ink_value().cells()
            },
    {
        let target = candidate.ink();
        let mut i: usize = 0;
        while i < seen_targets.len()
            invariant
                i <= seen_targets@.len(),
                target == candidate.ink_value(),
                *seen_targets == *old(seen_targets),
                forall|k: int| 0 <= k < i ==> seen_targets@[k] != target,
            decreases seen_targets@.len() - i,
        {
            if seen_targets[i].same(target) {
                return Err(CandidateRejection::DuplicateTarget);
            }
            i = i + 1;
        }
        assert(!seen_targets@.contains(target));
        seen_targets.push(target);
        match self.candidate_puzzle(seed, attempt_index, target, None) {
            Ok(puzzle) => Ok(puzzle),
            Err(_) => Err(CandidateRejection::InvalidSequence),
        }
    }

    fn generated_outcome(
        &self,
        seed: GenerationSeed,
        attempt_index: u16,
        puzzle: &Puzzle,
        solution: Solution,
        stats: GenerationStats,
        target: Ghost<InkPattern>,
    ) -> (r: GenerationOutcome)
        requires
            self.wf(),
            puzzle.wf(),
            built_view(puzzle.view(), candidate_view(self.config_view(), seed, attempt_index, target@.id_seq(), None)),
            id_error(encode_utf8(self.config_view().pack)) is None,
            id_error(encode_utf8(candidate_id(seed, attempt_index))) is None,
            puzzle_error(candidate_view(self.config_view(), seed, attempt_index, target@.id_seq(), None)) is None,
            id_set(target@.id_seq(), target@.id_seq().len() as int) == target@.cells(),
            target@.dims() == self.template.view().dims,
            solves(puzzle.view(), solution.replay_view(), solution.score_view()),
            attempt_index < self.config_view().maximum_attempts,
            solution.score_view().fold_part().value() > 0,
            solution.score_view().stroke_part().value() > 0,
            solution.replay_view().actions_view().len() <= self.config_view().solver_limits.view().2,
            lines_in_order(solution.replay_view().actions_view(), solution.replay_view().actions_view().len() as int),
            forall|actions: Seq<PaperAction>|
                lines_in_order(actions, actions.len() as int) && actions.len() <= self.config_view().solver_limits.view().2
                    && #[trigger] solution_from_start(puzzle.view(), actions) ==> score_le(
                    solution.score_view().fold_part().value() as int,
                    solution.score_view().stroke_part().value() as int,
                    run(puzzle.view(), actions, actions.len() as int)->Ok_0.state.folds,
                    run(puzzle.view(), actions, actions.len() as int)->Ok_0.state.strokes,
                ),
        ensures
            r matches GenerationOutcome::Generated { puzzle, stats: s } && s == stats && puzzle.attempt_view()
                == attempt_index && generated_under(*puzzle, self.config_view(), seed)
                && puzzle.puzzle_view().view().target.cells() == target@.cells() && par_is_best(
                *puzzle,
                self.config_view(),
            ),
    {
        let ghost v = self.config_view();
        let ghost pv = puzzle.view();
        let ghost actions = solution.replay_view().actions_view();
        let ghost m = run(pv, actions, actions.len() as int)->Ok_0;
        proof {
            crate::domain::paper::ActionCount::lemma_spec_of(64);
            pv.dims.lemma_wf();
            lemma_run_history(pv, actions, actions.len() as int);
            lemma_run_wf(pv, actions, actions.len() as int);
            InkPattern::lemma_ext(pv.target, target@);
        }
        let par = Par::new(solution.score().folds(), solution.score().strokes());
        let final_puzzle = match self.candidate_puzzle(seed, attempt_index, puzzle.target(), Some(par)) {
            Ok(final_puzzle) => final_puzzle,
            Err(_) => vstd::pervasive::unreached(),
        };
        let replay = match Replay::new(ReplayMetadata::current(&final_puzzle), copy_slice(solution.replay().actions())) {
            Ok(replay) => replay,
            Err(_) => vstd::pervasive::unreached(),
        };
        let solution = solution.with_replay(replay);
        proof {
            let fv = final_puzzle.view();
            crate::domain::paper::FoldCount::lemma_spec_of(0);
            crate::domain::paper::StrokeCount::lemma_spec_of(0);
            assert(crate::domain::paper::FoldCount::spec_of(fv.fold_budget.value()) == fv.fold_budget);
            assert(crate::domain::paper::FoldCount::spec_of(pv.fold_budget.value()) == pv.fold_budget);
            assert(crate::domain::paper::StrokeCount::spec_of(fv.stroke_budget.value()) == fv.stroke_budget);
            assert(crate::domain::paper::StrokeCount::spec_of(pv.stroke_budget.value()) == pv.stroke_budget);
            lemma_run_same_rules(final_puzzle.view(), pv, actions, actions.len() as int);
            assert forall|acts: Seq<PaperAction>|
                lines_in_order(acts, acts.len() as int) && acts.len() <= v.solver_limits.view().2
                    && #[trigger] solution_from_start(fv, acts) implies score_le(
                solution.score_view().fold_part().value() as int,
                solution.score_view().stroke_part().value() as int,
                run(fv, acts, acts.len() as int)->Ok_0.state.folds,
                run(fv, acts, acts.len() as int)->Ok_0.state.strokes,
            ) by {
                lemma_run_same_rules(fv, pv, acts, acts.len() as int);
                assert(solution_from_start(pv, acts));
            }
        }
        let verified = solution.replay().execute(&final_puzzle);
        match verified {
            Ok(_) => {},
            Err(_) => vstd::pervasive::unreached(),
        }
        GenerationOutcome::Generated {
            puzzle: Box::new(
                GeneratedPuzzle { puzzle: final_puzzle, solution, seed, candidate_attempt: attempt_index },
            ),
            stats,
        }
    }

    fn candidate_puzzle(&self, seed: GenerationSeed, attempt_index: u16, target: InkPattern, par: Option<Par>) -> (r:
        Result<Puzzle, PuzzleError>)
        requires
            self.wf(),
        ensures
            r is Ok <==> (id_error(encode_utf8(self.config_view().pack)) is None && id_error(
                encode_utf8(candidate_id(seed, attempt_index)),
            ) is None && puzzle_error(candidate_view(self.config_view(), seed, attempt_index, target.id_seq(), par))
                is None),
            r matches Ok(p) ==> p.wf() && built_view(
                p.view(),
                candidate_view(self.config_view(), seed, attempt_index, target.id_seq(), par),
            ),
            id_set(target.id_seq(), target.id_seq().len() as int) == target.cells(),
    {
        let mut id = String::new();
        id.append("paper-v");
        push_decimal(&mut id, seed.compatibility_version as u64);
        id.append("-");
        push_hex(&mut id, seed.value, 16);
        id.append("-");
        push_decimal(&mut id, attempt_index as u64);
        let ids = target.cell_ids();
        proof {
            assert forall|x: int| #[trigger] id_set(ids@, ids@.len() as int).contains(x) == target.cells().contains(x) by {
                if target.cells().contains(x) {
                    let j = choose|j: int| 0 <= j < ids@.len() && ids@[j].value() as int == x;
                    assert(ids@[j].value() as int == x);
                }
            }
            assert(id_set(ids@, ids@.len() as int) =~= target.cells());
        }
        let identity = PuzzleIdentity::new(self.config.template_identity.pack_id(), id.as_str())?;
        let mut spec = PuzzleSpec::new(identity, self.config.width, self.config.height)
            .with_target_cells(ids)
            .with_allowed_folds(copy_vec(&self.config.allowed_folds))
            .with_allowed_brushes(copy_vec(&self.config.allowed_brushes))
            .with_budgets(self.config.fold_budget, self.config.stroke_budget);
        match par {
            Some(par) => {
                spec = spec.with_par(par);
            },
            None => {},
        }
        Puzzle::new(spec)
    }
}

// ---------------------------------------------------------------------------
// Outcomes
// ---------------------------------------------------------------------------

/// A generated puzzle with its verified solution.
#[derive(Clone, Debug, PartialEq, Eq)]
pub struct GeneratedPuzzle {
    puzzle: Puzzle,
    solution: Solution,
    seed: GenerationSeed,
    candidate_attempt: u16,
}

impl GeneratedPuzzle {
    pub closed spec fn puzzle_view(&self) -> Puzzle {
        self.puzzle
    }

    pub closed spec fn solution_view(&self) -> Solution {
        self.solution
    }

    pub closed spec fn seed_view(&self) -> GenerationSeed {
        self.seed
    }

    pub closed spec fn attempt_view(&self) -> u16 {
        self.candidate_attempt
    }

    pub fn puzzle(&self) -> (r: &Puzzle)
        ensures
            *r == self.puzzle_view(),
    {
        &self.puzzle
    }

    pub fn solution(&self) -> (r: &Solution)
        ensures
            *r == self.solution_view(),
    {
        &self.solution
    }

    pub fn seed(&self) -> (r: GenerationSeed)
        ensures
            r == self.seed_view(),
    {
        self.seed
    }

    pub fn candidate_attempt(&self) -> (r: u16)
        ensures
            r == self.attempt_view(),
    {
        self.candidate_attempt
    }
}

/// Counters of one generation.
#[derive(Clone, Copy, Debug, PartialEq, Eq)]
pub struct GenerationStats {
    attempted_candidates: u16,
    duplicate_candidates: u16,
    solver_calls: u16,
}

impl GenerationStats {
    pub closed spec fn view(self) -> (u16, u16, u16) {
        (self.attempted_candidates, self.duplicate_candidates, self.solver_calls)
    }

    pub fn attempted_candidates(self) -> (r: u16)
        ensures
            r == self.view().0,
    {
        self.attempted_candidates
    }

    pub fn duplicate_candidates(self) -> (r: u16)
        ensures
            r == self.view().1,
    {
        self.duplicate_candidates
    }

    pub fn solver_calls(self) -> (r: u16)
        ensures
            r == self.view().2,
    {
        self.solver_calls
    }
}

impl Default for GenerationStats {
    fn default() -> (r: Self)
        ensures
            r.view() == (0u16, 0u16, 0u16),
    {
        GenerationStats { attempted_candidates: 0, duplicate_candidates: 0, solver_calls: 0 }
    }
}

#[derive(Clone, Copy, Debug, PartialEq, Eq)]
pub enum CandidateRejection {
    Trivial,
    DuplicateTarget,
    InvalidSequence,
    SolverExhausted(ExhaustionReason),
}

#[derive(Clone, Debug, PartialEq, Eq)]
pub enum GenerationOutcome {
    Generated { puzzle: Box<GeneratedPuzzle>, stats: GenerationStats },
    Exhausted { seed: GenerationSeed, last_rejection: CandidateRejection, stats: GenerationStats },
    Cancelled { seed: GenerationSeed, stats: GenerationStats },
    Invalid(GenerationError),
}

#[derive(Clone, Debug, PartialEq, Eq)]
pub enum GenerationError {
    Puzzle(PuzzleError),
    NeedsFold,
    NeedsBrush,
    AttemptLimit { found: u16, maximum: u16 },
    SourceActionRange { minimum: u8, maximum: u8 },
    SourceActionsExceedBudget { maximum: u8, budget: u8 },
    SolverLimits(InvalidSolverInput),
    UnsupportedCompatibility { found: u16, supported: u16 },
    Allocation,
}

enum CandidateBuild {
    Built,
    Rejected,
    Cancelled,
}

/// What a scan of a catalog range found.
enum CatalogScan {
    Found(PaperAction),
    Missing,
    Cancelled,
}

// ---------------------------------------------------------------------------
// Messages
// ---------------------------------------------------------------------------

pub open spec fn calendar_error_text(e: CalendarDateError) -> Seq<char> {
    match e {
        CalendarDateError::Year { found } => "year "@ + decimal(found as nat) + " must be between 1 and 9999"@,
        CalendarDateError::Month { found } => "month "@ + decimal(found as nat) + " must be between 1 and 12"@,
        CalendarDateError::Day { found, maximum } => "day "@ + decimal(found as nat) + " must be between 1 and "@
            + decimal(maximum as nat),
    }
}

/// The field-by-field debugging form of refused solver limits.
pub open spec fn solver_input_text(e: InvalidSolverInput) -> Seq<char> {
    match e {
        InvalidSolverInput::VisitedStateLimit { found, maximum } => "VisitedStateLimit { found: "@ + decimal(
            found as nat,
        ) + ", maximum: "@ + decimal(maximum as nat) + " }"@,
        InvalidSolverInput::MemoryLimit { found, maximum } => "MemoryLimit { found: "@ + decimal(found as nat)
            + ", maximum: "@ + decimal(maximum as nat) + " }"@,
        InvalidSolverInput::DepthLimit { found, maximum } => "DepthLimit { found: "@ + decimal(found as nat)
            + ", maximum: "@ + decimal(maximum as nat) + " }"@,
    }
}

pub open spec fn generation_error_text(e: GenerationError) -> Seq<char> {
    match e {
        GenerationError::Puzzle(error) => "invalid generator puzzle policy: "@ + puzzle_error_text(error),
        GenerationError::NeedsFold => "generation requires a fold rule and budget"@,
        GenerationError::NeedsBrush => "generation requires a brush rule and budget"@,
        GenerationError::AttemptLimit { found, maximum } => "generation attempt limit "@ + decimal(found as nat)
            + " must be between 1 and "@ + decimal(maximum as nat),
        GenerationError::SourceActionRange { minimum, maximum } => "source action range "@ + decimal(
            minimum as nat,
        ) + "..="@ + decimal(maximum as nat) + " must start at 2 and remain ordered"@,
        GenerationError::SourceActionsExceedBudget { maximum, budget } => "source action maximum "@ + decimal(
            maximum as nat,
        ) + " exceeds the combined action budget "@ + decimal(budget as nat),
        GenerationError::SolverLimits(error) => "invalid solver limits: "@ + solver_input_text(error),
        GenerationError::UnsupportedCompatibility { found, supported } => "generator compatibility "@ + decimal(
            found as nat,
        ) + " is unsupported; this build accepts "@ + decimal(supported as nat),
        GenerationError::Allocation => "generation could not reserve bounded memory"@,
    }
}

fn push_pair(text: &mut String, prefix: &str, a: u64, middle: &str, b: u64)
    ensures
        final(text)@ == old(text)@ + prefix@ + decimal(a as nat) + middle@ + decimal(b as nat),
{
    text.append(prefix);
    push_decimal(text, a);
    text.append(middle);
    push_decimal(text, b);
}

impl CalendarDateError {
    pub fn message(self) -> (r: String)
        ensures
            r@ == calendar_error_text(self),
    {
        let mut text = String::new();
        match self {
            CalendarDateError::Year { found } => {
                text.append("year ");
                push_decimal(&mut text, found as u64);
                text.append(" must be between 1 and 9999");
            },
            CalendarDateError::Month { found } => {
                text.append("month ");
                push_decimal(&mut text, found as u64);
                text.append(" must be between 1 and 12");
            },
            CalendarDateError::Day { found, maximum } => {
                push_pair(&mut text, "day ", found as u64, " must be between 1 and ", maximum as u64);
            },
        }
        assert(text@ =~= calendar_error_text(self));
        text
    }
}

impl GenerationError {
    pub fn message(&self) -> (r: String)
        ensures
            r@ == generation_error_text(*self),
    {
        let mut text = String::new();
        match self {
            GenerationError::Puzzle(error) => {
                text.append("invalid generator puzzle policy: ");
                let inner = error.message();
                text.append(inner.as_str());
            },
            GenerationError::NeedsFold => text.append("generation requires a fold rule and budget"),
            GenerationError::NeedsBrush => text.append("generation requires a brush rule and budget"),
            GenerationError::AttemptLimit { found, maximum } => push_pair(
                &mut text,
                "generation attempt limit ",
                *found as u64,
                " must be between 1 and ",
                *maximum as u64,
            ),
            GenerationError::SourceActionRange { minimum, maximum } => {
                push_pair(&mut text, "source action range ", *minimum as u64, "..=", *maximum as u64);
                text.append(" must start at 2 and remain ordered");
            },
            GenerationError::SourceActionsExceedBudget { maximum, budget } => push_pair(
                &mut text,
                "source action maximum ",
                *maximum as u64,
                " exceeds the combined action budget ",
                *budget as u64,
            ),
            GenerationError::SolverLimits(error) => {
                text.append("invalid solver limits: ");
                match error {
                    InvalidSolverInput::VisitedStateLimit { found, maximum } => push_pair(
                        &mut text,
                        "VisitedStateLimit { found: ",
                        *found as u64,
                        ", maximum: ",
                        *maximum as u64,
                    ),
                    InvalidSolverInput::MemoryLimit { found, maximum } => push_pair(
                        &mut text,
                        "MemoryLimit { found: ",
                        *found as u64,
                        ", maximum: ",
                        *maximum as u64,
                    ),
                    InvalidSolverInput::DepthLimit { found, maximum } => push_pair(
                        &mut text,
                        "DepthLimit { found: ",
                        *found as u64,
                        ", maximum: ",
                        *maximum as u64,
                    ),
                }
                text.append(" }");
            },
            GenerationError::UnsupportedCompatibility { found, supported } => push_pair(
                &mut text,
                "generator compatibility ",
                *found as u64,
                " is unsupported; this build accepts ",
                *supported as u64,
            ),
            GenerationError::Allocation => text.append("generation could not reserve bounded memory"),
        }
        assert(text@ =~= generation_error_text(*self));
        text
    }
}

} // verus!
