//! Built-in content: the lesson paper, the journey's chapters, and the endless policy.

use vstd::prelude::*;
use vstd::string::StringSliceAdditionalSpecFns;

use crate::domain::attempt::Attempt;
use crate::domain::paper::ink::id_set;
use crate::domain::paper::{
    lemma_coordinate_of_self, ActionCount, BrushRule, CellId, Column, Coordinate, Dimensions, Fold, FoldCount,
    FoldDirection, PaperAction, Row, StrokeCount,
};
use crate::domain::puzzle::{
    built_view, copy_slice, first_repeat, id_error, key_leq, lemma_key_total, puzzle_error, sorted_rules, Puzzle,
    PuzzleIdentity, PuzzleSpec, PuzzleSpecView, PuzzleView, RuleKey,
};
use crate::domain::replay::{lemma_run_same_rules, run, Replay, ReplayMetadata};
use crate::domain::attempt::{fresh_paper, rule_error, ActionError};
use crate::domain::paper::state::{height_at, lemma_fresh_fold_keeps, lemma_fresh_right_fold, PaperModel};
use crate::domain::score::Par;
use crate::generator::{config_error, template_view, GenerationError, Generator, GeneratorConfig, GeneratorConfigView};
use crate::packs::format::{copy_texts, texts, PuzzleContent};
use crate::solver::{limits_error, SolverLimits};

verus! {

// ---------------------------------------------------------------------------
// Built-in papers
// ---------------------------------------------------------------------------

/// A paper that ships with the game, with its texts and its recorded solution.
#[derive(Clone, Debug, PartialEq, Eq)]
pub struct BuiltInPaper {
    puzzle: Puzzle,
    title: String,
    description: String,
    cues: Vec<String>,
    solution: Vec<PaperAction>,
}

impl BuiltInPaper {
    pub closed spec fn puzzle_value(&self) -> Puzzle {
        self.puzzle
    }

    /// The title, the description, and the tutorial cues.
    pub closed spec fn text_view(&self) -> (Seq<char>, Seq<char>, Seq<Seq<char>>) {
        (self.title@, self.description@, texts(self.cues@))
    }

    pub closed spec fn solution_view(&self) -> Seq<PaperAction> {
        self.solution@
    }

    /// Whether the recorded solution fits a replay and, replayed on the paper,
    /// leaves exactly the target inked.
    pub open spec fn solved_by_solution(&self) -> bool {
        let p = self.puzzle_value().view();
        let actions = self.solution_view();
        &&& self.puzzle_value().wf()
        &&& actions.len() <= 64
        &&& run(p, actions, actions.len() as int) matches Ok(m)
        &&& m.state.ink == p.target.cells()
    }

    pub fn puzzle(&self) -> (r: &Puzzle)
        ensures
            *r == self.puzzle_value(),
    {
        &self.puzzle
    }

    pub fn title(&self) -> (r: &str)
        ensures
            r@ == self.text_view().0,
    {
        self.title.as_str()
    }

    pub fn description(&self) -> (r: &str)
        ensures
            r@ == self.text_view().1,
    {
        self.description.as_str()
    }

    pub fn cues(&self) -> (r: &[String])
        ensures
            texts(r@) == self.text_view().2,
    {
        self.cues.as_slice()
    }

    pub fn solution(&self) -> (r: &[PaperAction])
        ensures
            r@ == self.solution_view(),
    {
        self.solution.as_slice()
    }

    /// A built-in paper from validated pack content that carries its solution;
    /// a missing description reads as empty.
    pub fn from_content(content: &PuzzleContent) -> (r: Self)
        requires
            content.solution_value() is Some,
        ensures
            r.puzzle_value().view() == content.puzzle_value().view(),
            r.text_view().0 == content.text_view().0,
            r.text_view().1 == match content.text_view().1 {
                Some(d) => d,
                None => Seq::<char>::empty(),
            },
            r.text_view().2 == content.text_view().2,
            r.solution_view() == content.solution_value()->Some_0.actions_view(),
    {
        let solution = match content.solution() {
            Some(replay) => replay,
            None => vstd::pervasive::unreached(),
        };
        let description = match content.description() {
            Some(d) => d.to_owned(),
            None => String::new(),
        };
        let cues = content.tutorial_cues();
        let mut copied: Vec<String> = Vec::new();
        let mut k: usize = 0;
        while k < cues.len()
            invariant
                k <= cues@.len(),
                copied@.len() == k,
                texts(copied@) == texts(cues@.subrange(0, k as int)),
            decreases cues@.len() - k,
        {
            let ghost before = copied@;
            let cue = cues[k].clone();
            assert(cue@ == cues@[k as int]@);
            copied.push(cue);
            assert(texts(copied@) =~= texts(cues@.subrange(0, k + 1))) by {
                assert(texts(before) == texts(cues@.subrange(0, k as int)));
                assert forall|i: int| 0 <= i < k + 1 implies #[trigger] texts(copied@)[i] == texts(
                    cues@.subrange(0, k + 1),
                )[i] by {
                    if i < k {
                        assert(texts(before)[i] == texts(cues@.subrange(0, k as int))[i]);
                    }
                }
            }
            k = k + 1;
        }
        assert(cues@.subrange(0, cues@.len() as int) =~= cues@);
        BuiltInPaper {
            puzzle: content.puzzle().duplicate(),
            title: content.title().to_owned(),
            description,
            cues: copied,
            solution: copy_slice(solution.actions()),
        }
    }
}

/// The texts of a built-in paper.
struct BuiltInText {
    pack_id: &'static str,
    puzzle_id: &'static str,
    title: &'static str,
    description: &'static str,
    cues: Vec<&'static str>,
}

/// The sheet of a built-in paper before its target is known: four cells a side,
/// the given folds, the dot brush, and the budgets, with no target and no par.
spec fn blank_sheet(content: BuiltInText, folds: Seq<Fold>, budgets: (u8, u8)) -> PuzzleSpecView {
    PuzzleSpecView {
        format_version: 1,
        pack: content.pack_id@,
        puzzle: content.puzzle_id@,
        width: 4,
        height: 4,
        target_cells: Seq::empty(),
        allowed_folds: folds,
        allowed_brushes: seq![BrushRule::Dot],
        fold_budget: budgets.0,
        stroke_budget: budgets.1,
        par: None,
    }
}

/// Whether the actions replay to their end on every puzzle with these rules.
spec fn runs_through(folds: Seq<Fold>, budgets: (u8, u8), actions: Seq<PaperAction>) -> bool {
    forall|t: PuzzleView|
        t.dims == Dimensions::spec_of(4, 4) && t.folds == sorted_rules(folds) && t.brushes == sorted_rules(
            seq![BrushRule::Dot],
        ) && t.fold_budget.value() == budgets.0 && t.stroke_budget.value() == budgets.1
            ==> #[trigger] run(t, actions, actions.len() as int) is Ok
}

/// The target of a built-in paper: the ink that its solution leaves on a sheet
/// with its rules. The paper refuses its own solution exactly when no built-in
/// paper results; valid identifiers, a valid sheet, a solution that fits a
/// replay and runs to its end, and a stroke to spend always give one.
fn folded_paper(
    content: BuiltInText,
    allowed_folds: Vec<Fold>,
    solution: Vec<PaperAction>,
    budgets: (u8, u8),
) -> (r: Option<BuiltInPaper>)
    ensures
        r matches Some(p) ==> {
            let v = p.puzzle_value().view();
            &&& p.solved_by_solution()
            &&& v.pack == content.pack_id@
            &&& v.puzzle == content.puzzle_id@
            &&& v.format_version == 1
            &&& v.dims == Dimensions::spec_of(4, 4)
            &&& v.folds == sorted_rules(allowed_folds@)
            &&& v.brushes == sorted_rules(seq![BrushRule::Dot])
            &&& v.fold_budget.value() == budgets.0
            &&& v.stroke_budget.value() == budgets.1
            &&& v.par matches Some(par) && par.fold_part().value() == budgets.0
                && par.stroke_part().value() == budgets.1
            &&& p.solution_view() == solution@
            &&& p.text_view().0 == content.title@
            &&& p.text_view().1 == content.description@
            &&& p.text_view().2 == content.cues@.map_values(|c: &str| c@)
        },
        ({
            &&& id_error(content.pack_id.spec_bytes()) is None
            &&& id_error(content.puzzle_id.spec_bytes()) is None
            &&& puzzle_error(blank_sheet(content, allowed_folds@, budgets)) is None
            &&& solution@.len() <= 64
            &&& budgets.1 > 0
            &&& runs_through(allowed_folds@, budgets, solution@)
        }) ==> r is Some,
{
    let (fold_budget, stroke_budget) = budgets;
    let ghost sheet = blank_sheet(content, allowed_folds@, budgets);
    let ghost accepts = {
        &&& id_error(content.pack_id.spec_bytes()) is None
        &&& id_error(content.puzzle_id.spec_bytes()) is None
        &&& puzzle_error(sheet) is None
        &&& solution@.len() <= 64
        &&& budgets.1 > 0
        &&& runs_through(allowed_folds@, budgets, solution@)
    };
    let identity = match PuzzleIdentity::new(content.pack_id, content.puzzle_id) {
        Ok(identity) => identity,
        Err(_) => return None,
    };
    let sheet_brushes = vec![BrushRule::Dot];
    assert(sheet_brushes@ =~= seq![BrushRule::Dot]);
    let template_spec = PuzzleSpec::new(identity.duplicate(), 4, 4)
        .with_allowed_folds(crate::domain::puzzle::copy_vec(&allowed_folds))
        .with_allowed_brushes(sheet_brushes)
        .with_budgets(fold_budget, stroke_budget);
    assert(template_spec.view() == sheet);
    let template = match Puzzle::new(template_spec) {
        Ok(template) => template,
        Err(_) => return None,
    };
    let source = match Replay::new(ReplayMetadata::current(&template), crate::domain::puzzle::copy_vec(&solution)) {
        Ok(source) => source,
        Err(_) => return None,
    };
    proof {
        if accepts {
            assert(run(template.view(), solution@, solution@.len() as int) is Ok);
        }
    }
    let attempt = match source.execute(&template) {
        Ok(attempt) => attempt,
        Err(_) => return None,
    };
    let ink = attempt.ink();
    proof {
        attempt.lemma_wf();
    }
    ink.lemma_id_seq();
    let target = ink.cell_ids();
    let folds_par = match FoldCount::new(fold_budget) {
        Ok(count) => count,
        Err(_) => return None,
    };
    let strokes_par = match StrokeCount::new(stroke_budget) {
        Ok(count) => count,
        Err(_) => return None,
    };
    let par = Par::new(folds_par, strokes_par);
    let brushes = vec![BrushRule::Dot];
    assert(brushes@ =~= seq![BrushRule::Dot]);
    let puzzle_spec = PuzzleSpec::new(identity, 4, 4)
        .with_target_cells(target)
        .with_allowed_folds(allowed_folds)
        .with_allowed_brushes(brushes)
        .with_budgets(fold_budget, stroke_budget)
        .with_par(par);
    proof {
        assert(puzzle_spec.view() == (PuzzleSpecView { target_cells: target@, par: Some(par), ..sheet }));
        if accepts {
            crate::domain::puzzle::lemma_retarget(sheet, target@, Some(par));
        }
    }
    let puzzle = match Puzzle::new(puzzle_spec) {
        Ok(puzzle) => puzzle,
        Err(_) => return None,
    };
    let replay = match Replay::new(ReplayMetadata::current(&puzzle), crate::domain::puzzle::copy_vec(&solution)) {
        Ok(replay) => replay,
        Err(_) => return None,
    };
    proof {
        FoldCount::lemma_spec_of(fold_budget);
        StrokeCount::lemma_spec_of(stroke_budget);
        assert(FoldCount::spec_of(template.view().fold_budget.value()) == FoldCount::spec_of(
            puzzle.view().fold_budget.value(),
        ));
        assert(StrokeCount::spec_of(template.view().stroke_budget.value()) == StrokeCount::spec_of(
            puzzle.view().stroke_budget.value(),
        ));
        lemma_run_same_rules(template.view(), puzzle.view(), solution@, solution@.len() as int);
    }
    let checked = match replay.execute(&puzzle) {
        Ok(checked) => checked,
        Err(_) => return None,
    };
    if !checked.result().is_success() {
        return None;
    }
    let mut cues: Vec<String> = Vec::new();
    let mut k: usize = 0;
    while k < content.cues.len()
        invariant
            k <= content.cues@.len(),
            cues@.len() == k,
            texts(cues@) == content.cues@.subrange(0, k as int).map_values(|c: &str| c@),
        decreases content.cues@.len() - k,
    {
        let ghost before = cues@;
        let cue = content.cues[k].to_owned();
        assert(cue@ == content.cues@[k as int]@);
        cues.push(cue);
        assert(texts(cues@) =~= content.cues@.subrange(0, k + 1).map_values(|c: &str| c@)) by {
            assert forall|i: int| 0 <= i < k + 1 implies #[trigger] texts(cues@)[i] == content.cues@.subrange(
                0,
                k + 1,
            ).map_values(|c: &str| c@)[i] by {
                if i < k {
                    assert(texts(before)[i] == content.cues@.subrange(0, k as int).map_values(|c: &str| c@)[i]);
                }
            }
        }
        k = k + 1;
    }
    assert(content.cues@.subrange(0, content.cues@.len() as int) =~= content.cues@);
    Some(BuiltInPaper {
        puzzle,
        title: content.title.to_owned(),
        description: content.description.to_owned(),
        cues,
        solution,
    })
}

fn coordinate(row: u8, column: u8) -> (r: Coordinate)
    requires
        row < 12,
        column < 12,
    ensures
        r.r() == row,
        r.c() == column,
{
    let row = match Row::new(row) {
        Ok(row) => row,
        Err(_) => vstd::pervasive::unreached(),
    };
    let column = match Column::new(column) {
        Ok(column) => column,
        Err(_) => vstd::pervasive::unreached(),
    };
    Coordinate::new(row, column)
}

/// The lesson's identifiers are portable.
proof fn lemma_lesson_ids_valid(pack: &str, puzzle: &str)
    requires
        pack@ == "orifude-lesson"@,
        puzzle@ == "one-fold"@,
    ensures
        id_error(pack.spec_bytes()) is None,
        id_error(puzzle.spec_bytes()) is None,
{
    reveal_strlit("orifude-lesson");
    reveal_strlit("one-fold");
    vstd::string::is_ascii_spec_bytes(pack);
    vstd::string::is_ascii_spec_bytes(puzzle);
    assert(vstd::string::is_ascii(pack));
    assert(vstd::string::is_ascii(puzzle));
    let b = pack.spec_bytes();
    assert(b.len() == 14);
    assert forall|k: int| 0 <= k < b.len() implies !#[trigger] crate::domain::puzzle::id_byte_bad(b, k) by {
        assert(b[k] == pack@[k] as u8);
    }
    let c = puzzle.spec_bytes();
    assert(c.len() == 8);
    assert forall|k: int| 0 <= k < c.len() implies !#[trigger] crate::domain::puzzle::id_byte_bad(c, k) by {
        assert(c[k] == puzzle@[k] as u8);
    }
}

/// A sheet with the one right half-fold, the dot brush, and one fold and one
/// stroke to spend passes every check of a puzzle.
proof fn lemma_lesson_sheet_valid(content: BuiltInText, fold: Fold)
    requires
        fold.dir() == FoldDirection::Right,
        fold.cr() == 2,
    ensures
        puzzle_error(blank_sheet(content, seq![fold], (1, 1))) is None,
{
    let v = blank_sheet(content, seq![fold], (1, 1));
    Dimensions::lemma_spec_of(4, 4);
    let d = Dimensions::spec_of(4, 4);
    let folds = seq![fold];
    let brushes = seq![BrushRule::Dot];
    lemma_sorted_already(folds);
    lemma_sorted_already(brushes);
    assert(!exists|i: int| #[trigger] first_repeat(folds, i));
    assert(!exists|i: int| #[trigger] crate::domain::puzzle::first_bad_crease(d, folds, i));
    assert(!exists|i: int| #[trigger] first_repeat(brushes, i));
    assert(!exists|i: int| #[trigger] crate::domain::puzzle::first_bad_brush(d, brushes, i));
    assert(!exists|k: int| #[trigger] crate::domain::puzzle::first_target_bad(v.target_cells, d.cells_len(), k));
}

/// Folding the left half across and then dotting row one, column two runs to
/// its end on every puzzle with the lesson's rules.
proof fn lemma_lesson_runs(fold: Fold, dot: Coordinate)
    requires
        fold.dir() == FoldDirection::Right,
        fold.cr() == 2,
        dot.r() == 1,
        dot.c() == 2,
    ensures
        runs_through(seq![fold], (1, 1), seq![PaperAction::Fold(fold), PaperAction::Dot(dot)]),
{
    let actions = seq![PaperAction::Fold(fold), PaperAction::Dot(dot)];
    Dimensions::lemma_spec_of(4, 4);
    let d = Dimensions::spec_of(4, 4);
    ActionCount::lemma_spec_of(64);
    lemma_sorted_already(seq![fold]);
    lemma_sorted_already(seq![BrushRule::Dot]);
    assert forall|t: PuzzleView|
        t.dims == Dimensions::spec_of(4, 4) && t.folds == sorted_rules(seq![fold]) && t.brushes == sorted_rules(
            seq![BrushRule::Dot],
        ) && t.fold_budget.value() == 1 && t.stroke_budget.value() == 1 implies #[trigger] run(
        t,
        actions,
        actions.len() as int,
    ) is Ok by {
        let m0 = fresh_paper(t);
        assert(run(t, actions, 0) == Ok::<PaperModel, (int, ActionError)>(m0));
        assert(t.folds[0] == fold);
        assert(t.folds.contains(fold));
        assert(rule_error(t, actions[0]) is None);
        lemma_fresh_right_fold(m0, fold);
        let m1 = m0.fold_step(fold)->Ok_0;
        assert(run(t, actions, 1) == Ok::<PaperModel, (int, ActionError)>(m1));
        assert(t.brushes[0] == BrushRule::Dot);
        assert(t.brushes.contains(BrushRule::Dot));
        assert(rule_error(t, actions[1]) is None);
        lemma_coordinate_of_self(dot);
        assert(6int / 4 == 1 && 6int % 4 == 2);
        assert(d.cells_len() == 16);
        lemma_fresh_fold_keeps(d, fold, 6);
        assert(height_at(m1.state.cells, dot) > 0);
        assert(m1.dot_step(dot) is Ok);
    }
}

/// The first paper a new player meets: fold the left half across, then let one
/// dot pass through both layers.
pub fn lesson() -> (r: Option<BuiltInPaper>)
    ensures
        r is Some,
        r matches Some(p) ==> {
            let v = p.puzzle_value().view();
            let s = p.solution_view();
            &&& p.solved_by_solution()
            &&& v.pack == "orifude-lesson"@
            &&& v.puzzle == "one-fold"@
            &&& v.dims == Dimensions::spec_of(4, 4)
            &&& v.folds == seq![Fold::spec_of(FoldDirection::Right, 2)]
            &&& v.brushes == seq![BrushRule::Dot]
            &&& v.fold_budget.value() == 1
            &&& v.stroke_budget.value() == 1
            &&& v.par matches Some(par) && par.fold_part().value() == 1 && par.stroke_part().value() == 1
            &&& s.len() == 2
            &&& s[0] == PaperAction::Fold(Fold::spec_of(FoldDirection::Right, 2))
            &&& s[1] matches PaperAction::Dot(c) && c.r() == 1 && c.c() == 2
            &&& p.text_view().0 == "One fold, one mark"@
        },
{
    let fold = Fold::new(FoldDirection::Right, 2);
    let text = BuiltInText {
        pack_id: "orifude-lesson",
        puzzle_id: "one-fold",
        title: "One fold, one mark",
        description: "Fold the left half across, then let one dot pass through both layers.",
        cues: vec![
            "Fold ready. + marks the moving side; Enter folds.",
            "Dot brush ready. Move @ to row 2, col 3; Enter inks.",
            "Target matched. Enter opens and checks the paper.",
        ],
    };
    let folds = vec![fold];
    let dot = coordinate(1, 2);
    let solution = vec![PaperAction::Fold(fold), PaperAction::Dot(dot)];
    proof {
        lemma_sorted_already(folds@);
        lemma_sorted_already(seq![BrushRule::Dot]);
        lemma_lesson_ids_valid(text.pack_id, text.puzzle_id);
        assert(folds@ =~= seq![fold]);
        assert(solution@ =~= seq![PaperAction::Fold(fold), PaperAction::Dot(dot)]);
        lemma_lesson_sheet_valid(text, fold);
        lemma_lesson_runs(fold, dot);
    }
    folded_paper(text, folds, solution, (1, 1))
}

// ---------------------------------------------------------------------------
// The endless generation policy
// ---------------------------------------------------------------------------

/// The four half-folds of a square sheet of four cells a side, in rule order.
pub open spec fn endless_folds() -> Seq<Fold> {
    seq![
        Fold::spec_of(FoldDirection::Left, 2),
        Fold::spec_of(FoldDirection::Right, 2),
        Fold::spec_of(FoldDirection::Up, 2),
        Fold::spec_of(FoldDirection::Down, 2),
    ]
}

/// The policy behind endless play for a pack: a four-by-four sheet, the four
/// half-folds and the dot brush, two folds and one stroke, two or three source
/// actions, and at most 64 candidates per seed.
pub open spec fn endless_policy(pack: Seq<char>) -> GeneratorConfigView {
    GeneratorConfigView {
        pack,
        template: "generated-template"@,
        width: 4,
        height: 4,
        folds: endless_folds(),
        brushes: seq![BrushRule::Dot],
        fold_budget: 2,
        stroke_budget: 1,
        minimum_source_actions: 2,
        maximum_source_actions: 3,
        maximum_attempts: 64,
        solver_limits: SolverLimits::spec_default(),
    }
}

/// Rules already in ascending key order are their own sorted order.
proof fn lemma_sorted_already<T: RuleKey>(s: Seq<T>)
    requires
        forall|i: int, j: int| 0 <= i < j < s.len() ==> s[i].key() < s[j].key(),
    ensures
        sorted_rules(s) == s,
{
    lemma_key_total::<T>();
    s.lemma_sort_by_ensures(key_leq::<T>());
    assert(vstd::relations::sorted_by(s, key_leq::<T>()));
    vstd::seq_lib::lemma_sorted_unique(s.sort_by(key_leq::<T>()), s, key_leq::<T>());
}

/// The endless policy passes every check that a generator makes of a policy.
proof fn lemma_endless_policy_valid(pack: Seq<char>)
    requires
        endless_folds()[0].dir() == FoldDirection::Left && endless_folds()[0].cr() == 2,
        endless_folds()[1].dir() == FoldDirection::Right && endless_folds()[1].cr() == 2,
        endless_folds()[2].dir() == FoldDirection::Up && endless_folds()[2].cr() == 2,
        endless_folds()[3].dir() == FoldDirection::Down && endless_folds()[3].cr() == 2,
    ensures
        config_error(endless_policy(pack)) is None,
        limits_error(endless_policy(pack).solver_limits) is None,
        puzzle_error(template_view(endless_policy(pack))) is None,
{
    let v = endless_policy(pack);
    let t = template_view(v);
    let folds = endless_folds();
    let brushes = seq![BrushRule::Dot];
    crate::solver::lemma_default_limits_valid();
    Dimensions::lemma_spec_of(4, 4);
    let d = Dimensions::spec_of(4, 4);
    assert(forall|i: int, j: int| 0 <= i < j < folds.len() ==> folds[i].key() < folds[j].key());
    lemma_sorted_already(folds);
    lemma_sorted_already(brushes);
    assert(!exists|i: int| #[trigger] first_repeat(folds, i));
    assert(!exists|i: int| #[trigger] crate::domain::puzzle::first_bad_crease(d, folds, i)) by {
        assert forall|i: int| 0 <= i < folds.len() implies !crate::domain::puzzle::crease_bad(d, #[trigger] folds[i]) by {
        }
    }
    assert(!exists|i: int| #[trigger] first_repeat(brushes, i));
    assert(!exists|i: int| #[trigger] crate::domain::puzzle::first_bad_brush(d, brushes, i));
    assert(!exists|k: int| #[trigger] crate::domain::puzzle::first_target_bad(t.target_cells, d.cells_len(), k));
}

/// The generator of endless play for a pack.
pub fn generator(pack_id: &str) -> (r: Result<Generator, GenerationError>)
    ensures
        id_error(pack_id.spec_bytes()) is Some ==> r == Err::<Generator, GenerationError>(GenerationError::Puzzle(
            crate::domain::puzzle::PuzzleError::InvalidIdentity {
                part: crate::domain::puzzle::IdentityPart::Pack,
                reason: id_error(pack_id.spec_bytes())->Some_0,
            },
        )),
        r matches Ok(g) ==> g.wf() && g.config_view() == endless_policy(pack_id@),
        r matches Err(e) ==> id_error(pack_id.spec_bytes()) is Some || e == GenerationError::Allocation,
{
    let folds = vec![
        Fold::new(FoldDirection::Left, 2),
        Fold::new(FoldDirection::Right, 2),
        Fold::new(FoldDirection::Up, 2),
        Fold::new(FoldDirection::Down, 2),
    ];
    assert(folds@ =~= endless_folds());
    let brushes = vec![BrushRule::Dot];
    assert(brushes@ =~= seq![BrushRule::Dot]);
    let config = GeneratorConfig::new(pack_id, 4, 4)?;
    let config = config.with_rules(folds, brushes)?;
    let config = config.with_budgets(2, 1).with_source_action_range(2, 3).with_attempt_limit(64);
    proof {
        assert(config.view() == endless_policy(pack_id@));
        lemma_endless_policy_valid(pack_id@);
    }
    Generator::new(config)
}

// ---------------------------------------------------------------------------
// The journey's chapters
// ---------------------------------------------------------------------------

/// What a player receives on finishing a chapter of the journey.
#[derive(Clone, Copy, Debug, PartialEq, Eq)]
pub enum BranchGift {
    Leaf,
    PairedLeaves,
    Berries,
    PaperBoat,
    Bird,
    LongBranch,
    BerrySprig,
    Canopy,
}

pub open spec fn gift_label(gift: BranchGift) -> Seq<char> {
    match gift {
        BranchGift::Leaf => "a first leaf"@,
        BranchGift::PairedLeaves => "a pair of leaves"@,
        BranchGift::Berries => "a berry cluster"@,
        BranchGift::PaperBoat => "a folded boat"@,
        BranchGift::Bird => "a small bird"@,
        BranchGift::LongBranch => "a longer branch"@,
        BranchGift::BerrySprig => "a berry sprig"@,
        BranchGift::Canopy => "the full canopy"@,
    }
}

impl BranchGift {
    pub fn label(self) -> (r: &'static str)
        ensures
            r@ == gift_label(self),
    {
        match self {
            BranchGift::Leaf => "a first leaf",
            BranchGift::PairedLeaves => "a pair of leaves",
            BranchGift::Berries => "a berry cluster",
            BranchGift::PaperBoat => "a folded boat",
            BranchGift::Bird => "a small bird",
            BranchGift::LongBranch => "a longer branch",
            BranchGift::BerrySprig => "a berry sprig",
            BranchGift::Canopy => "the full canopy",
        }
    }
}

/// One chapter of the journey: a run of consecutive papers that teaches one mechanic.
#[derive(Clone, Copy, Debug, PartialEq, Eq)]
pub struct JourneyGroup {
    pub title: &'static str,
    pub mechanic: &'static str,
    pub first_paper: usize,
    pub paper_count: usize,
    pub gift: BranchGift,
}

/// The number of chapters and the number of papers in each.
pub const JOURNEY_GROUP_COUNT: usize = 8;
pub const JOURNEY_GROUP_SIZE: usize = 5;

/// The gift of each chapter, in journey order.
pub open spec fn group_gift(index: int) -> BranchGift {
    if index == 0 {
        BranchGift::Leaf
    } else if index == 1 {
        BranchGift::PairedLeaves
    } else if index == 2 {
        BranchGift::Berries
    } else if index == 3 {
        BranchGift::PaperBoat
    } else if index == 4 {
        BranchGift::Bird
    } else if index == 5 {
        BranchGift::LongBranch
    } else if index == 6 {
        BranchGift::BerrySprig
    } else {
        BranchGift::Canopy
    }
}

/// The title of each chapter, in journey order.
pub open spec fn group_title(index: int) -> Seq<char> {
    if index == 0 {
        "Ink on paper"@
    } else if index == 1 {
        "Across the crease"@
    } else if index == 2 {
        "Gathered layers"@
    } else if index == 3 {
        "Uneven edges"@
    } else if index == 4 {
        "Fold order"@
    } else if index == 5 {
        "The long brush"@
    } else if index == 6 {
        "Mixed brushwork"@
    } else {
        "Under the canopy"@
    }
}

/// Whether a chapter list is the journey's: eight chapters of five papers each,
/// one after another from the first paper, with their titles and gifts in order.
pub open spec fn is_journey(groups: Seq<JourneyGroup>) -> bool {
    &&& groups.len() == 8
    &&& forall|i: int|
        0 <= i < 8 ==> {
            &&& (#[trigger] groups[i]).first_paper == 5 * i
            &&& groups[i].paper_count == 5
            &&& groups[i].gift == group_gift(i)
            &&& groups[i].title@ == group_title(i)
        }
}

fn group(
    title: &'static str,
    mechanic: &'static str,
    first_paper: usize,
    gift: BranchGift,
) -> (r: JourneyGroup)
    ensures
        r == (JourneyGroup { title, mechanic, first_paper, paper_count: 5, gift }),
{
    JourneyGroup { title, mechanic, first_paper, paper_count: JOURNEY_GROUP_SIZE, gift }
}

/// The chapters of the journey in order.
pub fn journey_groups() -> (r: Vec<JourneyGroup>)
    ensures
        is_journey(r@),
{
    let r = vec![
        group("Ink on paper", "Place two marks on flat paper, then let one crease carry ink farther.", 0, BranchGift::Leaf),
        group("Across the crease", "Choose the moving side and let one mark reach two layers.", 5, BranchGift::PairedLeaves),
        group("Gathered layers", "Use two axes and read stacks gathered into a quarter.", 10, BranchGift::Berries),
        group("Uneven edges", "Use off-center creases and folds that leave empty positions.", 15, BranchGift::PaperBoat),
        group("Fold order", "Make later creases possible by choosing the earlier fold first.", 20, BranchGift::Bird),
        group("The long brush", "Draw horizontal and vertical lines across occupied stacks.", 25, BranchGift::LongBranch),
        group("Mixed brushwork", "Combine dots, lines, folds, and a limited stroke budget.", 30, BranchGift::BerrySprig),
        group("Under the canopy", "Read a larger target and combine every earlier rule.", 35, BranchGift::Canopy),
    ];
    proof {
        assert forall|i: int| 0 <= i < 8 implies (#[trigger] r@[i]).title@ == group_title(i) by {
            if i == 0 { reveal_strlit("Ink on paper"); }
            else if i == 1 { reveal_strlit("Across the crease"); }
            else if i == 2 { reveal_strlit("Gathered layers"); }
            else if i == 3 { reveal_strlit("Uneven edges"); }
            else if i == 4 { reveal_strlit("Fold order"); }
            else if i == 5 { reveal_strlit("The long brush"); }
            else if i == 6 { reveal_strlit("Mixed brushwork"); }
            else { reveal_strlit("Under the canopy"); }
        }
    }
    r
}

/// The chapter of a journey paper and its index, or `None` past the journey's end.
pub fn journey_group(paper_index: usize) -> (r: Option<(usize, JourneyGroup)>)
    ensures
        paper_index < 40 ==> (r matches Some((i, g)) && i == paper_index / 5 && g.first_paper == 5 * i
            && g.paper_count == 5 && g.gift == group_gift(i as int) && g.title@ == group_title(i as int)),
        paper_index >= 40 ==> r is None,
{
    let groups = journey_groups();
    let mut i: usize = 0;
    while i < groups.len()
        invariant
            is_journey(groups@),
            i <= 8,
            forall|k: int| 0 <= k < i ==> !(#[trigger] groups@[k].first_paper <= paper_index < groups@[k].first_paper + 5),
        decreases 8 - i,
    {
        let g = groups[i];
        if paper_index >= g.first_paper && paper_index < g.first_paper.saturating_add(g.paper_count) {
            return Some((i, g));
        }
        i = i + 1;
    }
    proof {
        if paper_index < 40 {
            let k = paper_index as int / 5;
            assert(groups@[k].first_paper <= paper_index < groups@[k].first_paper + 5);
        }
    }
    None
}

/// The journey's chapters cover its papers exactly: each paper before the end of
/// the journey lies in exactly one chapter, and none lies past it.
pub proof fn lemma_journey_partition(groups: Seq<JourneyGroup>, paper: int)
    requires
        is_journey(groups),
        0 <= paper,
    ensures
        paper < 40 <==> exists|i: int|
            0 <= i < 8 && #[trigger] groups[i].first_paper <= paper < groups[i].first_paper + groups[i].paper_count,
        forall|i: int, j: int|
            0 <= i < 8 && 0 <= j < 8 && #[trigger] groups[i].first_paper <= paper < groups[i].first_paper
                + groups[i].paper_count && #[trigger] groups[j].first_paper <= paper < groups[j].first_paper
                + groups[j].paper_count ==> i == j,
        groups[7].first_paper + groups[7].paper_count == 40,
{
    if paper < 40 {
        let k = paper / 5;
        assert(groups[k].first_paper <= paper < groups[k].first_paper + groups[k].paper_count);
    }
}

} // verus!
