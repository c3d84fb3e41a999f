//! Saved replay documents: a puzzle's gameplay definition with one solution.

use vstd::prelude::*;
use vstd::string::StringSliceAdditionalSpecFns;
use vstd::utf8::{encode_utf8, valid_utf8};

use crate::domain::paper::{BrushRule, CellId, Dimensions, Fold, FoldCount, PaperAction, StrokeCount};
use crate::domain::puzzle::{
    as_built, built_view, copy_slice, copy_vec, id_error, own_spec, puzzle_error, Puzzle, PuzzleIdentity, PuzzleSpec,
    PuzzleSpecView, PuzzleView,
};
use crate::domain::replay::{lemma_run_same_rules, run, Replay, ReplayMetadata};
use crate::domain::score::Par;
use crate::packs::format::{
    convert_action, par_of, par_valid, solves_exactly, utf8_text, ActionDocument, FoldDocument, ParDocument,
};

verus! {

pub const CURRENT_REPLAY_FORMAT_VERSION: u16 = 1;
pub const MAX_REPLAY_BYTES: usize = 65536;

/// The gameplay definition a replay was recorded against.
pub struct GameplayDocument {
    pub puzzle_format_version: u16,
    pub pack_id: String,
    pub puzzle_id: String,
    pub width: u8,
    pub height: u8,
    pub target: Vec<(u8, u8)>,
    pub folds: Vec<FoldDocument>,
    pub brushes: Vec<BrushRule>,
    pub fold_budget: u8,
    pub stroke_budget: u8,
    pub par: Option<ParDocument>,
}

pub enum ReplayActionDocument {
    Fold { direction: crate::domain::paper::FoldDirection, crease: u8 },
    Dot { row: u8, column: u8 },
    Line { start: (u8, u8), end: (u8, u8) },
}

/// The fields of a saved replay.
pub struct ReplayDocument {
    pub replay_format_version: u16,
    pub engine_compatibility_version: u16,
    pub puzzle: GameplayDocument,
    pub actions: Vec<ReplayActionDocument>,
}

/// A decoded replay with the puzzle it solves.
pub struct DecodedReplay {
    puzzle: Puzzle,
    replay: Replay,
}

impl DecodedReplay {
    pub closed spec fn puzzle_value(&self) -> Puzzle {
        self.puzzle
    }

    pub closed spec fn replay_value(&self) -> Replay {
        self.replay
    }

    pub fn puzzle(&self) -> (r: &Puzzle)
        ensures
            *r == self.puzzle_value(),
    {
        &self.puzzle
    }

    pub fn replay(&self) -> (r: &Replay)
        ensures
            *r == self.replay_value(),
    {
        &self.replay
    }
}

/// A replay document could not be read back.
#[derive(Clone, Copy, Debug, PartialEq, Eq)]
pub struct ReplayDocumentError;

pub open spec fn action_document(a: ReplayActionDocument) -> ActionDocument {
    match a {
        ReplayActionDocument::Fold { direction, crease } => ActionDocument::Fold { direction, crease },
        ReplayActionDocument::Dot { row, column } => ActionDocument::Dot { row, column },
        ReplayActionDocument::Line { start, end } => ActionDocument::Line {
            start_row: start.0,
            start_column: start.1,
            end_row: end.0,
            end_column: end.1,
        },
    }
}

/// The first `k` saved actions, if each lies on a `width` by `height` paper.
pub open spec fn replay_actions(width: u8, height: u8, s: Seq<ReplayActionDocument>, k: int) -> Option<
    Seq<PaperAction>,
>
    decreases k,
{
    if k <= 0 {
        Some(Seq::empty())
    } else {
        match (replay_actions(width, height, s, k - 1), convert_action(width, height, action_document(s[k - 1]))) {
            (Some(p), Some(a)) => Some(p.push(a)),
            _ => None,
        }
    }
}

pub open spec fn targets_inside(g: GameplayDocument) -> bool {
    forall|i: int| 0 <= i < g.target@.len() ==> #[trigger] g.target@[i].0 < g.height && g.target@[i].1 < g.width
}

pub open spec fn target_ids(g: GameplayDocument) -> Seq<CellId> {
    g.target@.map_values(|t: (u8, u8)| CellId::spec_of((t.0 * g.width + t.1) as u8))
}

pub open spec fn gameplay_par(g: GameplayDocument) -> Option<Par> {
    match g.par {
        Some(p) => Some(par_of(p)),
        None => None,
    }
}

/// The puzzle specification a saved gameplay definition describes.
pub open spec fn gameplay_spec(g: GameplayDocument) -> PuzzleSpecView {
    PuzzleSpecView {
        format_version: g.puzzle_format_version,
        pack: g.pack_id@,
        puzzle: g.puzzle_id@,
        width: g.width,
        height: g.height,
        target_cells: target_ids(g),
        allowed_folds: g.folds@.map_values(|f: FoldDocument| Fold::spec_of(f.direction, f.crease)),
        allowed_brushes: g.brushes@,
        fold_budget: g.fold_budget,
        stroke_budget: g.stroke_budget,
        par: gameplay_par(g),
    }
}

/// The puzzle a saved gameplay definition builds; all such puzzles play alike.
pub open spec fn gameplay_puzzle(g: GameplayDocument) -> PuzzleView {
    choose|p: PuzzleView| built_view(p, gameplay_spec(g))
}

/// Whether a saved replay document reads back: its versions are current, its
/// puzzle is valid, and its actions solve that puzzle exactly.
pub open spec fn replay_document_valid(doc: ReplayDocument) -> bool {
    let g = doc.puzzle;
    &&& doc.replay_format_version == 1
    &&& doc.engine_compatibility_version == 1
    &&& id_error(encode_utf8(g.pack_id@)) is None
    &&& id_error(encode_utf8(g.puzzle_id@)) is None
    &&& 4 <= g.width <= 12 && 4 <= g.height <= 12
    &&& targets_inside(g)
    &&& (g.par matches Some(p) ==> par_valid(p))
    &&& puzzle_error(gameplay_spec(g)) is None
    &&& replay_actions(g.width, g.height, doc.actions@, doc.actions@.len() as int) matches Some(actions)
    &&& actions.len() <= 64
    &&& run(gameplay_puzzle(g), actions, actions.len() as int) matches Ok(m)
    &&& m.state.ink == gameplay_puzzle(g).target.cells()
}

/// Checks the size and encoding of saved replay bytes before they are parsed.
pub fn replay_text(bytes: &[u8]) -> (r: Result<&str, ReplayDocumentError>)
    ensures
        r is Ok <==> (bytes@.len() <= MAX_REPLAY_BYTES && valid_utf8(bytes@)),
        r matches Ok(text) ==> text.spec_bytes() == bytes@,
{
    if bytes.len() > MAX_REPLAY_BYTES {
        return Err(ReplayDocumentError);
    }
    match utf8_text(bytes) {
        Some(text) => Ok(text),
        None => Err(ReplayDocumentError),
    }
}

/// Checks the size of encoded replay bytes before they are stored.
pub fn check_replay_size(length: usize) -> (r: Result<(), ReplayDocumentError>)
    ensures
        r is Ok <==> length <= MAX_REPLAY_BYTES,
{
    if length > MAX_REPLAY_BYTES {
        return Err(ReplayDocumentError);
    }
    Ok(())
}

fn gameplay_targets(g: &GameplayDocument, dimensions: Dimensions) -> (r: Option<Vec<CellId>>)
    requires
        dimensions.wf(),
        dimensions.w() == g.width,
        dimensions.h() == g.height,
    ensures
        r is Some <==> targets_inside(*g),
        r matches Some(ids) ==> ids@ == target_ids(*g),
{
    let mut ids: Vec<CellId> = Vec::new();
    let mut i: usize = 0;
    while i < g.target.len()
        invariant
            dimensions.wf(),
            dimensions.w() == g.width,
            dimensions.h() == g.height,
            i <= g.target@.len(),
            forall|j: int| 0 <= j < i ==> #[trigger] g.target@[j].0 < g.height && g.target@[j].1 < g.width,
            ids@ == target_ids(*g).subrange(0, i as int),
        decreases g.target@.len() - i,
    {
        let (row, column) = g.target[i];
        let coordinate = match dimensions.coordinate(row, column) {
            Ok(coordinate) => coordinate,
            Err(_) => {
                return None;
            },
        };
        let id = match dimensions.cell_id(coordinate) {
            Ok(id) => id,
            Err(_) => {
                return None;
            },
        };
        proof {
            dimensions.lemma_wf();
            assert(row * g.width + column < 144) by (nonlinear_arith)
                requires
                    row < 12,
                    column < 12,
                    g.width <= 12,
            ;
            CellId::lemma_spec_of((row * g.width + column) as u8);
            CellId::lemma_eq(id, CellId::spec_of((row * g.width + column) as u8));
        }
        ids.push(id);
        assert(ids@ =~= target_ids(*g).subrange(0, i + 1));
        i = i + 1;
    }
    assert(target_ids(*g).subrange(0, g.target@.len() as int) =~= target_ids(*g));
    Some(ids)
}

fn gameplay_folds(g: &GameplayDocument) -> (r: Vec<Fold>)
    ensures
        r@ == gameplay_spec(*g).allowed_folds,
{
    let ghost want = gameplay_spec(*g).allowed_folds;
    let mut folds: Vec<Fold> = Vec::new();
    let mut k: usize = 0;
    while k < g.folds.len()
        invariant
            want == gameplay_spec(*g).allowed_folds,
            k <= g.folds@.len(),
            folds@ == want.subrange(0, k as int),
        decreases g.folds@.len() - k,
    {
        folds.push(Fold::new(g.folds[k].direction, g.folds[k].crease));
        assert(folds@ =~= want.subrange(0, k + 1));
        k = k + 1;
    }
    assert(want.subrange(0, g.folds@.len() as int) =~= want);
    folds
}

fn saved_action(dimensions: Dimensions, a: &ReplayActionDocument) -> (r: Option<PaperAction>)
    requires
        dimensions.wf(),
    ensures
        r == convert_action(dimensions.w() as u8, dimensions.h() as u8, action_document(*a)),
{
    let document = match a {
        ReplayActionDocument::Fold { direction, crease } => ActionDocument::Fold {
            direction: *direction,
            crease: *crease,
        },
        ReplayActionDocument::Dot { row, column } => ActionDocument::Dot { row: *row, column: *column },
        ReplayActionDocument::Line { start, end } => ActionDocument::Line {
            start_row: start.0,
            start_column: start.1,
            end_row: end.0,
            end_column: end.1,
        },
    };
    crate::packs::format::convert_action_at(dimensions, &document)
}

/// Rebuilds a saved puzzle and replay, and checks that the replay still solves it.
pub fn replay_from_document(doc: &ReplayDocument) -> (r: Result<DecodedReplay, ReplayDocumentError>)
    ensures
        r is Ok <==> replay_document_valid(*doc),
        r matches Ok(d) ==> {
            &&& d.puzzle_value().wf()
            &&& built_view(d.puzzle_value().view(), gameplay_spec(doc.puzzle))
            &&& replay_actions(doc.puzzle.width, doc.puzzle.height, doc.actions@, doc.actions@.len() as int) == Some(
                d.replay_value().actions_view(),
            )
            &&& solves_exactly(&d.puzzle_value(), d.replay_value())
        },
{
    let ghost g = doc.puzzle;
    let ghost chosen = gameplay_puzzle(g);
    if doc.replay_format_version != CURRENT_REPLAY_FORMAT_VERSION || doc.engine_compatibility_version
        != crate::domain::replay::ENGINE_COMPATIBILITY_VERSION {
        return Err(ReplayDocumentError);
    }
    let gameplay = &doc.puzzle;
    let identity = match PuzzleIdentity::new(gameplay.pack_id.as_str(), gameplay.puzzle_id.as_str()) {
        Ok(identity) => identity,
        Err(_) => {
            return Err(ReplayDocumentError);
        },
    };
    let dimensions = match Dimensions::new(gameplay.width, gameplay.height) {
        Ok(dimensions) => dimensions,
        Err(_) => {
            return Err(ReplayDocumentError);
        },
    };
    let target = match gameplay_targets(gameplay, dimensions) {
        Some(target) => target,
        None => {
            return Err(ReplayDocumentError);
        },
    };
    let folds = gameplay_folds(gameplay);
    let brushes = copy_vec(&gameplay.brushes);
    let mut spec = PuzzleSpec::new(identity, gameplay.width, gameplay.height)
        .with_format_version(gameplay.puzzle_format_version)
        .with_target_cells(target)
        .with_allowed_folds(folds)
        .with_allowed_brushes(brushes)
        .with_budgets(gameplay.fold_budget, gameplay.stroke_budget);
    match &gameplay.par {
        Some(par) => {
            let folds = match FoldCount::new(par.folds) {
                Ok(folds) => folds,
                Err(_) => {
                    return Err(ReplayDocumentError);
                },
            };
            let strokes = match StrokeCount::new(par.strokes) {
                Ok(strokes) => strokes,
                Err(_) => {
                    return Err(ReplayDocumentError);
                },
            };
            proof {
                FoldCount::lemma_spec_of(par.folds);
                StrokeCount::lemma_spec_of(par.strokes);
            }
            spec = spec.with_par(Par::new(folds, strokes));
        },
        None => {},
    }
    assert(spec.view() == gameplay_spec(g));
    let puzzle = match Puzzle::new(spec) {
        Ok(puzzle) => puzzle,
        Err(_) => {
            return Err(ReplayDocumentError);
        },
    };
    let ghost pv = puzzle.view();
    proof {
        assert(built_view(pv, gameplay_spec(g)));
        assert(built_view(chosen, gameplay_spec(g)));
        FoldCount::lemma_spec_of(0);
        StrokeCount::lemma_spec_of(0);
        assert(FoldCount::spec_of(pv.fold_budget.value()) == pv.fold_budget);
        assert(FoldCount::spec_of(chosen.fold_budget.value()) == chosen.fold_budget);
        assert(StrokeCount::spec_of(pv.stroke_budget.value()) == pv.stroke_budget);
        assert(StrokeCount::spec_of(chosen.stroke_budget.value()) == chosen.stroke_budget);
        Dimensions::lemma_spec_of(g.width, g.height);
    }
    let mut actions: Vec<PaperAction> = Vec::new();
    let mut k: usize = 0;
    while k < doc.actions.len()
        invariant
            g == doc.puzzle,
            dimensions.wf(),
            dimensions.w() == g.width,
            dimensions.h() == g.height,
            k <= doc.actions@.len(),
            replay_actions(g.width, g.height, doc.actions@, k as int) == Some(actions@),
        decreases doc.actions@.len() - k,
    {
        match saved_action(dimensions, &doc.actions[k]) {
            Some(action) => {
                actions.push(action);
            },
            None => {
                proof {
                    lemma_replay_actions_fail(g.width, g.height, doc.actions@, k as int + 1, doc.actions@.len() as int);
                }
                return Err(ReplayDocumentError);
            },
        }
        k = k + 1;
    }
    let metadata = ReplayMetadata::new(
        puzzle.identity().duplicate(),
        puzzle.revision(),
        puzzle.format_version(),
        doc.engine_compatibility_version,
    );
    let replay = match Replay::new(metadata, actions) {
        Ok(replay) => replay,
        Err(_) => {
            return Err(ReplayDocumentError);
        },
    };
    proof {
        lemma_run_same_rules(pv, chosen, replay.actions_view(), replay.actions_view().len() as int);
    }
    let attempt = match replay.execute(&puzzle) {
        Ok(attempt) => attempt,
        Err(_) => {
            return Err(ReplayDocumentError);
        },
    };
    if !attempt.result().is_success() {
        return Err(ReplayDocumentError);
    }
    Ok(DecodedReplay { puzzle, replay })
}

proof fn lemma_replay_actions_fail(width: u8, height: u8, s: Seq<ReplayActionDocument>, k: int, n: int)
    requires
        1 <= k <= n,
        replay_actions(width, height, s, k) is None,
    ensures
        replay_actions(width, height, s, n) is None,
    decreases n - k,
{
    if k < n {
        lemma_replay_actions_fail(width, height, s, k + 1, n);
    }
}

pub open spec fn document_fold_pairs(s: Seq<FoldDocument>) -> Seq<(crate::domain::paper::FoldDirection, u8)> {
    s.map_values(|f: FoldDocument| (f.direction, f.crease))
}

pub open spec fn fold_pairs(s: Seq<Fold>) -> Seq<(crate::domain::paper::FoldDirection, u8)> {
    s.map_values(|f: Fold| (f.dir(), f.cr()))
}

/// How a saved replay records an action.
pub open spec fn saved_action_document(a: PaperAction) -> ReplayActionDocument {
    match a {
        PaperAction::Fold(f) => ReplayActionDocument::Fold { direction: f.dir(), crease: f.cr() },
        PaperAction::Dot(c) => ReplayActionDocument::Dot { row: c.r() as u8, column: c.c() as u8 },
        PaperAction::Line(l) => ReplayActionDocument::Line {
            start: (l.start_value().r() as u8, l.start_value().c() as u8),
            end: (l.end_value().r() as u8, l.end_value().c() as u8),
        },
    }
}

/// The row and column of each target cell, in identity order.
pub open spec fn saved_target(p: PuzzleView) -> Seq<(u8, u8)> {
    p.target.id_seq().map_values(
        |id: CellId| ((id.value() as int / p.dims.w()) as u8, (id.value() as int % p.dims.w()) as u8),
    )
}

pub open spec fn saved_par(par: Option<Par>) -> Option<(u8, u8)> {
    match par {
        Some(p) => Some((p.fold_part().value(), p.stroke_part().value())),
        None => None,
    }
}

/// The document a puzzle and one of its replays are saved as.
pub open spec fn saved_document(p: PuzzleView, replay: Replay, doc: ReplayDocument) -> bool {
    let g = doc.puzzle;
    &&& doc.replay_format_version == 1
    &&& doc.engine_compatibility_version == replay.metadata_view().engine_view()
    &&& g.puzzle_format_version == p.format_version
    &&& g.pack_id@ == p.pack
    &&& g.puzzle_id@ == p.puzzle
    &&& g.width == p.dims.w()
    &&& g.height == p.dims.h()
    &&& g.target@ == saved_target(p)
    &&& document_fold_pairs(g.folds@) == fold_pairs(p.folds)
    &&& g.brushes@ == p.brushes
    &&& g.fold_budget == p.fold_budget.value()
    &&& g.stroke_budget == p.stroke_budget.value()
    &&& match g.par {
        Some(d) => saved_par(p.par) == Some((d.folds, d.strokes)),
        None => p.par is None,
    }
    &&& doc.actions@ == replay.actions_view().map_values(|a: PaperAction| saved_action_document(a))
}

/// Records a puzzle's gameplay definition and a replay as a document.
pub fn replay_document(puzzle: &Puzzle, replay: &Replay) -> (r: ReplayDocument)
    requires
        puzzle.wf(),
    ensures
        saved_document(puzzle.view(), *replay, r),
{
    let ghost p = puzzle.view();
    let dimensions = puzzle.dimensions();
    proof {
        dimensions.lemma_wf();
    }
    let pattern = puzzle.target();
    pattern.lemma_bounded();
    let ids = pattern.cell_ids();
    let mut target: Vec<(u8, u8)> = Vec::new();
    let mut i: usize = 0;
    while i < ids.len()
        invariant
            p == puzzle.view(),
            dimensions == p.dims,
            dimensions.wf(),
            ids@ == p.target.id_seq(),
            forall|j: int| 0 <= j < ids@.len() ==> p.target.cells().contains(#[trigger] ids@[j].value() as int),
            p.target.dims() == p.dims,
            p.target.cells().subset_of(vstd::set_lib::set_int_range(0, p.dims.cells_len())),
            i <= ids@.len(),
            target@ == saved_target(p).subrange(0, i as int),
        decreases ids@.len() - i,
    {
        let id = ids[i];
        let coordinate = match dimensions.original_coordinate(id) {
            Ok(coordinate) => coordinate,
            Err(_) => {
                proof {
                    assert(p.target.cells().contains(id.value() as int));
                }
                vstd::pervasive::unreached()
            },
        };
        proof {
            let w = p.dims.w();
            let v = id.value() as int;
            assert(v == coordinate.r() * w + coordinate.c());
            assert(0 <= coordinate.c() < w);
            vstd::arithmetic::div_mod::lemma_fundamental_div_mod_converse(v, w, coordinate.r(), coordinate.c());
        }
        target.push((coordinate.row().get(), coordinate.column().get()));
        assert(target@ =~= saved_target(p).subrange(0, i + 1));
        i = i + 1;
    }
    assert(saved_target(p).subrange(0, ids@.len() as int) =~= saved_target(p));
    let allowed = puzzle.allowed_folds();
    let mut folds: Vec<FoldDocument> = Vec::new();
    let mut k: usize = 0;
    while k < allowed.len()
        invariant
            allowed@ == p.folds,
            k <= allowed@.len(),
            folds@.len() == k,
            document_fold_pairs(folds@) == fold_pairs(p.folds).subrange(0, k as int),
        decreases allowed@.len() - k,
    {
        let ghost before = folds@;
        let item = FoldDocument { direction: allowed[k].direction(), crease: allowed[k].crease() };
        folds.push(item);
        assert(folds@ == before.push(item));
        assert forall|j: int| 0 <= j < k + 1 implies #[trigger] document_fold_pairs(folds@)[j] == fold_pairs(
            p.folds,
        ).subrange(0, k + 1)[j] by {
            if j < k {
                assert(document_fold_pairs(before)[j] == fold_pairs(p.folds).subrange(0, k as int)[j]);
            }
        }
        assert(document_fold_pairs(folds@) =~= fold_pairs(p.folds).subrange(0, k + 1));
        k = k + 1;
    }
    assert(fold_pairs(p.folds).subrange(0, allowed@.len() as int) =~= fold_pairs(p.folds));
    let par = match puzzle.par() {
        Some(par) => Some(ParDocument { folds: par.folds().get(), strokes: par.strokes().get() }),
        None => None,
    };
    let saved = replay.actions();
    let mut actions: Vec<ReplayActionDocument> = Vec::new();
    let mut k: usize = 0;
    while k < saved.len()
        invariant
            k <= saved@.len(),
            actions@ == saved@.map_values(|a: PaperAction| saved_action_document(a)).subrange(0, k as int),
        decreases saved@.len() - k,
    {
        let action = match saved[k] {
            PaperAction::Fold(f) => ReplayActionDocument::Fold { direction: f.direction(), crease: f.crease() },
            PaperAction::Dot(c) => ReplayActionDocument::Dot { row: c.row().get(), column: c.column().get() },
            PaperAction::Line(l) => ReplayActionDocument::Line {
                start: (l.start().row().get(), l.start().column().get()),
                end: (l.end().row().get(), l.end().column().get()),
            },
        };
        actions.push(action);
        assert(actions@ =~= saved@.map_values(|a: PaperAction| saved_action_document(a)).subrange(0, k + 1));
        k = k + 1;
    }
    assert(saved@.map_values(|a: PaperAction| saved_action_document(a)).subrange(0, saved@.len() as int)
        =~= saved@.map_values(|a: PaperAction| saved_action_document(a)));
    let identity = puzzle.identity();
    ReplayDocument {
        replay_format_version: CURRENT_REPLAY_FORMAT_VERSION,
        engine_compatibility_version: replay.metadata().engine_compatibility_version(),
        puzzle: GameplayDocument {
            puzzle_format_version: puzzle.format_version(),
            pack_id: identity.pack_id().to_owned(),
            puzzle_id: identity.puzzle_id().to_owned(),
            width: dimensions.width().get(),
            height: dimensions.height().get(),
            target,
            folds,
            brushes: copy_slice(puzzle.allowed_brushes()),
            fold_budget: puzzle.fold_budget().get(),
            stroke_budget: puzzle.stroke_budget().get(),
            par,
        },
        actions,
    }
}

} // verus!

verus! {

// ---------------------------------------------------------------------------
// Saved replays read back
// ---------------------------------------------------------------------------

/// Whether an action lies on a paper of the given size.
pub open spec fn action_inside(d: Dimensions, a: PaperAction) -> bool {
    match a {
        PaperAction::Fold(_) => true,
        PaperAction::Dot(c) => d.contains(c),
        PaperAction::Line(l) => d.contains(l.start_value()) && d.contains(l.end_value()),
    }
}

/// Whether every line of a replay has its endpoints in row-major order, as
/// lines are built.
pub open spec fn lines_canonical(actions: Seq<PaperAction>) -> bool {
    forall|i: int|
        0 <= i < actions.len() ==> (#[trigger] actions[i] matches PaperAction::Line(l) ==> crate::domain::paper::coordinate_le(
            l.start_value(),
            l.end_value(),
        ))
}

/// Every action of a successful replay lies on the paper.
proof fn lemma_run_inside(p: PuzzleView, actions: Seq<PaperAction>, n: int)
    requires
        0 <= n,
        run(p, actions, n) is Ok,
    ensures
        forall|i: int| 0 <= i < n ==> action_inside(p.dims, #[trigger] actions[i]),
    decreases n,
{
    if n > 0 {
        crate::domain::replay::lemma_run_prefix_ok(p, actions, n, n - 1);
        lemma_run_inside(p, actions, n - 1);
        crate::domain::replay::lemma_run_history(p, actions, n - 1);
        assert(action_inside(p.dims, actions[n - 1]));
    }
}

/// A saved action reads back as itself.
proof fn lemma_saved_action(d: Dimensions, a: PaperAction)
    requires
        d.wf(),
        action_inside(d, a),
        a matches PaperAction::Line(l) ==> crate::domain::paper::coordinate_le(l.start_value(), l.end_value()),
    ensures
        convert_action(d.w() as u8, d.h() as u8, action_document(saved_action_document(a))) == Some(a),
{
    match a {
        PaperAction::Fold(f) => {
            Fold::lemma_spec_of(f.dir(), f.cr());
        },
        PaperAction::Dot(c) => {
            crate::domain::paper::lemma_coordinate_of_self(c);
        },
        PaperAction::Line(l) => {
            crate::domain::paper::lemma_coordinate_of_self(l.start_value());
            crate::domain::paper::lemma_coordinate_of_self(l.end_value());
            crate::domain::paper::LineStroke::lemma_spec_of(l.start_value(), l.end_value());
        },
    }
}

/// Saved actions read back as the actions, prefix by prefix.
proof fn lemma_saved_actions(d: Dimensions, actions: Seq<PaperAction>, saved: Seq<ReplayActionDocument>, k: int)
    requires
        d.wf(),
        0 <= k <= actions.len(),
        saved == actions.map_values(|a: PaperAction| saved_action_document(a)),
        forall|i: int| 0 <= i < actions.len() ==> action_inside(d, #[trigger] actions[i]),
        lines_canonical(actions),
    ensures
        replay_actions(d.w() as u8, d.h() as u8, saved, k) == Some(actions.subrange(0, k)),
    decreases k,
{
    if k == 0 {
        assert(actions.subrange(0, 0) =~= Seq::<PaperAction>::empty());
    } else {
        lemma_saved_actions(d, actions, saved, k - 1);
        let a = actions[k - 1];
        assert(action_inside(d, a));
        assert(a matches PaperAction::Line(l) ==> crate::domain::paper::coordinate_le(l.start_value(), l.end_value()));
        lemma_saved_action(d, a);
        assert(saved[k - 1] == saved_action_document(a));
        assert(actions.subrange(0, k - 1).push(a) =~= actions.subrange(0, k));
    }
}

/// A bad target entry means there is a first one.
proof fn lemma_first_target_bad(ids: Seq<CellId>, n: int, j: int)
    requires
        crate::domain::puzzle::target_bad(ids, n, j),
    ensures
        exists|k: int| #[trigger] crate::domain::puzzle::first_target_bad(ids, n, k),
    decreases j,
{
    if exists|i: int| 0 <= i < j && #[trigger] crate::domain::puzzle::target_bad(ids, n, i) {
        let i = choose|i: int| 0 <= i < j && #[trigger] crate::domain::puzzle::target_bad(ids, n, i);
        lemma_first_target_bad(ids, n, i);
    } else {
        assert(crate::domain::puzzle::first_target_bad(ids, n, j));
    }
}

/// The saved target, read back, is the target in identity order.
proof fn lemma_saved_target(p: PuzzleView, g: GameplayDocument)
    requires
        p.dims.wf(),
        g.width == p.dims.w(),
        g.target@ == saved_target(p),
        forall|j: int| 0 <= j < p.target.id_seq().len() ==> (#[trigger] p.target.id_seq()[j].value() as int)
            < p.dims.cells_len(),
    ensures
        target_ids(g) == p.target.id_seq(),
        targets_inside(g) <== g.height == p.dims.h(),
{
    let ids = p.target.id_seq();
    let w = p.dims.w();
    let h = p.dims.h();
    assert forall|j: int| 0 <= j < ids.len() implies #[trigger] target_ids(g)[j] == ids[j] && (g.height == h ==> (
    g.target@[j].0 < g.height && g.target@[j].1 < g.width)) by {
        let v = ids[j].value() as int;
        assert(0 <= v < w * h);
        vstd::arithmetic::div_mod::lemma_fundamental_div_mod(v, w);
        vstd::arithmetic::div_mod::lemma_div_pos_is_pos(v, w);
        vstd::arithmetic::div_mod::lemma_mod_bound(v, w);
        assert(v / w < h) by (nonlinear_arith)
            requires
                0 <= v < w * h,
                0 < w,
        {
        }
        assert(v / w < 12);
        assert(g.target@[j] == ((v / w) as u8, (v % w) as u8));
        assert((v / w) * w + v % w == v) by {
            vstd::arithmetic::mul::lemma_mul_is_commutative(w, v / w);
        }
        CellId::lemma_spec_of(v as u8);
        CellId::lemma_eq(CellId::spec_of(v as u8), ids[j]);
    }
    assert(target_ids(g) =~= ids);
}

/// A saved replay reads back: the document that a puzzle and a replay that
/// solves it exactly are saved as is a valid replay document; it describes the
/// same puzzle, so decoding builds that puzzle again; and its actions read back
/// as the replay's actions. Every puzzle is as built (`Puzzle::lemma_as_built`),
/// and every line that `LineStroke::new` makes has its endpoints in order.
pub proof fn lemma_saved_replay_reads_back(puzzle: Puzzle, replay: Replay, doc: ReplayDocument)
    requires
        puzzle.wf(),
        as_built(puzzle.view()),
        replay.actions_view().len() <= 64,
        lines_canonical(replay.actions_view()),
        solves_exactly(&puzzle, replay),
        saved_document(puzzle.view(), replay, doc),
    ensures
        replay_document_valid(doc),
        gameplay_spec(doc.puzzle) == own_spec(puzzle.view()),
        replay_actions(doc.puzzle.width, doc.puzzle.height, doc.actions@, doc.actions@.len() as int) == Some(
            replay.actions_view(),
        ),
{
    let p = puzzle.view();
    let g = doc.puzzle;
    let actions = replay.actions_view();
    let d = p.dims;
    let own = own_spec(p);
    Dimensions::lemma_spec_of(own.width, own.height);
    FoldCount::lemma_spec_of(p.fold_budget.value());
    StrokeCount::lemma_spec_of(p.stroke_budget.value());
    Par::lemma_spec_of(FoldCount::spec_of(0), StrokeCount::spec_of(0));
    Fold::lemma_spec_of(crate::domain::paper::FoldDirection::Left, 0);
    // The target of the document.
    assert(crate::domain::puzzle::target_error(d, p.target.id_seq()) is None);
    assert forall|j: int| 0 <= j < p.target.id_seq().len() implies (#[trigger] p.target.id_seq()[j].value() as int)
        < d.cells_len() by {
        if (p.target.id_seq()[j].value() as int) >= d.cells_len() {
            lemma_first_target_bad(p.target.id_seq(), d.cells_len(), j);
        }
    }
    lemma_saved_target(p, g);
    // The rules of the document.
    assert(g.folds@.map_values(|f: FoldDocument| Fold::spec_of(f.direction, f.crease)) =~= p.folds) by {
        assert(document_fold_pairs(g.folds@).len() == fold_pairs(p.folds).len());
        assert(g.folds@.len() == p.folds.len());
        assert forall|i: int| 0 <= i < p.folds.len() implies g.folds@.map_values(
            |f: FoldDocument| Fold::spec_of(f.direction, f.crease),
        )[i] == #[trigger] p.folds[i] by {
            assert(document_fold_pairs(g.folds@)[i] == fold_pairs(p.folds)[i]);
            assert(Fold::spec_of(p.folds[i].dir(), p.folds[i].cr()) == p.folds[i]);
        }
    }
    assert(gameplay_par(g) == p.par);
    assert(gameplay_spec(g) =~= own);
    // The actions of the document.
    lemma_run_inside(p, actions, actions.len() as int);
    lemma_saved_actions(d, actions, doc.actions@, actions.len() as int);
    assert(actions.subrange(0, actions.len() as int) =~= actions);
    // The puzzle the document builds plays as this one.
    let q = gameplay_puzzle(g);
    assert(built_view(p, gameplay_spec(g)));
    assert(built_view(q, gameplay_spec(g)));
    lemma_run_same_rules(q, p, actions, actions.len() as int);
}

} // verus!
