//! Bounded deterministic action replays.

use vstd::prelude::*;

use crate::domain::attempt::{attempt_step, fresh_paper, history_actions, replays_to, ActionError, Attempt};
use crate::domain::paper::state::PaperModel;
use crate::domain::paper::{coordinate_le, LineStroke, PaperAction, MAX_ACTIONS};
use crate::domain::puzzle::{copy_vec, revision_of, Puzzle, PuzzleIdentity, PuzzleRevision, PuzzleView};

verus! {

pub const ENGINE_COMPATIBILITY_VERSION: u16 = 1;

/// The paper after the first `n` actions, or the index and error of the first that fails.
pub open spec fn run(p: PuzzleView, actions: Seq<PaperAction>, n: int) -> Result<PaperModel, (int, ActionError)>
    decreases n,
{
    if n <= 0 {
        Ok(fresh_paper(p))
    } else {
        match run(p, actions, n - 1) {
            Err(x) => Err(x),
            Ok(m) => match attempt_step(p, m, actions[n - 1]) {
                Ok(next) => Ok(next),
                Err(e) => Err((n - 1, e)),
            },
        }
    }
}

/// An action with its line, if it draws one, written start first.
pub open spec fn in_order(a: PaperAction) -> PaperAction {
    match a {
        PaperAction::Line(l) => if coordinate_le(l.start_value(), l.end_value()) {
            a
        } else {
            PaperAction::Line(LineStroke::spec_of(l.end_value(), l.start_value()))
        },
        _ => a,
    }
}

/// Two papers that agree in everything but the actions their histories record.
pub open spec fn same_paper(a: PaperModel, b: PaperModel) -> bool {
    &&& a.dims == b.dims
    &&& a.fold_limit == b.fold_limit
    &&& a.stroke_limit == b.stroke_limit
    &&& a.action_limit == b.action_limit
    &&& a.state == b.state
}

/// A line drawn end first inks the same cells as the line drawn start first,
/// and every other step depends on the paper, not on its history.
proof fn lemma_step_in_order(p: PuzzleView, m1: PaperModel, m2: PaperModel, a: PaperAction)
    requires
        same_paper(m1, m2),
    ensures
        attempt_step(p, m1, a) is Ok <==> attempt_step(p, m2, in_order(a)) is Ok,
        attempt_step(p, m1, a) is Ok ==> same_paper(
            attempt_step(p, m1, a)->Ok_0,
            attempt_step(p, m2, in_order(a))->Ok_0,
        ),
{
    match a {
        PaperAction::Line(l) => {
            let r = LineStroke::spec_of(l.end_value(), l.start_value());
            LineStroke::lemma_spec_of(l.end_value(), l.start_value());
            if !coordinate_le(l.start_value(), l.end_value()) {
                assert(r.spec_axis_and_length() is Ok <==> l.spec_axis_and_length() is Ok);
                if l.spec_axis_and_length() is Ok {
                    assert(r.spec_axis_and_length() == l.spec_axis_and_length());
                    assert forall|o: int| #![trigger r.at(o)] #![trigger l.at(o)] r.at(o) == l.at(o) by {}
                    let length = l.spec_axis_and_length()->Ok_0.1 as int;
                    let cells = m1.state.cells;
                    assert forall|j: int|
                        #[trigger] crate::domain::paper::state::line_ids(cells, r, length).contains(j)
                            == crate::domain::paper::state::line_ids(cells, l, length).contains(j) by {
                        if crate::domain::paper::state::line_ids(cells, r, length).contains(j) {
                            let o = choose|o: int| 0 <= o < length && #[trigger] r.at(o) == cells[j].at();
                            assert(l.at(o) == cells[j].at());
                        }
                        if crate::domain::paper::state::line_ids(cells, l, length).contains(j) {
                            let o = choose|o: int| 0 <= o < length && #[trigger] l.at(o) == cells[j].at();
                            assert(r.at(o) == cells[j].at());
                        }
                    }
                    assert(crate::domain::paper::state::line_ids(cells, r, length) =~= crate::domain::paper::state::line_ids(
                        cells,
                        l,
                        length,
                    ));
                    assert forall|o: int|
                        #[trigger] crate::domain::paper::state::first_empty_offset(cells, r, length, o)
                            == crate::domain::paper::state::first_empty_offset(cells, l, length, o) by {
                        assert(r.at(o) == l.at(o));
                        if forall|k: int| 0 <= k < o ==> crate::domain::paper::state::height_at(cells, #[trigger] r.at(k)) > 0 {
                            assert forall|k: int| 0 <= k < o implies crate::domain::paper::state::height_at(cells, #[trigger] l.at(k)) > 0 by {
                                assert(r.at(k) == l.at(k));
                            }
                        }
                        if forall|k: int| 0 <= k < o ==> crate::domain::paper::state::height_at(cells, #[trigger] l.at(k)) > 0 {
                            assert forall|k: int| 0 <= k < o implies crate::domain::paper::state::height_at(cells, #[trigger] r.at(k)) > 0 by {
                                assert(r.at(k) == l.at(k));
                            }
                        }
                    }
                    if exists|o: int| #[trigger] crate::domain::paper::state::first_empty_offset(cells, r, length, o) {
                        let o = choose|o: int| #[trigger] crate::domain::paper::state::first_empty_offset(cells, r, length, o);
                        assert(crate::domain::paper::state::first_empty_offset(cells, l, length, o));
                    }
                    if exists|o: int| #[trigger] crate::domain::paper::state::first_empty_offset(cells, l, length, o) {
                        let o = choose|o: int| #[trigger] crate::domain::paper::state::first_empty_offset(cells, l, length, o);
                        assert(crate::domain::paper::state::first_empty_offset(cells, r, length, o)
                            == crate::domain::paper::state::first_empty_offset(cells, l, length, o));
                    }
                    assert(m1.state == m2.state);
                    assert(m1.line_step(l) is Ok <==> m2.line_step(r) is Ok);
                    assert(crate::domain::attempt::rule_error(p, PaperAction::Line(l)) == crate::domain::attempt::rule_error(
                        p,
                        PaperAction::Line(r),
                    ));
                }
            }
        },
        _ => {},
    }
}

/// Writing every line start first changes neither whether a run succeeds nor
/// the paper it reaches, apart from the actions its history records.
pub proof fn lemma_run_in_order(p: PuzzleView, actions: Seq<PaperAction>, n: int)
    requires
        0 <= n <= actions.len(),
    ensures
        run(p, actions, n) is Ok <==> run(p, actions.map_values(|a: PaperAction| in_order(a)), n) is Ok,
        run(p, actions, n) is Ok ==> same_paper(
            run(p, actions, n)->Ok_0,
            run(p, actions.map_values(|a: PaperAction| in_order(a)), n)->Ok_0,
        ),
    decreases n,
{
    if n > 0 {
        lemma_run_in_order(p, actions, n - 1);
        let ordered = actions.map_values(|a: PaperAction| in_order(a));
        if run(p, actions, n - 1) is Ok {
            assert(ordered[n - 1] == in_order(actions[n - 1]));
            lemma_step_in_order(p, run(p, actions, n - 1)->Ok_0, run(p, ordered, n - 1)->Ok_0, actions[n - 1]);
        }
    }
}

/// What binds a replay to one exact puzzle revision and engine.
#[derive(Clone, Debug, PartialEq, Eq, Hash)]
pub struct ReplayMetadata {
    puzzle: PuzzleIdentity,
    puzzle_revision: PuzzleRevision,
    puzzle_format_version: u16,
    engine_compatibility_version: u16,
}

impl ReplayMetadata {
    pub closed spec fn identity_view(&self) -> (Seq<char>, Seq<char>) {
        (self.puzzle.pack_view(), self.puzzle.puzzle_view())
    }

    pub closed spec fn revision_view(&self) -> PuzzleRevision {
        self.puzzle_revision
    }

    pub closed spec fn format_view(&self) -> u16 {
        self.puzzle_format_version
    }

    pub closed spec fn engine_view(&self) -> u16 {
        self.engine_compatibility_version
    }

    pub fn new(
        puzzle: PuzzleIdentity,
        puzzle_revision: PuzzleRevision,
        puzzle_format_version: u16,
        engine_compatibility_version: u16,
    ) -> (r: Self)
        ensures
            r.identity_view() == (puzzle.pack_view(), puzzle.puzzle_view()),
            r.revision_view() == puzzle_revision,
            r.format_view() == puzzle_format_version,
            r.engine_view() == engine_compatibility_version,
    {
        ReplayMetadata { puzzle, puzzle_revision, puzzle_format_version, engine_compatibility_version }
    }

    /// The metadata that binds a replay to this build and this puzzle.
    pub fn current(puzzle: &Puzzle) -> (r: Self)
        ensures
            r.identity_view() == (puzzle.view().pack, puzzle.view().puzzle),
            r.revision_view().view() == puzzle.revision_view(),
            r.format_view() == puzzle.view().format_version,
            r.engine_view() == 1,
    {
        ReplayMetadata::new(
            puzzle.identity().duplicate(),
            puzzle.revision(),
            puzzle.format_version(),
            ENGINE_COMPATIBILITY_VERSION,
        )
    }

    pub fn puzzle(&self) -> (r: &PuzzleIdentity)
        ensures
            (r.pack_view(), r.puzzle_view()) == self.identity_view(),
    {
        &self.puzzle
    }

    pub fn puzzle_revision(&self) -> (r: &PuzzleRevision)
        ensures
            *r == self.revision_view(),
    {
        &self.puzzle_revision
    }

    pub fn puzzle_format_version(&self) -> (r: u16)
        ensures
            r == self.format_view(),
    {
        self.puzzle_format_version
    }

    pub fn engine_compatibility_version(&self) -> (r: u16)
        ensures
            r == self.engine_view(),
    {
        self.engine_compatibility_version
    }

    /// A copy of this metadata.
    pub fn duplicate(&self) -> (r: Self)
        ensures
            r.identity_view() == self.identity_view(),
            r.revision_view().view() == self.revision_view().view(),
            r.format_view() == self.format_view(),
            r.engine_view() == self.engine_view(),
    {
        ReplayMetadata {
            puzzle: self.puzzle.duplicate(),
            puzzle_revision: self.puzzle_revision.duplicate(),
            puzzle_format_version: self.puzzle_format_version,
            engine_compatibility_version: self.engine_compatibility_version,
        }
    }
}

/// Why a replay cannot run against a puzzle, if it cannot.
pub open spec fn compatibility_error(m: ReplayMetadata, p: PuzzleView, revision: (
    crate::domain::paper::Dimensions,
    crate::domain::paper::InkPattern,
    Seq<crate::domain::paper::Fold>,
    Seq<crate::domain::paper::BrushRule>,
    crate::domain::paper::FoldCount,
    crate::domain::paper::StrokeCount,
    Option<crate::domain::score::Par>,
)) -> Option<ReplayError> {
    if m.engine_view() != 1 {
        Some(ReplayError::IncompatibleEngine { found: m.engine_view(), supported: 1 })
    } else if m.format_view() != p.format_version {
        Some(ReplayError::IncompatiblePuzzleFormat { found: m.format_view(), expected: p.format_version })
    } else if m.identity_view() != (p.pack, p.puzzle) {
        Some(ReplayError::PuzzleIdentityMismatch)
    } else if m.revision_view().view() != revision {
        Some(ReplayError::PuzzleRevisionMismatch)
    } else {
        None
    }
}

/// A bounded sequence of actions bound to one puzzle revision.
#[derive(Clone, Debug, PartialEq, Eq)]
pub struct Replay {
    metadata: ReplayMetadata,
    actions: Vec<PaperAction>,
}

impl Replay {
    pub closed spec fn metadata_view(&self) -> ReplayMetadata {
        self.metadata
    }

    pub closed spec fn actions_view(&self) -> Seq<PaperAction> {
        self.actions@
    }

    /// Constructs a replay after enforcing its action-count bound.
    pub fn new(metadata: ReplayMetadata, actions: Vec<PaperAction>) -> (r: Result<Self, ReplayError>)
        ensures
            r is Ok <==> actions@.len() <= 64,
            r matches Ok(replay) ==> replay.metadata_view() == metadata && replay.actions_view() == actions@,
            r matches Err(e) ==> e == (ReplayError::TooManyActions { count: actions@.len() as usize, limit: 64 }),
    {
        if actions.len() > MAX_ACTIONS as usize {
            return Err(ReplayError::TooManyActions { count: actions.len(), limit: MAX_ACTIONS });
        }
        Ok(Replay { metadata, actions })
    }

    /// The replay of an attempt's successful actions.
    pub fn from_attempt(attempt: &Attempt) -> (r: Self)
        requires
            attempt.wf(),
        ensures
            r.metadata_view().identity_view() == (attempt.puzzle_view().pack, attempt.puzzle_view().puzzle),
            r.metadata_view().revision_view().view() == revision_of(attempt.puzzle_view()),
            r.metadata_view().format_view() == attempt.puzzle_view().format_version,
            r.metadata_view().engine_view() == 1,
            r.actions_view() == history_actions(attempt.paper_model()),
            run(attempt.puzzle_view(), r.actions_view(), r.actions_view().len() as int) == Ok::<
                PaperModel,
                (int, ActionError),
            >(attempt.paper_model()),
    {
        let actions = attempt.actions();
        assert(actions@ =~= attempt.paper_model().history.map_values(|e: (crate::domain::paper::state::PaperState, PaperAction)| e.1));
        proof {
            attempt.lemma_replays();
        }
        Replay { metadata: ReplayMetadata::current(attempt.puzzle()), actions }
    }

    pub fn metadata(&self) -> (r: &ReplayMetadata)
        ensures
            *r == self.metadata_view(),
    {
        &self.metadata
    }

    pub fn actions(&self) -> (r: &[PaperAction])
        ensures
            r@ == self.actions_view(),
    {
        self.actions.as_slice()
    }

    /// A copy of this replay.
    pub fn duplicate(&self) -> (r: Self)
        ensures
            r.metadata_view().identity_view() == self.metadata_view().identity_view(),
            r.metadata_view().revision_view().view() == self.metadata_view().revision_view().view(),
            r.metadata_view().format_view() == self.metadata_view().format_view(),
            r.metadata_view().engine_view() == self.metadata_view().engine_view(),
            r.actions_view() == self.actions_view(),
    {
        Replay { metadata: self.metadata.duplicate(), actions: copy_vec(&self.actions) }
    }

    fn validate_for(&self, puzzle: &Puzzle) -> (r: Result<(), ReplayError>)
        ensures
            r is Ok <==> compatibility_error(self.metadata_view(), puzzle.view(), puzzle.revision_view()) is None,
            r matches Err(e) ==> compatibility_error(self.metadata_view(), puzzle.view(), puzzle.revision_view())
                == Some(e),
    {
        if self.metadata.engine_compatibility_version != ENGINE_COMPATIBILITY_VERSION {
            return Err(ReplayError::IncompatibleEngine {
                found: self.metadata.engine_compatibility_version,
                supported: ENGINE_COMPATIBILITY_VERSION,
            });
        }
        if self.metadata.puzzle_format_version != puzzle.format_version() {
            return Err(ReplayError::IncompatiblePuzzleFormat {
                found: self.metadata.puzzle_format_version,
                expected: puzzle.format_version(),
            });
        }
        if !self.metadata.puzzle.same(puzzle.identity()) {
            return Err(ReplayError::PuzzleIdentityMismatch);
        }
        if !self.metadata.puzzle_revision.matches(puzzle) {
            return Err(ReplayError::PuzzleRevisionMismatch);
        }
        Ok(())
    }

    /// Validates compatibility, then executes into a fresh isolated attempt.
    pub fn execute(&self, puzzle: &Puzzle) -> (r: Result<Attempt, ReplayError>)
        requires
            puzzle.wf(),
        ensures
            compatibility_error(self.metadata_view(), puzzle.view(), puzzle.revision_view()) matches Some(e) ==> r
                == Err::<Attempt, ReplayError>(e),
            compatibility_error(self.metadata_view(), puzzle.view(), puzzle.revision_view()) is None ==> match run(
                puzzle.view(),
                self.actions_view(),
                self.actions_view().len() as int,
            ) {
                Ok(m) => r matches Ok(a) && a.wf() && a.paper_model() == m && a.puzzle_view() == puzzle.view()
                    && a.undos() == 0 && !a.hints(),
                Err((index, source)) => r == Err::<Attempt, ReplayError>(ReplayError::Action { index: index as usize, source }),
            },
    {
        self.validate_for(puzzle)?;
        let mut attempt = puzzle.start();
        let mut index: usize = 0;
        while index < self.actions.len()
            invariant
                compatibility_error(self.metadata_view(), puzzle.view(), puzzle.revision_view()) is None,
                index <= self.actions@.len(),
                attempt.wf(),
                attempt.puzzle_view() == puzzle.view(),
                attempt.undos() == 0,
                !attempt.hints(),
                run(puzzle.view(), self.actions@, index as int) == Ok::<PaperModel, (int, ActionError)>(attempt.paper_model()),
            decreases self.actions@.len() - index,
        {
            let action = self.actions[index];
            match attempt.apply(action) {
                Ok(()) => {},
                Err(source) => {
                    proof {
                        lemma_run_stops(puzzle.view(), self.actions@, index as int + 1, self.actions@.len() as int);
                    }
                    return Err(ReplayError::Action { index, source });
                },
            }
            index = index + 1;
        }
        Ok(attempt)
    }
}

/// Once a replay fails, every longer prefix fails the same way.
pub proof fn lemma_run_stops(p: PuzzleView, actions: Seq<PaperAction>, n: int, m: int)
    requires
        0 <= n <= m,
        run(p, actions, n) is Err,
    ensures
        run(p, actions, m) == run(p, actions, n),
    decreases m - n,
{
    if m > n {
        lemma_run_stops(p, actions, n, m - 1);
    }
}

/// Every prefix of a successful replay succeeds.
pub proof fn lemma_run_prefix_ok(p: PuzzleView, actions: Seq<PaperAction>, n: int, j: int)
    requires
        0 <= j <= n,
        run(p, actions, n) is Ok,
    ensures
        run(p, actions, j) is Ok,
{
    if run(p, actions, j) is Err {
        lemma_run_stops(p, actions, j, n);
    }
}

/// A replay depends only on the size, budgets, and rules of a puzzle.
pub proof fn lemma_run_same_rules(p1: PuzzleView, p2: PuzzleView, actions: Seq<PaperAction>, n: int)
    requires
        p1.dims == p2.dims,
        p1.fold_budget == p2.fold_budget,
        p1.stroke_budget == p2.stroke_budget,
        p1.folds == p2.folds,
        p1.brushes == p2.brushes,
    ensures
        run(p1, actions, n) == run(p2, actions, n),
    decreases n,
{
    if n > 0 {
        lemma_run_same_rules(p1, p2, actions, n - 1);
    }
}

/// Executing the replay recorded from an attempt on that attempt's puzzle gives
/// back the attempt's paper: its state, its ink, and its actions.
pub proof fn lemma_replay_round_trip(a: Attempt, p: Puzzle, r: Replay)
    requires
        a.wf(),
        a.puzzle_view() == p.view(),
        r.metadata_view().identity_view() == (a.puzzle_view().pack, a.puzzle_view().puzzle),
        r.metadata_view().revision_view().view() == revision_of(a.puzzle_view()),
        r.metadata_view().format_view() == a.puzzle_view().format_version,
        r.metadata_view().engine_view() == 1,
        r.actions_view() == history_actions(a.paper_model()),
    ensures
        compatibility_error(r.metadata_view(), p.view(), p.revision_view()) is None,
        run(p.view(), r.actions_view(), r.actions_view().len() as int) == Ok::<PaperModel, (int, ActionError)>(
            a.paper_model(),
        ),
{
    a.lemma_replays();
}

/// A successful action extends a paper that replays from its history into
/// another such paper.
pub proof fn lemma_replays_step(p: PuzzleView, m: PaperModel, a: PaperAction)
    requires
        replays_to(p, m),
        attempt_step(p, m, a) is Ok,
    ensures
        replays_to(p, attempt_step(p, m, a)->Ok_0),
{
    let next = attempt_step(p, m, a)->Ok_0;
    let acts = history_actions(m);
    let n = acts.len() as int;
    assert(next.history == m.history.push((m.state, a)));
    assert(history_actions(next) =~= acts.push(a));
    lemma_run_ext(p, acts.push(a), acts, n);
}

/// Undoing the last action of a paper that replays from its history gives the
/// paper that its shorter history replays to.
pub proof fn lemma_replays_undo(p: PuzzleView, m: PaperModel)
    requires
        replays_to(p, m),
        m.undo_step() is Ok,
    ensures
        replays_to(p, m.undo_step()->Ok_0),
{
    let acts = history_actions(m);
    let n = acts.len() as int;
    let prev = run(p, acts, n - 1)->Ok_0;
    assert(run(p, acts, n - 1) is Ok);
    assert(attempt_step(p, prev, acts[n - 1]) == Ok::<PaperModel, ActionError>(m));
    assert(m.history == prev.history.push((prev.state, acts[n - 1])));
    assert(m.history.drop_last() =~= prev.history);
    assert(m.undo_step()->Ok_0 == prev);
    lemma_run_history(p, acts, n - 1);
    assert(history_actions(prev) =~= acts.subrange(0, n - 1));
    lemma_run_ext(p, acts.subrange(0, n - 1), acts, n - 1);
}

/// A paper reset on its puzzle replays from its empty history.
pub proof fn lemma_replays_reset(p: PuzzleView, m: PaperModel)
    requires
        m.dims == p.dims,
        m.fold_limit == p.fold_budget,
        m.stroke_limit == p.stroke_budget,
        m.action_limit == crate::domain::paper::ActionCount::spec_of(64),
    ensures
        replays_to(p, m.reset_step()),
{
    assert(history_actions(m.reset_step()) =~= Seq::<PaperAction>::empty());
}

/// A replay prefix depends only on the actions in it.
pub proof fn lemma_run_ext(p: PuzzleView, a: Seq<PaperAction>, b: Seq<PaperAction>, n: int)
    requires
        forall|i: int| 0 <= i < n ==> a[i] == b[i],
    ensures
        run(p, a, n) == run(p, b, n),
    decreases n,
{
    if n > 0 {
        lemma_run_ext(p, a, b, n - 1);
    }
}

/// A successful replay records exactly its actions, in order.
pub proof fn lemma_run_history(p: PuzzleView, actions: Seq<PaperAction>, n: int)
    requires
        0 <= n,
        run(p, actions, n) is Ok,
    ensures
        run(p, actions, n)->Ok_0.history.len() == n,
        forall|j: int| 0 <= j < n ==> (#[trigger] run(p, actions, n)->Ok_0.history[j]).1 == actions[j],
        run(p, actions, n)->Ok_0.dims == p.dims,
        run(p, actions, n)->Ok_0.fold_limit == p.fold_budget,
        run(p, actions, n)->Ok_0.stroke_limit == p.stroke_budget,
        run(p, actions, n)->Ok_0.action_limit == crate::domain::paper::ActionCount::spec_of(64),
    decreases n,
{
    if n > 0 {
        lemma_run_history(p, actions, n - 1);
        let m = run(p, actions, n - 1)->Ok_0;
        crate::domain::paper::state::lemma_apply_records(m, actions[n - 1]);
        let next = run(p, actions, n)->Ok_0;
        assert forall|j: int| 0 <= j < n implies (#[trigger] next.history[j]).1 == actions[j] by {
            if j < n - 1 {
                assert(next.history[j] == m.history[j]);
            }
        }
    }
}

/// The paper reached by a successful replay satisfies the paper invariant.
pub proof fn lemma_run_wf(p: PuzzleView, actions: Seq<PaperAction>, n: int)
    requires
        0 <= n,
        run(p, actions, n) is Ok,
        fresh_paper(p).limits_wf(),
    ensures
        run(p, actions, n)->Ok_0.wf(),
    decreases n,
{
    if n > 0 {
        lemma_run_wf(p, actions, n - 1);
        let m = run(p, actions, n - 1)->Ok_0;
        crate::domain::paper::state::lemma_apply_keeps_wf(m, actions[n - 1]);
    } else {
        crate::domain::paper::state::lemma_fresh_wf(p.dims, p.fold_budget, p.stroke_budget, crate::domain::paper::ActionCount::spec_of(64));
    }
}

#[derive(Clone, Debug, PartialEq, Eq)]
pub enum ReplayError {
    TooManyActions { count: usize, limit: u8 },
    IncompatibleEngine { found: u16, supported: u16 },
    IncompatiblePuzzleFormat { found: u16, expected: u16 },
    PuzzleIdentityMismatch,
    PuzzleRevisionMismatch,
    Action { index: usize, source: ActionError },
}

} // verus!
