//! Saved progress, daily history, and the decisions of recording a completion.

use vstd::prelude::*;

use super::{i64_to_u64, StorageError, StorageErrorKind, MAX_PAGE_COUNT, PROGRESS_PAGE_SIZE};
use crate::domain::puzzle::Puzzle;
use crate::domain::replay::{run, Replay};
use crate::domain::score::Score;
use crate::generator::CalendarDate;
use crate::solver::solves;

verus! {

/// Whether a replay, on its puzzle, leaves exactly the target inked.
pub open spec fn replay_succeeds(p: crate::domain::puzzle::PuzzleView, replay: Replay) -> bool {
    &&& crate::domain::replay::compatibility_error(replay.metadata_view(), p, crate::domain::puzzle::revision_of(p)) is None
    &&& run(p, replay.actions_view(), replay.actions_view().len() as int) matches Ok(m)
    &&& m.state.ink == p.target.cells()
}

/// Checks that a completion's replay solves its puzzle and gives the score it
/// reached; any other replay is an invalid completion.
pub fn verified_completion(puzzle: &Puzzle, replay: &Replay) -> (r: Result<Score, StorageError>)
    requires
        puzzle.wf(),
    ensures
        r is Ok <==> replay_succeeds(puzzle.view(), *replay),
        r matches Ok(score) ==> solves(puzzle.view(), *replay, score),
        r matches Err(e) ==> e.kind() == StorageErrorKind::InvalidCompletion,
{
    let attempt = match replay.execute(puzzle) {
        Ok(attempt) => attempt,
        Err(_) => return Err(StorageError::InvalidCompletion),
    };
    let result = attempt.result();
    if !result.is_success() {
        return Err(StorageError::InvalidCompletion);
    }
    Ok(result.score())
}

/// The best saved result of one puzzle.
#[derive(Clone, Debug, PartialEq, Eq)]
pub struct PuzzleProgress {
    pub pack_id: String,
    pub puzzle_id: String,
    pub attempt_count: u64,
    pub best_folds: u8,
    pub best_strokes: u8,
    pub best_replay_id: i64,
    pub updated_at_unix_seconds: i64,
}

/// One bounded page of saved progress, newest first.
#[derive(Clone, Debug, PartialEq, Eq)]
pub struct ProgressPage {
    pub entries: Vec<PuzzleProgress>,
    pub has_more: bool,
}

/// The offline daily selection of one day and generator version.
#[derive(Clone, Debug, PartialEq, Eq)]
pub struct DailyHistory {
    pub day: CalendarDate,
    pub generator_version: u16,
    pub pack_id: String,
    pub puzzle_id: String,
    pub completed: bool,
}

#[derive(Clone, Copy, Debug, PartialEq, Eq)]
pub struct DailyKey {
    pub day: CalendarDate,
    pub generator_version: u16,
}

/// The stored best result before a new completion is recorded.
#[derive(Clone, Copy, Debug, PartialEq, Eq, Structural)]
pub struct ExistingProgress {
    pub attempt_count: u64,
    pub best_folds: u8,
    pub best_strokes: u8,
    pub best_replay_id: i64,
}

/// Fewer folds wins; with equal folds, fewer strokes wins.
pub open spec fn score_better(folds: u8, strokes: u8, best_folds: u8, best_strokes: u8) -> bool {
    folds < best_folds || (folds == best_folds && strokes < best_strokes)
}

/// Whether a new completion becomes the best one. A score only competes with
/// solutions to the same gameplay revision.
pub open spec fn becomes_best(previous: Option<ExistingProgress>, same_gameplay: bool, folds: u8, strokes: u8) -> bool {
    match previous {
        None => true,
        Some(p) => !same_gameplay || score_better(folds, strokes, p.best_folds, p.best_strokes),
    }
}

pub fn completion_is_best(previous: Option<ExistingProgress>, same_gameplay: bool, folds: u8, strokes: u8) -> (r:
    bool)
    ensures
        r == becomes_best(previous, same_gameplay, folds, strokes),
{
    match previous {
        None => true,
        Some(p) => !same_gameplay || folds < p.best_folds || (folds == p.best_folds && strokes < p.best_strokes),
    }
}

/// The attempt count and best result after a completion.
pub open spec fn progress_after(
    previous: Option<ExistingProgress>,
    is_best: bool,
    folds: u8,
    strokes: u8,
    replay_id: i64,
) -> Option<(u64, u8, u8, i64)> {
    match previous {
        None => Some((1, folds, strokes, replay_id)),
        Some(p) => if p.attempt_count == u64::MAX {
            None
        } else if is_best {
            Some(((p.attempt_count + 1) as u64, folds, strokes, replay_id))
        } else {
            Some(((p.attempt_count + 1) as u64, p.best_folds, p.best_strokes, p.best_replay_id))
        },
    }
}

pub fn next_progress(previous: Option<ExistingProgress>, is_best: bool, folds: u8, strokes: u8, replay_id: i64) -> (r:
    Result<(u64, u8, u8, i64), StorageError>)
    ensures
        match progress_after(previous, is_best, folds, strokes, replay_id) {
            Some(t) => r == Ok::<(u64, u8, u8, i64), StorageError>(t),
            None => r matches Err(e) && e.kind() == StorageErrorKind::ResourceLimit,
        },
{
    match previous {
        None => Ok((1, folds, strokes, replay_id)),
        Some(p) => {
            let count = match p.attempt_count.checked_add(1) {
                Some(count) => count,
                None => {
                    return Err(StorageError::ResourceLimit);
                },
            };
            if is_best {
                Ok((count, folds, strokes, replay_id))
            } else {
                Ok((count, p.best_folds, p.best_strokes, p.best_replay_id))
            }
        },
    }
}

pub open spec fn saturating_sub(a: int, b: int) -> int {
    if a > b {
        a - b
    } else {
        0
    }
}

/// The pages still free below the database's page limit.
pub fn available_pages(page_count: i64, freelist: i64) -> (r: Result<u64, StorageError>)
    ensures
        page_count >= 0 && freelist >= 0 ==> r == Ok::<u64, StorageError>(
            saturating_sub(MAX_PAGE_COUNT as int, saturating_sub(page_count as int, freelist as int)) as u64,
        ),
        page_count < 0 || freelist < 0 ==> (r matches Err(e) && e.kind() == StorageErrorKind::Corrupt),
{
    let page_count = i64_to_u64(page_count)?;
    let freelist = i64_to_u64(freelist)?;
    let used = page_count.saturating_sub(freelist);
    Ok(MAX_PAGE_COUNT.saturating_sub(used))
}

/// Keeps the first page of entries and says whether more were read.
pub fn progress_page(entries: Vec<PuzzleProgress>) -> (r: ProgressPage)
    ensures
        r.has_more == (entries@.len() > PROGRESS_PAGE_SIZE),
        r.entries@ == if entries@.len() > PROGRESS_PAGE_SIZE {
            entries@.subrange(0, PROGRESS_PAGE_SIZE as int)
        } else {
            entries@
        },
{
    let has_more = entries.len() > PROGRESS_PAGE_SIZE;
    let mut entries = entries;
    entries.truncate(PROGRESS_PAGE_SIZE);
    ProgressPage { entries, has_more }
}

/// Daily records need a nonzero generator version.
pub fn check_generator_version(generator_version: u16) -> (r: Result<(), StorageError>)
    ensures
        r is Ok <==> generator_version != 0,
        r is Err ==> r->Err_0.kind() == StorageErrorKind::ResourceLimit,
{
    if generator_version == 0 {
        return Err(StorageError::ResourceLimit);
    }
    Ok(())
}

/// Whether a new completion becomes the best, judged against the puzzle of the
/// saved best replay: a saved replay of another puzzle is corrupt data; a
/// completion of another gameplay revision always becomes the best; one of the
/// same revision only with a better score.
pub fn best_against_saved(saved: &Puzzle, completed: &Puzzle, previous: ExistingProgress, folds: u8, strokes: u8) -> (r:
    Result<bool, StorageError>)
    ensures
        (saved.view().pack, saved.view().puzzle) != (completed.view().pack, completed.view().puzzle) ==> (r matches Err(
            e,
        ) && e.kind() == StorageErrorKind::ReplayData),
        (saved.view().pack, saved.view().puzzle) == (completed.view().pack, completed.view().puzzle) ==> r == Ok::<
            bool,
            StorageError,
        >(becomes_best(Some(previous), saved.view() == completed.view(), folds, strokes)),
{
    if !saved.identity().same(completed.identity()) {
        return Err(StorageError::ReplayData);
    }
    let same_gameplay = saved.format_version() == completed.format_version() && saved.revision().matches(completed);
    proof {
        if same_gameplay {
            assert(saved.view() == completed.view());
        }
    }
    Ok(completion_is_best(Some(previous), same_gameplay, folds, strokes))
}

} // verus!
