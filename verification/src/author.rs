//! Local author commands: what they report, and the bounds on what they write.

use vstd::prelude::*;
use vstd::string::{StringExecFns, StringSliceAdditionalSpecFns};
use vstd::utf8::encode_utf8;

use crate::cli::CommandOutcome;
use crate::domain::paper::{FoldDirection, PaperAction};
use crate::domain::replay::Replay;
use crate::domain::score::Score;
use crate::packs::format::PuzzleContent;
use crate::packs::{hex_text, pack_error_text, issue_views, PackError, PackErrorView, ValidatedPack};
use crate::solver::{solves, NeverCancel, SolveOutcome, Solver, SolverLimits};
use crate::storage::paths::PathError;
use crate::storage::registry::{InstallOutcome, RegisteredPack};
use crate::storage::StorageError;
use crate::text::{decimal, push_decimal};

verus! {

/// The most bytes an author command writes.
pub const MAX_AUTHOR_OUTPUT_BYTES: usize = 1048576;

/// Why an author command failed.
#[derive(Debug)]
pub enum AuthorError {
    Pack(PackError),
    Paths(PathError),
    Storage(StorageError),
    Output(std::io::Error),
    Clock,
    Solver { puzzle_id: String, reason: &'static str },
    Command,
    OutputLimit,
}

impl AuthorError {
    /// What the failure says.
    pub fn message(&self) -> (r: String)
        ensures
            r@ == match self {
                AuthorError::Pack(_) => "could not read the local puzzle pack"@,
                AuthorError::Paths(_) => "could not locate local Orifude data"@,
                AuthorError::Storage(_) => "could not update local puzzle packs"@,
                AuthorError::Output(_) => "could not write command output"@,
                AuthorError::Clock => "could not read a valid installation time"@,
                AuthorError::Solver { puzzle_id, reason } => "solver "@ + reason@ + " for puzzle "@ + puzzle_id@,
                AuthorError::Command => "command is not an author operation"@,
                AuthorError::OutputLimit => "author command output exceeded its limit"@,
            },
    {
        match self {
            AuthorError::Pack(_) => String::from_str("could not read the local puzzle pack"),
            AuthorError::Paths(_) => String::from_str("could not locate local Orifude data"),
            AuthorError::Storage(_) => String::from_str("could not update local puzzle packs"),
            AuthorError::Output(_) => String::from_str("could not write command output"),
            AuthorError::Clock => String::from_str("could not read a valid installation time"),
            AuthorError::Solver { puzzle_id, reason } => {
                let mut text = String::from_str("solver ");
                text.append(reason);
                text.append(" for puzzle ");
                text.append(puzzle_id.as_str());
                text
            },
            AuthorError::Command => String::from_str("command is not an author operation"),
            AuthorError::OutputLimit => String::from_str("author command output exceeded its limit"),
        }
    }
}

// ---------------------------------------------------------------------------
// Solutions as TOML
// ---------------------------------------------------------------------------

pub open spec fn direction_spec(direction: FoldDirection) -> Seq<char> {
    match direction {
        FoldDirection::Left => "left"@,
        FoldDirection::Right => "right"@,
        FoldDirection::Up => "up"@,
        FoldDirection::Down => "down"@,
    }
}

pub fn direction_name(direction: FoldDirection) -> (r: &'static str)
    ensures
        r@ == direction_spec(direction),
{
    match direction {
        FoldDirection::Left => "left",
        FoldDirection::Right => "right",
        FoldDirection::Up => "up",
        FoldDirection::Down => "down",
    }
}

/// An action as an inline TOML table of the pack format.
pub open spec fn action_toml_spec(action: PaperAction) -> Seq<char> {
    match action {
        PaperAction::Fold(fold) => "{ kind = \"fold\", direction = \""@ + direction_spec(fold.dir()) + "\", crease = "@
            + decimal(fold.cr() as nat) + " }"@,
        PaperAction::Dot(c) => "{ kind = \"dot\", row = "@ + decimal(c.r() as nat) + ", column = "@ + decimal(
            c.c() as nat,
        ) + " }"@,
        PaperAction::Line(line) => "{ kind = \"line\", start_row = "@ + decimal(line.start_value().r() as nat)
            + ", start_column = "@ + decimal(line.start_value().c() as nat) + ", end_row = "@ + decimal(
            line.end_value().r() as nat,
        ) + ", end_column = "@ + decimal(line.end_value().c() as nat) + " }"@,
    }
}

pub fn action_toml(action: PaperAction) -> (r: String)
    ensures
        r@ == action_toml_spec(action),
{
    let mut text = String::new();
    match action {
        PaperAction::Fold(fold) => {
            text.append("{ kind = \"fold\", direction = \"");
            text.append(direction_name(fold.direction()));
            text.append("\", crease = ");
            push_decimal(&mut text, fold.crease() as u64);
            text.append(" }");
        },
        PaperAction::Dot(c) => {
            text.append("{ kind = \"dot\", row = ");
            push_decimal(&mut text, c.row().get() as u64);
            text.append(", column = ");
            push_decimal(&mut text, c.column().get() as u64);
            text.append(" }");
        },
        PaperAction::Line(line) => {
            text.append("{ kind = \"line\", start_row = ");
            push_decimal(&mut text, line.start().row().get() as u64);
            text.append(", start_column = ");
            push_decimal(&mut text, line.start().column().get() as u64);
            text.append(", end_row = ");
            push_decimal(&mut text, line.end().row().get() as u64);
            text.append(", end_column = ");
            push_decimal(&mut text, line.end().column().get() as u64);
            text.append(" }");
        },
    }
    text
}

/// One line per action, each indented and ending with a comma.
pub open spec fn action_lines(actions: Seq<PaperAction>) -> Seq<char>
    decreases actions.len(),
{
    if actions.len() == 0 {
        Seq::empty()
    } else {
        action_lines(actions.drop_last()) + "  "@ + action_toml_spec(actions.last()) + ",\n"@
    }
}

/// The section of a solve report for one puzzle.
pub open spec fn section_spec(puzzle_id: Seq<char>, score: Score, actions: Seq<PaperAction>) -> Seq<char> {
    "\n[puzzle."@ + puzzle_id + "]\nfolds = "@ + decimal(score.fold_part().value() as nat) + "\nstrokes = "@
        + decimal(score.stroke_part().value() as nat) + "\nsolution = [\n"@ + action_lines(actions) + "]\n"@
}

/// A puzzle's identifier with a solution of it and that solution's score.
pub type SolvedEntry = (Seq<char>, Replay, Score);

pub open spec fn sections_spec(entries: Seq<SolvedEntry>) -> Seq<char>
    decreases entries.len(),
{
    if entries.len() == 0 {
        Seq::empty()
    } else {
        let e = entries.last();
        sections_spec(entries.drop_last()) + section_spec(e.0, e.2, e.1.actions_view())
    }
}

/// The whole solve report of a pack.
pub open spec fn report_spec(pack_id: Seq<char>, entries: Seq<SolvedEntry>) -> Seq<char> {
    "pack = \""@ + pack_id + "\"\n"@ + sections_spec(entries)
}

/// Whether the entries name the first `n` puzzles in order, each with a replay that solves it
/// at the score given.
pub open spec fn entries_solve(puzzles: Seq<PuzzleContent>, entries: Seq<SolvedEntry>, n: int) -> bool {
    &&& entries.len() == n
    &&& forall|i: int|
        0 <= i < n ==> {
            let p = (#[trigger] puzzles[i]).puzzle_value().view();
            &&& entries[i].0 == p.puzzle
            &&& solves(p, entries[i].1, entries[i].2)
        }
}

/// The report section of one solved puzzle.
pub fn solution_section(output: &mut String, puzzle_id: &str, replay: &Replay, score: Score)
    ensures
        final(output)@ == old(output)@ + section_spec(puzzle_id@, score, replay.actions_view()),
{
    output.append("\n[puzzle.");
    output.append(puzzle_id);
    output.append("]\nfolds = ");
    push_decimal(output, score.folds().get() as u64);
    output.append("\nstrokes = ");
    push_decimal(output, score.strokes().get() as u64);
    output.append("\nsolution = [\n");
    let ghost start = output@;
    let actions = replay.actions();
    let mut k: usize = 0;
    while k < actions.len()
        invariant
            k <= actions@.len(),
            actions@ == replay.actions_view(),
            output@ == start + action_lines(actions@.subrange(0, k as int)),
        decreases actions@.len() - k,
    {
        output.append("  ");
        let line = action_toml(actions[k]);
        output.append(line.as_str());
        output.append(",\n");
        proof {
            let next = actions@.subrange(0, k + 1);
            assert(next.drop_last() =~= actions@.subrange(0, k as int));
        }
        k = k + 1;
    }
    assert(actions@.subrange(0, actions@.len() as int) =~= actions@);
    output.append("]\n");
}

/// Solves every puzzle of a pack with the default limits and reports, as TOML,
/// each puzzle's score and solution. Fails on the first puzzle the solver gives
/// up on, or once the report would exceed the output limit.
pub fn solve_report(pack: &ValidatedPack) -> (r: Result<String, AuthorError>)
    ensures
        r matches Ok(text) ==> (pack.puzzles_value().len() > 0 ==> (encode_utf8(text@).len() as usize)
            <= MAX_AUTHOR_OUTPUT_BYTES) && exists|entries: Seq<SolvedEntry>|
            entries_solve(pack.puzzles_value(), entries, pack.puzzles_value().len() as int) && text@ == report_spec(
                pack.metadata_value().view().id,
                entries,
            ),
        r matches Err(e) ==> e is OutputLimit || (e matches AuthorError::Solver { puzzle_id, reason } && exists|
            k: int,
        |
            0 <= k < pack.puzzles_value().len() && puzzle_id@ == (#[trigger] pack.puzzles_value()[k]).puzzle_value().view().puzzle
                && (reason@ == "found no solution"@ || reason@ == "reached a resource limit"@ || reason@
                == "was cancelled"@ || reason@ == "received invalid limits"@)),
{
    let mut output = String::new();
    output.append("pack = \"");
    output.append(pack.metadata().id());
    output.append("\"\n");
    let puzzles = pack.puzzles();
    let ghost mut entries: Seq<SolvedEntry> = Seq::empty();
    let mut k: usize = 0;
    while k < puzzles.len()
        invariant
            k <= puzzles@.len(),
            puzzles@ == pack.puzzles_value(),
            forall|q: int| 0 <= q < puzzles@.len() ==> (#[trigger] puzzles@[q]).puzzle_value().wf(),
            entries_solve(puzzles@, entries, k as int),
            output@ == report_spec(pack.metadata_value().view().id, entries),
            k > 0 ==> (encode_utf8(output@).len() as usize) <= MAX_AUTHOR_OUTPUT_BYTES,
        decreases puzzles@.len() - k,
    {
        let content = &puzzles[k];
        let puzzle = content.puzzle();
        let solution = match Solver::solve(puzzle, SolverLimits::default(), &NeverCancel) {
            SolveOutcome::Solved(solution) => solution,
            SolveOutcome::Unsolved(_) => {
                return Err(AuthorError::Solver {
                    puzzle_id: puzzle.identity().puzzle_id().to_owned(),
                    reason: "found no solution",
                });
            },
            SolveOutcome::Exhausted { .. } => {
                return Err(AuthorError::Solver {
                    puzzle_id: puzzle.identity().puzzle_id().to_owned(),
                    reason: "reached a resource limit",
                });
            },
            SolveOutcome::Cancelled(_) => {
                return Err(AuthorError::Solver {
                    puzzle_id: puzzle.identity().puzzle_id().to_owned(),
                    reason: "was cancelled",
                });
            },
            SolveOutcome::Invalid(_) => {
                return Err(AuthorError::Solver {
                    puzzle_id: puzzle.identity().puzzle_id().to_owned(),
                    reason: "received invalid limits",
                });
            },
        };
        let replay = solution.replay();
        let score = solution.score();
        let ghost before = entries;
        solution_section(&mut output, puzzle.identity().puzzle_id(), replay, score);
        proof {
            entries = entries.push((puzzle.view().puzzle, *replay, score));
            assert(entries.drop_last() =~= before);
            assert forall|i: int| 0 <= i < k + 1 implies {
                let p = (#[trigger] puzzles@[i]).puzzle_value().view();
                &&& entries[i].0 == p.puzzle
                &&& solves(p, entries[i].1, entries[i].2)
            } by {
                if i < k {
                    assert(entries[i] == before[i]);
                }
            }
        }
        if output.as_str().len() > MAX_AUTHOR_OUTPUT_BYTES {
            return Err(AuthorError::OutputLimit);
        }
        k = k + 1;
    }
    Ok(output)
}

// ---------------------------------------------------------------------------
// Other reports
// ---------------------------------------------------------------------------

/// The confirmation of a verified pack: how many puzzles, its identifier, and its fingerprint.
pub fn verify_message(pack: &ValidatedPack) -> (r: String)
    ensures
        r@ == "Verified "@ + decimal(pack.puzzles_value().len()) + " puzzle(s) in pack "@
            + pack.metadata_value().view().id + " ["@ + hex_text(pack.fingerprint_value()) + "].\n"@,
{
    let mut text = String::from_str("Verified ");
    push_decimal(&mut text, pack.puzzles().len() as u64);
    text.append(" puzzle(s) in pack ");
    text.append(pack.metadata().id());
    text.append(" [");
    let hex = pack.fingerprint_hex();
    text.append(hex.as_str());
    text.append("].\n");
    text
}

/// The confirmation of an install.
pub fn install_message(outcome: &InstallOutcome) -> (r: String)
    ensures
        r@ == match outcome {
            InstallOutcome::Installed(p) => "Installed"@ + " pack "@ + p.id@ + ".\n"@,
            InstallOutcome::AlreadyPresent(p) => "Already installed"@ + " pack "@ + p.id@ + ".\n"@,
        },
{
    let (verb, summary) = match outcome {
        InstallOutcome::Installed(summary) => ("Installed", summary),
        InstallOutcome::AlreadyPresent(summary) => ("Already installed", summary),
    };
    let mut text = String::from_str(verb);
    text.append(" pack ");
    text.append(summary.id.as_str());
    text.append(".\n");
    text
}

pub open spec fn pack_lines(packs: Seq<RegisteredPack>) -> Seq<char>
    decreases packs.len(),
{
    if packs.len() == 0 {
        Seq::empty()
    } else {
        pack_lines(packs.drop_last()) + packs.last().id@ + "\t"@ + packs.last().title@ + "\n"@
    }
}

/// The installed packs, one `identifier<TAB>title` line each, or a note that there are none.
pub fn list_message(packs: &[RegisteredPack]) -> (r: String)
    ensures
        r@ == if packs@.len() == 0 {
            "No puzzle packs are installed.\n"@
        } else {
            pack_lines(packs@)
        },
{
    if packs.len() == 0 {
        return String::from_str("No puzzle packs are installed.\n");
    }
    let mut text = String::new();
    let mut k: usize = 0;
    while k < packs.len()
        invariant
            k <= packs@.len(),
            text@ == pack_lines(packs@.subrange(0, k as int)),
        decreases packs@.len() - k,
    {
        text.append(packs[k].id.as_str());
        text.append("\t");
        text.append(packs[k].title.as_str());
        text.append("\n");
        assert(packs@.subrange(0, k + 1).drop_last() =~= packs@.subrange(0, k as int));
        k = k + 1;
    }
    assert(packs@.subrange(0, packs@.len() as int) =~= packs@);
    text
}

/// The confirmation of a removal; saved progress is kept either way.
pub fn remove_message(pack_id: &str, removed: bool) -> (r: String)
    ensures
        r@ == if removed {
            "Removed pack "@ + pack_id@ + ". Saved progress was kept.\n"@
        } else {
            "Pack "@ + pack_id@ + " is not installed.\n"@
        },
{
    let mut text = if removed {
        String::from_str("Removed pack ")
    } else {
        String::from_str("Pack ")
    };
    text.append(pack_id);
    if removed {
        text.append(". Saved progress was kept.\n");
    } else {
        text.append(" is not installed.\n");
    }
    text
}

pub open spec fn issue_lines(issues: Seq<(Seq<char>, Seq<char>)>) -> Seq<char>
    decreases issues.len(),
{
    if issues.len() == 0 {
        Seq::empty()
    } else {
        issue_lines(issues.drop_last()) + issues.last().0 + ": "@ + issues.last().1 + "\n"@
    }
}

/// The report of a pack refused with issues: the error, then one
/// `location: problem` line per issue. A refusal with no issues has no report.
#[verifier::rlimit(40)]
pub fn pack_error_report(error: &PackError) -> (r: Option<String>)
    ensures
        match error.view() {
            PackErrorView::Invalid(issues) => if issues.len() == 0 {
                r is None
            } else {
                r matches Some(text) && text@ == "error: "@ + pack_error_text(error.view()) + "\n"@ + issue_lines(
                    issues,
                )
            },
            _ => r is None,
        },
{
    let issues = error.issues();
    if issues.len() == 0 {
        return None;
    }
    let mut text = String::from_str("error: ");
    let message = error.message();
    text.append(message.as_str());
    text.append("\n");
    let ghost head = text@;
    let mut k: usize = 0;
    while k < issues.len()
        invariant
            k <= issues@.len(),
            error.view() matches PackErrorView::Invalid(v) ==> issue_views(issues@) == v,
            text@ == head + issue_lines(issue_views(issues@).subrange(0, k as int)),
        decreases issues@.len() - k,
    {
        text.append(issues[k].location());
        text.append(": ");
        text.append(issues[k].problem());
        text.append("\n");
        assert(issue_views(issues@).subrange(0, k + 1).drop_last() =~= issue_views(issues@).subrange(0, k as int));
        k = k + 1;
    }
    assert(issue_views(issues@).subrange(0, issues@.len() as int) =~= issue_views(issues@));
    Some(text)
}

/// Refuses author output over its byte limit.
pub fn check_output(content: &str) -> (r: Result<(), AuthorError>)
    ensures
        r is Ok <==> content.len() <= MAX_AUTHOR_OUTPUT_BYTES,
        r matches Err(e) ==> e is OutputLimit,
{
    if content.len() > MAX_AUTHOR_OUTPUT_BYTES {
        return Err(AuthorError::OutputLimit);
    }
    Ok(())
}

/// The installation time in whole seconds since the Unix epoch, from the
/// system clock's reading (`None` when the clock is before the epoch).
pub fn installed_at(unix_seconds: Option<u64>) -> (r: Result<i64, AuthorError>)
    ensures
        match unix_seconds {
            Some(s) => if s <= i64::MAX {
                r == Ok::<i64, AuthorError>(s as i64)
            } else {
                r matches Err(AuthorError::Clock)
            },
            None => r matches Err(AuthorError::Clock),
        },
{
    match unix_seconds {
        Some(seconds) => if seconds <= i64::MAX as u64 {
            Ok(seconds as i64)
        } else {
            Err(AuthorError::Clock)
        },
        None => Err(AuthorError::Clock),
    }
}

/// The author work a command asks for.
#[derive(Clone, Debug, PartialEq, Eq)]
pub enum AuthorTask {
    Verify(String),
    Solve(String),
    Install(String),
    List,
    Remove(String),
}

/// The author work of a command; the game and a finished command are no
/// author work, and are refused before anything is read or written.
pub fn author_task(command: CommandOutcome) -> (r: Result<AuthorTask, AuthorError>)
    ensures
        match command {
            CommandOutcome::Verify(path) => r matches Ok(AuthorTask::Verify(p)) && p@ == path@,
            CommandOutcome::Solve(path) => r matches Ok(AuthorTask::Solve(p)) && p@ == path@,
            CommandOutcome::PackInstall(path) => r matches Ok(AuthorTask::Install(p)) && p@ == path@,
            CommandOutcome::PackList => r matches Ok(AuthorTask::List),
            CommandOutcome::PackRemove(id) => r matches Ok(AuthorTask::Remove(p)) && p@ == id@,
            CommandOutcome::Play | CommandOutcome::Exit(_) => r matches Err(AuthorError::Command),
        },
{
    match command {
        CommandOutcome::Verify(path) => Ok(AuthorTask::Verify(path)),
        CommandOutcome::Solve(path) => Ok(AuthorTask::Solve(path)),
        CommandOutcome::PackInstall(path) => Ok(AuthorTask::Install(path)),
        CommandOutcome::PackList => Ok(AuthorTask::List),
        CommandOutcome::PackRemove(id) => Ok(AuthorTask::Remove(id)),
        CommandOutcome::Play | CommandOutcome::Exit(_) => Err(AuthorError::Command),
    }
}

} // verus!
