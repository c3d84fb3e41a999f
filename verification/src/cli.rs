//! The command-line boundary: stable process statuses, argument parsing, and the
//! bounded responses that finish a run without opening the terminal game.

use vstd::prelude::*;

use crate::error::OutputStream;

verus! {

/// The status a run of the program ends with.
#[derive(Clone, Copy, Debug, PartialEq, Eq)]
pub enum ExitStatus {
    Success,
    Failure,
    Usage,
}

pub open spec fn exit_code(status: ExitStatus) -> u8 {
    match status {
        ExitStatus::Success => 0,
        ExitStatus::Failure => 1,
        ExitStatus::Usage => 2,
    }
}

impl ExitStatus {
    /// The process code: 0 for success, 1 for an operational failure, 2 for invalid usage.
    pub fn code(self) -> (r: u8)
        ensures
            r == exit_code(self),
    {
        match self {
            ExitStatus::Success => 0,
            ExitStatus::Failure => 1,
            ExitStatus::Usage => 2,
        }
    }
}

/// Distinct statuses have distinct process codes.
pub proof fn lemma_exit_codes_distinct(a: ExitStatus, b: ExitStatus)
    ensures
        exit_code(a) == exit_code(b) <==> a == b,
{
}

/// What a run asks for: the game, or a command that finishes with a status.
#[derive(Clone, Debug, PartialEq, Eq)]
pub enum CommandOutcome {
    /// Open the interactive terminal application.
    Play,
    /// Finish without opening the terminal application.
    Exit(ExitStatus),
    /// Validate the pack at a path.
    Verify(String),
    /// Solve every puzzle of the pack at a path.
    Solve(String),
    /// Install the pack at a path.
    PackInstall(String),
    /// List the installed packs.
    PackList,
    /// Remove an installed pack by its identifier.
    PackRemove(String),
}

/// What the arguments of a run ask for.
#[derive(Clone, Copy, Debug, PartialEq, Eq)]
pub enum Command {
    Play,
    Help,
    Version,
    Invalid,
}

pub open spec fn command_spec(first: Option<Seq<char>>, more: bool) -> Command {
    match first {
        None => Command::Play,
        Some(argument) => if more {
            Command::Invalid
        } else if argument == "-h"@ || argument == "--help"@ {
            Command::Help
        } else if argument == "-V"@ || argument == "--version"@ {
            Command::Version
        } else {
            Command::Invalid
        },
    }
}

/// Whether two texts are the same characters.
fn same_text(a: &str, b: &str) -> (r: bool)
    ensures
        r == (a@ == b@),
{
    broadcast use vstd::string::group_string_axioms;

    let n = a.unicode_len();
    if n != b.unicode_len() {
        return false;
    }
    let mut i: usize = 0;
    while i < n
        invariant
            n == a@.len(),
            n == b@.len(),
            i <= n,
            forall|k: int| 0 <= k < i ==> a@[k] == b@[k],
        decreases n - i,
    {
        if a.get_char(i) != b.get_char(i) {
            return false;
        }
        i = i + 1;
    }
    assert(a@ =~= b@);
    true
}

/// Reads the command from the first argument and whether any other follows:
/// no argument plays, one help or version flag asks for that, and anything
/// else is invalid. Arguments are inspected, never collected or echoed.
pub fn parse(first: Option<&str>, more: bool) -> (r: Command)
    ensures
        r == command_spec(
            match first {
                Some(a) => Some(a@),
                None => None,
            },
            more,
        ),
{
    let argument = match first {
        None => return Command::Play,
        Some(argument) => argument,
    };
    if more {
        return Command::Invalid;
    }
    if same_text(argument, "-h") || same_text(argument, "--help") {
        Command::Help
    } else if same_text(argument, "-V") || same_text(argument, "--version") {
        Command::Version
    } else {
        Command::Invalid
    }
}

pub open spec fn help_spec() -> Seq<char> {
    "Orifude is a quiet, offline puzzle game for the terminal.\n\nUsage: orifude [OPTIONS]\n\nOptions:\n  -h, --help     Print help\n  -V, --version  Print version\n"@
}

pub open spec fn usage_error_spec() -> Seq<char> {
    "error: unsupported command-line arguments\n\nUsage: orifude [OPTIONS]\nFor more information, try '--help'.\n"@
}

/// The help text.
pub fn help_text() -> (r: &'static str)
    ensures
        r@ == help_spec(),
{
    "Orifude is a quiet, offline puzzle game for the terminal.\n\nUsage: orifude [OPTIONS]\n\nOptions:\n  -h, --help     Print help\n  -V, --version  Print version\n"
}

/// The text that answers unsupported arguments.
pub fn usage_error_text() -> (r: &'static str)
    ensures
        r@ == usage_error_spec(),
{
    "error: unsupported command-line arguments\n\nUsage: orifude [OPTIONS]\nFor more information, try '--help'.\n"
}

/// What a command answers before the run ends: the game, or one text on one
/// stream and the status to end with.
#[derive(Clone, Debug, PartialEq, Eq)]
pub enum Response {
    Play,
    Write { stream: OutputStream, text: String, status: ExitStatus },
}

pub open spec fn response_spec(command: Command, version: Seq<char>) -> Option<(OutputStream, Seq<char>, ExitStatus)> {
    match command {
        Command::Play => None,
        Command::Help => Some((OutputStream::Stdout, help_spec(), ExitStatus::Success)),
        Command::Version => Some((OutputStream::Stdout, "orifude "@ + version + "\n"@, ExitStatus::Success)),
        Command::Invalid => Some((OutputStream::Stderr, usage_error_spec(), ExitStatus::Usage)),
    }
}

/// The answer to a command: help and the version go to standard output and
/// succeed; unsupported arguments are answered on standard error with the
/// usage status; playing writes nothing.
pub fn respond(command: Command, version: &str) -> (r: Response)
    ensures
        match response_spec(command, version@) {
            None => r is Play,
            Some((stream, text, status)) => r matches Response::Write { stream: s, text: t, status: st } && s
                == stream && t@ == text && st == status,
        },
{
    match command {
        Command::Play => Response::Play,
        Command::Help => Response::Write {
            stream: OutputStream::Stdout,
            text: help_text().to_owned(),
            status: ExitStatus::Success,
        },
        Command::Version => {
            let mut text = String::new();
            text.append("orifude ");
            text.append(version);
            text.append("\n");
            Response::Write { stream: OutputStream::Stdout, text, status: ExitStatus::Success }
        },
        Command::Invalid => Response::Write {
            stream: OutputStream::Stderr,
            text: usage_error_text().to_owned(),
            status: ExitStatus::Usage,
        },
    }
}

} // verus!
