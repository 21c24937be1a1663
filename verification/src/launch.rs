//! How a command is started: under the user's service manager, and directly
//! where that cannot be had.

use crate::resolve::{command_view, CommandView, LaunchCommand};
use crate::text::{append_strings, texts};
use vstd::prelude::*;

verus! {

/// How far the launch of one command has come.
#[derive(Debug, Clone, Copy, PartialEq, Eq, Structural)]
pub enum LaunchState {
    /// The start under the service manager is to be tried.
    Supervised,
    /// The service manager could not be started; the direct start is to be
    /// tried.
    Direct,
    /// The command runs in a scope of the service manager.
    LaunchedSupervised,
    /// The command runs as a child of the launcher.
    LaunchedDirect,
    /// Neither start succeeded.
    Failed,
}

/// The program that starts a command in a scope of its own.
pub open spec fn supervisor_program() -> Seq<char> {
    "systemd-run"@
}

/// The command that starts `cmd` in a scope of the user's service manager:
/// the supervisor with `--user`, `--scope`, the program and its arguments.
pub open spec fn supervised(cmd: CommandView) -> CommandView {
    CommandView {
        program: supervisor_program(),
        args: seq!["--user"@, "--scope"@, cmd.program] + cmd.args,
    }
}

/// The state after a start was tried in `state`; `started` says whether the
/// process came up. A state in which nothing is tried stays as it is.
pub open spec fn after_attempt(state: LaunchState, started: bool) -> LaunchState {
    match state {
        LaunchState::Supervised => if started {
            LaunchState::LaunchedSupervised
        } else {
            LaunchState::Direct
        },
        LaunchState::Direct => if started {
            LaunchState::LaunchedDirect
        } else {
            LaunchState::Failed
        },
        _ => state,
    }
}

/// The command to start in `state`, if `state` asks for a start.
pub open spec fn attempt_in(state: LaunchState, cmd: CommandView) -> Option<CommandView> {
    match state {
        LaunchState::Supervised => Some(supervised(cmd)),
        LaunchState::Direct => Some(cmd),
        _ => None,
    }
}

/// Whether the command runs.
pub open spec fn is_launched(state: LaunchState) -> bool {
    state == LaunchState::LaunchedSupervised || state == LaunchState::LaunchedDirect
}

/// Whether nothing more is tried.
pub open spec fn is_final(state: LaunchState) -> bool {
    is_launched(state) || state == LaunchState::Failed
}

impl LaunchState {
    /// The state in which every launch begins.
    pub fn start() -> (s: Self)
        ensures
            s == LaunchState::Supervised,
    {
        LaunchState::Supervised
    }

    /// The command to start now, or `None` where nothing is to be started.
    pub fn attempt(self, cmd: &LaunchCommand) -> (r: Option<LaunchCommand>)
        ensures
            command_view(r) == attempt_in(self, cmd@),
    {
        match self {
            LaunchState::Supervised => Some(supervised_command(cmd)),
            LaunchState::Direct => Some(cmd.clone()),
            _ => None,
        }
    }

    /// The state after the start that `attempt` asked for was tried.
    pub fn after(self, started: bool) -> (s: Self)
        ensures
            s == after_attempt(self, started),
    {
        match self {
            LaunchState::Supervised => if started {
                LaunchState::LaunchedSupervised
            } else {
                LaunchState::Direct
            },
            LaunchState::Direct => if started {
                LaunchState::LaunchedDirect
            } else {
                LaunchState::Failed
            },
            _ => self,
        }
    }

    /// Whether the command runs, so that its launch is to be recorded.
    pub fn launched(self) -> (b: bool)
        ensures
            b == is_launched(self),
    {
        match self {
            LaunchState::LaunchedSupervised => true,
            LaunchState::LaunchedDirect => true,
            _ => false,
        }
    }

    /// Whether nothing more is tried.
    pub fn finished(self) -> (b: bool)
        ensures
            b == is_final(self),
    {
        match self {
            LaunchState::LaunchedSupervised => true,
            LaunchState::LaunchedDirect => true,
            LaunchState::Failed => true,
            _ => false,
        }
    }
}

/// The command that starts `cmd` in a scope of the user's service manager.
pub fn supervised_command(cmd: &LaunchCommand) -> (r: LaunchCommand)
    ensures
        r@ == supervised(cmd@),
{
    let mut args: Vec<String> = Vec::new();
    args.push("--user".to_owned());
    args.push("--scope".to_owned());
    args.push(cmd.program.clone());
    let ghost head = texts(args@);
    assert(head =~= seq!["--user"@, "--scope"@, cmd@.program]);
    append_strings(&mut args, &cmd.args);
    LaunchCommand { program: "systemd-run".to_owned(), args }
}

/// Every launch is over after two attempts, and it ends launched exactly
/// when one of the two starts came up: the first, or else the second.
pub proof fn lemma_launch_ends(first_started: bool, second_started: bool)
    ensures
        is_final(after_attempt(after_attempt(LaunchState::Supervised, first_started), second_started)),
        is_launched(
            after_attempt(after_attempt(LaunchState::Supervised, first_started), second_started),
        ) == (first_started || second_started),
        first_started ==> after_attempt(LaunchState::Supervised, first_started)
            == LaunchState::LaunchedSupervised,
{
}

} // verus!
