//! What an execution backend hands back, and how the scheduler rates it.

use vstd::prelude::*;

verus! {

/// The captured output of a command that ran to its end.
#[derive(Debug)]
pub struct CommandOutput {
    /// What the command wrote to standard output.
    pub stdout: Vec<u8>,
    /// What the command wrote to standard error.
    pub stderr: Vec<u8>,
    /// The exit status of the command.
    pub status: i32,
}

/// How an execution ended.
#[derive(Debug)]
pub enum ExecutionOutcome {
    /// The command ran to its end within the timeout.
    Completed(CommandOutput),
    /// The backend could not run the command, for the reason given.
    Failed { reason: String },
    /// The wait for the command was given up after the timeout.
    TimedOut,
}

/// The severity with which an outcome is reported.
#[derive(Clone, Copy, Debug, PartialEq, Eq, Structural)]
pub enum Severity {
    Info,
    Warn,
    Error,
}

impl ExecutionOutcome {
    /// Whether the execution counts as a failure: the backend reported an
    /// error, or the command ended with an exit status other than zero.
    pub open spec fn failed(self) -> bool {
        match self {
            ExecutionOutcome::Completed(output) => output.status != 0,
            ExecutionOutcome::Failed { .. } => true,
            ExecutionOutcome::TimedOut => false,
        }
    }

    /// Whether the execution counts as a failure.
    pub fn is_failure(&self) -> (b: bool)
        ensures
            b == self.failed(),
    {
        match self {
            ExecutionOutcome::Completed(output) => output.status != 0,
            ExecutionOutcome::Failed { .. } => true,
            ExecutionOutcome::TimedOut => false,
        }
    }

    /// A failure is reported as an error, a timeout as a warning, and a
    /// completed run with exit status zero as information.
    pub fn severity(&self) -> (s: Severity)
        ensures
            s == (if self.failed() {
                Severity::Error
            } else if self is TimedOut {
                Severity::Warn
            } else {
                Severity::Info
            }),
    {
        match self {
            ExecutionOutcome::TimedOut => Severity::Warn,
            _ => if self.is_failure() {
                Severity::Error
            } else {
                Severity::Info
            },
        }
    }

    /// Whether the attempt is recorded as an execution of the command. A
    /// run that timed out is rescheduled without such a record.
    pub fn counts_as_execution(&self) -> (b: bool)
        ensures
            b == !(self is TimedOut),
    {
        match self {
            ExecutionOutcome::TimedOut => false,
            _ => true,
        }
    }
}

} // verus!
