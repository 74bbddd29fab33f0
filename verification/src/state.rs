//! The persisted state of a command, and the row that a store keeps of it.

use crate::config::CommandConfig;
use crate::config::CommandSpec;
use crate::schedule::ScheduleError;
use crate::time::{rfc3339_instant, rfc3339_text, Timestamp, MAX_MILLIS, MIN_MILLIS};
use vstd::prelude::*;

verus! {

/// When a command last ran and when it is to run next.
#[derive(Debug)]
pub struct CommandState {
    pub name: String,
    pub last_execution: Option<Timestamp>,
    pub next_scheduled: Timestamp,
}

/// The mathematical value of a [`CommandState`]; instants are in
/// milliseconds since the Unix epoch.
pub struct PersistedState {
    pub name: Seq<char>,
    pub last_execution: Option<int>,
    pub next_scheduled: int,
}

impl View for CommandState {
    type V = PersistedState;

    open spec fn view(&self) -> PersistedState {
        PersistedState {
            name: self.name@,
            last_execution: match self.last_execution {
                Some(t) => Some(t@),
                None => None,
            },
            next_scheduled: self.next_scheduled@,
        }
    }
}

/// The values of a run of states, in the same order.
pub open spec fn states_of(states: Seq<CommandState>) -> Seq<PersistedState> {
    states.map_values(|s: CommandState| s@)
}

/// The rule by which a command is scheduled, as a store records it.
#[derive(Debug)]
pub enum ScheduleDescriptor {
    /// A fixed interval, in milliseconds.
    Interval { millis: u64 },
    /// A cron expression.
    Cron { expression: String },
}

/// The mathematical value of a [`ScheduleDescriptor`].
pub enum DescriptorSpec {
    Interval { millis: u64 },
    Cron { expression: Seq<char> },
}

impl View for ScheduleDescriptor {
    type V = DescriptorSpec;

    open spec fn view(&self) -> DescriptorSpec {
        match self {
            ScheduleDescriptor::Interval { millis } => DescriptorSpec::Interval { millis: *millis },
            ScheduleDescriptor::Cron { expression } => DescriptorSpec::Cron {
                expression: expression@,
            },
        }
    }
}

impl CommandSpec {
    /// The descriptor of this command's schedule: its interval if it has
    /// one, else its cron expression, else none.
    pub open spec fn descriptor(self) -> Option<DescriptorSpec> {
        match self.interval_millis {
            Some(millis) => Some(DescriptorSpec::Interval { millis }),
            None => match self.cron {
                Some(expression) => Some(DescriptorSpec::Cron { expression }),
                None => None,
            },
        }
    }
}

impl ScheduleDescriptor {
    /// The descriptor of `command`'s schedule. A command without a schedule
    /// has none.
    pub fn of(command: &CommandConfig) -> (r: Result<ScheduleDescriptor, ScheduleError>)
        ensures
            match r {
                Ok(d) => command@.descriptor() == Some(d@),
                Err(e) => e == ScheduleError::MissingSchedule && command@.descriptor().is_none(),
            },
    {
        match command.interval_millis {
            Some(millis) => Ok(ScheduleDescriptor::Interval { millis }),
            None => match &command.cron {
                Some(expression) => Ok(ScheduleDescriptor::Cron { expression: expression.clone() }),
                None => Err(ScheduleError::MissingSchedule),
            },
        }
    }

    /// The word under which a store files this kind of schedule:
    /// `interval` or `cron`.
    pub fn kind(&self) -> (word: &'static str)
        ensures
            word@ == (if self is Interval {
                "interval"@
            } else {
                "cron"@
            }),
    {
        match self {
            ScheduleDescriptor::Interval { .. } => "interval",
            ScheduleDescriptor::Cron { .. } => "cron",
        }
    }
}

/// One row of a state store: the state of a command with its instants in
/// RFC 3339 notation, and the descriptor of its schedule.
#[derive(Debug)]
pub struct StateRow {
    pub name: String,
    pub last_execution: Option<String>,
    pub next_scheduled: String,
    pub schedule: ScheduleDescriptor,
}

/// Why a row of a state store cannot be read.
#[derive(Clone, Copy, Debug, PartialEq, Eq, Structural)]
pub enum StateError {
    /// `last_execution` is no instant in RFC 3339 notation, or one outside
    /// the span of a `Timestamp`.
    BadLastExecution,
    /// `next_scheduled` is no instant in RFC 3339 notation, or one outside
    /// the span of a `Timestamp`.
    BadNextScheduled,
}

/// The instant, within the span of a `Timestamp`, that `text` denotes.
pub open spec fn instant_of(text: Seq<char>) -> Option<int> {
    match rfc3339_instant(text) {
        Some(m) => if MIN_MILLIS <= m <= MAX_MILLIS {
            Some(m)
        } else {
            None
        },
        None => None,
    }
}

/// The state that the columns of a row denote.
pub open spec fn decoded(
    name: Seq<char>,
    last_execution: Option<Seq<char>>,
    next_scheduled: Seq<char>,
) -> Result<PersistedState, StateError> {
    match last_execution {
        Some(text) if instant_of(text).is_none() => Err(StateError::BadLastExecution),
        _ => match instant_of(next_scheduled) {
            None => Err(StateError::BadNextScheduled),
            Some(next) => Ok(
                PersistedState {
                    name,
                    last_execution: match last_execution {
                        Some(text) => instant_of(text),
                        None => None,
                    },
                    next_scheduled: next,
                },
            ),
        },
    }
}

/// A state that has been written to a row reads back as it was, provided
/// that the parser reads each of its instants back from the text written
/// for it. [`Timestamp::to_rfc3339`] says so of every text that it writes.
pub proof fn lemma_row_round_trip(state: PersistedState)
    requires
        MIN_MILLIS <= state.next_scheduled <= MAX_MILLIS,
        rfc3339_instant(rfc3339_text(state.next_scheduled)) == Some(state.next_scheduled),
        state.last_execution matches Some(t) ==> MIN_MILLIS <= t <= MAX_MILLIS
            && rfc3339_instant(rfc3339_text(t)) == Some(t),
    ensures
        decoded(
            state.name,
            match state.last_execution {
                Some(t) => Some(rfc3339_text(t)),
                None => None,
            },
            rfc3339_text(state.next_scheduled),
        ) == Ok::<PersistedState, StateError>(state),
{
}

impl CommandState {
    /// The state recorded for `command`: its name with the two instants.
    pub fn record(
        command: &CommandConfig,
        last_execution: Option<Timestamp>,
        next_scheduled: Timestamp,
    ) -> (state: CommandState)
        ensures
            state@.name == command@.name,
            state.last_execution == last_execution,
            state.next_scheduled == next_scheduled,
    {
        CommandState { name: command.name.clone(), last_execution, next_scheduled }
    }

    /// The row to save for `command` with this state's instants. A command
    /// without a schedule has no row.
    ///
    /// The row reads back as it was written: [`CommandState::decode`] on its
    /// columns gives the name of the command, the same last execution, none
    /// where there was none, and the same next run.
    pub fn encode(&self, command: &CommandConfig) -> (r: Result<StateRow, ScheduleError>)
        ensures
            r.is_ok() <==> command@.descriptor().is_some(),
            r matches Err(e) ==> e == ScheduleError::MissingSchedule,
            r matches Ok(row) ==> {
                &&& row.name@ == command@.name
                &&& row.last_execution.deep_view() == match self@.last_execution {
                    Some(t) => Some(rfc3339_text(t)),
                    None => None,
                }
                &&& row.next_scheduled@ == rfc3339_text(self@.next_scheduled)
                &&& command@.descriptor() == Some(row.schedule@)
                &&& decoded(row.name@, row.last_execution.deep_view(), row.next_scheduled@)
                    == Ok::<PersistedState, StateError>(
                    PersistedState {
                        name: command@.name,
                        last_execution: self@.last_execution,
                        next_scheduled: self@.next_scheduled,
                    },
                )
            },
    {
        let schedule = ScheduleDescriptor::of(command)?;
        let last_execution = match self.last_execution {
            Some(t) => Some(t.to_rfc3339()),
            None => None,
        };
        Ok(
            StateRow {
                name: command.name.clone(),
                last_execution,
                next_scheduled: self.next_scheduled.to_rfc3339(),
                schedule,
            },
        )
    }

    /// This state, with the last execution of the state that the store
    /// holds under the same name where this one records none. A reschedule
    /// without an execution thus leaves the record of the last one in place.
    pub fn keeping_last_execution(self, stored: Option<&CommandState>) -> (state: CommandState)
        ensures
            state@.name == self@.name,
            state@.next_scheduled == self@.next_scheduled,
            state@.last_execution == match self@.last_execution {
                Some(t) => Some(t),
                None => match stored {
                    Some(s) => if s@.name == self@.name {
                        s@.last_execution
                    } else {
                        None
                    },
                    None => None,
                },
            },
    {
        let last_execution = match self.last_execution {
            Some(t) => Some(t),
            None => match stored {
                Some(s) => if s.name == self.name {
                    s.last_execution
                } else {
                    None
                },
                None => None,
            },
        };
        CommandState { name: self.name, last_execution, next_scheduled: self.next_scheduled }
    }

    /// Reads the state out of the columns of a row. The row is refused if
    /// one of its instants is not in RFC 3339 notation or lies outside the
    /// span of a `Timestamp`; `last_execution` is looked at first.
    pub fn decode(name: String, last_execution: Option<&str>, next_scheduled: &str) -> (r: Result<
        CommandState,
        StateError,
    >)
        ensures
            match r {
                Ok(state) => decoded(name@, last_execution.deep_view(), next_scheduled@) == Ok::<
                    PersistedState,
                    StateError,
                >(state@),
                Err(e) => decoded(name@, last_execution.deep_view(), next_scheduled@) == Err::<
                    PersistedState,
                    StateError,
                >(e),
            },
    {
        let last = match last_execution {
            Some(text) => match Timestamp::parse_rfc3339(text) {
                Some(t) => Some(t),
                None => {
                    return Err(StateError::BadLastExecution);
                },
            },
            None => None,
        };
        match Timestamp::parse_rfc3339(next_scheduled) {
            Some(next) => Ok(CommandState { name, last_execution: last, next_scheduled: next }),
            None => Err(StateError::BadNextScheduled),
        }
    }
}

} // verus!
