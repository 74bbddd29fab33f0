//! When a command runs next: a fixed interval after now, or at the next
//! occurrence of its cron expression.

use crate::config::{CommandConfig, CommandSpec};
use crate::time::{Timestamp, MAX_MILLIS, MIN_MILLIS};
use std::str::FromStr;
use vstd::prelude::*;

verus! {

/// Why no next run can be given for a command.
#[derive(Clone, Copy, Debug, PartialEq, Eq, Structural)]
pub enum ScheduleError {
    /// The command has neither an interval nor a cron expression.
    MissingSchedule,
    /// The cron expression does not parse.
    InvalidCron,
    /// The cron expression has no occurrence after the given instant.
    NoUpcomingRun,
    /// The next run lies outside the span that a `Timestamp` holds.
    TimeOutOfRange,
    /// The command is disabled; a scheduler never schedules it.
    Disabled,
}

/// Name for whether `cron::Schedule::from_str` accepts `expr`.
pub uninterp spec fn cron_valid(expr: Seq<char>) -> bool;

/// Name for the first instant that `cron::Schedule::after` yields for the
/// schedule parsed from `expr` and the start `after`, both instants in
/// milliseconds since the Unix epoch; `None` where the expression does not
/// parse or the iterator yields nothing.
pub uninterp spec fn cron_upcoming(expr: Seq<char>, after: int) -> Option<int>;

/// Calls `cron::Schedule::from_str` and reports whether it succeeded. The
/// contract only gives the answer its name.
#[verifier::external_body]
pub(crate) fn cron_parses(expr: &str) -> (ok: bool)
    ensures
        ok == cron_valid(expr@),
{
    cron::Schedule::from_str(expr).is_ok()
}

/// Parses `expr` with `cron::Schedule::from_str`, starts
/// `cron::Schedule::after` in UTC at the instant `after` milliseconds
/// after the Unix epoch, and takes the first item of the iterator, as
/// `timestamp_millis`.
///
/// The contract gives the outcome its name and claims one fact of it: an
/// instant that comes out is later than `after`. The iterator searches from
/// one second past its start, cut to the whole second, so it cannot yield
/// the start or anything before it. Within the bounds required that second
/// can be added and `from_timestamp_millis` has a value.
#[verifier::external_body]
fn cron_first_after(expr: &str, after: i64) -> (next: Option<i64>)
    requires
        MIN_MILLIS <= after <= MAX_MILLIS,
    ensures
        match next {
            Some(t) => cron_upcoming(expr@, after as int) == Some(t as int) && t > after,
            None => cron_upcoming(expr@, after as int).is_none(),
        },
{
    let schedule = cron::Schedule::from_str(expr).ok()?;
    let start = chrono::DateTime::from_timestamp_millis(after)?;
    schedule.after(&start).next().map(|t| t.timestamp_millis())
}

impl CommandSpec {
    /// The next run of this command after `now`, given whether its cron
    /// expression parses and which occurrence follows `now`.
    ///
    /// An interval takes precedence over a cron expression; validation
    /// refuses a command that has both.
    pub open spec fn next_run_given(self, now: int, cron_ok: bool, upcoming: Option<int>) -> Result<
        int,
        ScheduleError,
    > {
        if let Some(interval) = self.interval_millis {
            if now + interval <= MAX_MILLIS {
                Ok(now + interval)
            } else {
                Err(ScheduleError::TimeOutOfRange)
            }
        } else if self.cron.is_some() {
            if !cron_ok {
                Err(ScheduleError::InvalidCron)
            } else {
                match upcoming {
                    Some(t) => if MIN_MILLIS <= t <= MAX_MILLIS {
                        Ok(t)
                    } else {
                        Err(ScheduleError::TimeOutOfRange)
                    },
                    None => Err(ScheduleError::NoUpcomingRun),
                }
            }
        } else {
            Err(ScheduleError::MissingSchedule)
        }
    }

    /// The occurrence of this command's cron expression that follows `now`;
    /// `None` for a command without one.
    pub open spec fn upcoming(self, now: int) -> Option<int> {
        match self.cron {
            Some(expr) => cron_upcoming(expr, now),
            None => None,
        }
    }

    /// The next run of this command after `now`: `now` plus the interval, or
    /// the first occurrence of the cron expression after `now`.
    pub open spec fn next_run(self, now: int) -> Result<int, ScheduleError> {
        self.next_run_given(now, self.cron_ok(), self.upcoming(now))
    }
}

/// Whether `r` is the exec form of the spec-level outcome `expected`.
pub open spec fn same_outcome(r: Result<Timestamp, ScheduleError>, expected: Result<
    int,
    ScheduleError,
>) -> bool {
    match r {
        Ok(t) => expected == Ok::<int, ScheduleError>(t@),
        Err(e) => expected == Err::<int, ScheduleError>(e),
    }
}

/// The next run of `command` after `now`, given whether its cron expression
/// parses (`cron_ok`) and the occurrence that follows `now` (`upcoming`, in
/// milliseconds since the Unix epoch). Neither is read for a command with an
/// interval.
pub fn next_run_given(
    command: &CommandConfig,
    now: Timestamp,
    cron_ok: bool,
    upcoming: Option<i64>,
) -> (r: Result<Timestamp, ScheduleError>)
    ensures
        same_outcome(
            r,
            command@.next_run_given(
                now@,
                cron_ok,
                match upcoming {
                    Some(t) => Some(t as int),
                    None => None,
                },
            ),
        ),
{
    match command.interval_millis {
        Some(interval) => match now.checked_add_millis(interval) {
            Some(t) => Ok(t),
            None => Err(ScheduleError::TimeOutOfRange),
        },
        None => {
            if command.cron.is_none() {
                Err(ScheduleError::MissingSchedule)
            } else if !cron_ok {
                Err(ScheduleError::InvalidCron)
            } else {
                match upcoming {
                    Some(t) => match Timestamp::from_millis(t) {
                        Some(next) => Ok(next),
                        None => Err(ScheduleError::TimeOutOfRange),
                    },
                    None => Err(ScheduleError::NoUpcomingRun),
                }
            }
        },
    }
}

/// The next run of `command` after `now`.
///
/// With an interval it is `now` plus the interval, exactly. With a cron
/// expression it is the first occurrence after `now`, which is later than
/// `now`. It fails where the command has no schedule, the expression does
/// not parse or has no further occurrence, or the result lies beyond the
/// span of a `Timestamp`.
pub fn next_run(command: &CommandConfig, now: Timestamp) -> (r: Result<Timestamp, ScheduleError>)
    ensures
        same_outcome(r, command@.next_run(now@)),
        command@.interval_millis matches Some(interval) ==> (r.is_ok() <==> now@ + interval
            <= MAX_MILLIS),
        command@.interval_millis matches Some(interval) ==> (r matches Ok(t) ==> t@ == now@
            + interval),
        command@.interval_millis.is_none() ==> (r matches Ok(t) ==> t@ > now@),
{
    match &command.cron {
        Some(expr) => {
            if command.interval_millis.is_some() {
                next_run_given(command, now, true, None)
            } else if cron_parses(expr.as_str()) {
                let upcoming = cron_first_after(expr.as_str(), now.millis());
                next_run_given(command, now, true, upcoming)
            } else {
                next_run_given(command, now, false, None)
            }
        },
        None => next_run_given(command, now, true, None),
    }
}

} // verus!
