//! Settings and command specifications, and the rules a valid one obeys.

use crate::schedule::{cron_parses, cron_valid};
use vstd::prelude::*;

verus! {

/// Why a configuration is refused.
#[derive(Clone, Copy, Debug, PartialEq, Eq, Structural)]
pub enum ConfigError {
    /// `min_interval_seconds` is below 1.
    MinIntervalTooSmall,
    /// `min_interval_seconds` is above 3600.
    MinIntervalTooLarge,
    /// `max_immediate_executions` is below 1.
    MaxImmediateTooSmall,
    /// `max_immediate_executions` is above 100.
    MaxImmediateTooLarge,
    /// The command has neither an interval nor a cron expression.
    MissingSchedule,
    /// The command has both an interval and a cron expression.
    ConflictingSchedules,
    /// The command's interval is zero.
    ZeroInterval,
    /// The command's cron expression does not parse.
    InvalidCron,
}

/// Smallest accepted `min_interval_seconds`.
pub const MIN_INTERVAL_FLOOR: u64 = 1;

/// Largest accepted `min_interval_seconds`.
pub const MIN_INTERVAL_CEILING: u64 = 3600;

/// Smallest accepted `max_immediate_executions`.
pub const MAX_IMMEDIATE_FLOOR: usize = 1;

/// Largest accepted `max_immediate_executions`.
pub const MAX_IMMEDIATE_CEILING: usize = 100;

/// The pacing interval used where the configuration names none: 30 seconds.
pub fn default_min_interval_seconds() -> (seconds: u64)
    ensures
        seconds == 30,
        MIN_INTERVAL_FLOOR <= seconds <= MIN_INTERVAL_CEILING,
{
    30
}

/// The catch-up cap used where the configuration names none: 10 executions.
pub fn default_max_immediate_executions() -> (count: usize)
    ensures
        count == 10,
        MAX_IMMEDIATE_FLOOR <= count <= MAX_IMMEDIATE_CEILING,
{
    10
}

/// Settings that hold for the whole scheduler.
#[derive(Debug)]
pub struct GeneralConfig {
    pub log_level: String,
    /// Least time between two executions, of any commands, in seconds.
    pub min_interval_seconds: u64,
    /// Where the state store lives.
    pub state_path: String,
    /// Most missed commands that run at once after the machine has slept.
    pub max_immediate_executions: usize,
}

impl GeneralConfig {
    /// The verdict of [`GeneralConfig::validate`]: the first bound that is
    /// broken, in the order floor and ceiling of the pacing interval, floor
    /// and ceiling of the catch-up cap.
    pub open spec fn validation(self) -> Result<(), ConfigError> {
        if self.min_interval_seconds < MIN_INTERVAL_FLOOR {
            Err(ConfigError::MinIntervalTooSmall)
        } else if self.min_interval_seconds > MIN_INTERVAL_CEILING {
            Err(ConfigError::MinIntervalTooLarge)
        } else if self.max_immediate_executions < MAX_IMMEDIATE_FLOOR {
            Err(ConfigError::MaxImmediateTooSmall)
        } else if self.max_immediate_executions > MAX_IMMEDIATE_CEILING {
            Err(ConfigError::MaxImmediateTooLarge)
        } else {
            Ok(())
        }
    }

    /// Accepts the settings if the pacing interval lies in 1..=3600 seconds
    /// and the catch-up cap in 1..=100.
    pub fn validate(&self) -> (r: Result<(), ConfigError>)
        ensures
            r == self.validation(),
            r.is_ok() <==> MIN_INTERVAL_FLOOR <= self.min_interval_seconds <= MIN_INTERVAL_CEILING
                && MAX_IMMEDIATE_FLOOR <= self.max_immediate_executions <= MAX_IMMEDIATE_CEILING,
    {
        if self.min_interval_seconds < MIN_INTERVAL_FLOOR {
            return Err(ConfigError::MinIntervalTooSmall);
        }
        if self.min_interval_seconds > MIN_INTERVAL_CEILING {
            return Err(ConfigError::MinIntervalTooLarge);
        }
        if self.max_immediate_executions < MAX_IMMEDIATE_FLOOR {
            return Err(ConfigError::MaxImmediateTooSmall);
        }
        if self.max_immediate_executions > MAX_IMMEDIATE_CEILING {
            return Err(ConfigError::MaxImmediateTooLarge);
        }
        Ok(())
    }
}

/// One command as configured: what to run and when.
#[derive(Debug)]
pub struct CommandConfig {
    /// Unique name; the key of the command's persisted state and of its
    /// place in the queue.
    pub name: String,
    /// The shell command line.
    pub command: String,
    /// Fixed interval between runs, in milliseconds.
    pub interval_millis: Option<u64>,
    /// Cron expression that gives the runs.
    pub cron: Option<String>,
    pub max_runtime_minutes: Option<u32>,
    /// Disabled commands are never scheduled.
    pub enabled: bool,
    pub working_dir: Option<String>,
    pub environment: Option<Vec<(String, String)>>,
    /// Run once at the first start, when no state is persisted yet.
    pub immediate: bool,
}

/// The mathematical value of a [`CommandConfig`].
pub struct CommandSpec {
    pub name: Seq<char>,
    pub command: Seq<char>,
    pub interval_millis: Option<u64>,
    pub cron: Option<Seq<char>>,
    pub max_runtime_minutes: Option<u32>,
    pub enabled: bool,
    pub working_dir: Option<Seq<char>>,
    pub environment: Option<Seq<(Seq<char>, Seq<char>)>>,
    pub immediate: bool,
}

impl View for CommandConfig {
    type V = CommandSpec;

    open spec fn view(&self) -> CommandSpec {
        CommandSpec {
            name: self.name@,
            command: self.command@,
            interval_millis: self.interval_millis,
            cron: self.cron.deep_view(),
            max_runtime_minutes: self.max_runtime_minutes,
            enabled: self.enabled,
            working_dir: self.working_dir.deep_view(),
            environment: self.environment.deep_view(),
            immediate: self.immediate,
        }
    }
}

/// The values of a run of commands, in the same order.
pub open spec fn commands_of(commands: Seq<CommandConfig>) -> Seq<CommandSpec> {
    commands.map_values(|c: CommandConfig| c@)
}

impl CommandSpec {
    /// The verdict on a command whose cron expression, if it has one, parses
    /// exactly if `cron_ok`.
    pub open spec fn validation_given(self, cron_ok: bool) -> Result<(), ConfigError> {
        if self.interval_millis.is_none() && self.cron.is_none() {
            Err(ConfigError::MissingSchedule)
        } else if self.interval_millis.is_some() && self.cron.is_some() {
            Err(ConfigError::ConflictingSchedules)
        } else if self.interval_millis == Some(0u64) {
            Err(ConfigError::ZeroInterval)
        } else if self.cron.is_some() && !cron_ok {
            Err(ConfigError::InvalidCron)
        } else {
            Ok(())
        }
    }

    /// Whether the cron expression of this command parses; `true` for a
    /// command without one.
    pub open spec fn cron_ok(self) -> bool {
        match self.cron {
            Some(expr) => cron_valid(expr),
            None => true,
        }
    }

    /// The verdict of [`CommandConfig::validate`].
    pub open spec fn validation(self) -> Result<(), ConfigError> {
        self.validation_given(self.cron_ok())
    }
}

fn clone_text(text: &Option<String>) -> (copy: Option<String>)
    ensures
        copy.deep_view() == text.deep_view(),
{
    match text {
        Some(t) => Some(t.clone()),
        None => None,
    }
}

fn clone_environment(environment: &Option<Vec<(String, String)>>) -> (copy: Option<
    Vec<(String, String)>,
>)
    ensures
        copy.deep_view() == environment.deep_view(),
{
    match environment {
        Some(pairs) => {
            let mut out: Vec<(String, String)> = Vec::new();
            let mut i: usize = 0;
            while i < pairs.len()
                invariant
                    i <= pairs.len(),
                    out.len() == i,
                    forall|j: int| 0 <= j < i ==> out@[j].deep_view() == pairs@[j].deep_view(),
                decreases pairs.len() - i,
            {
                let pair = &pairs[i];
                out.push((pair.0.clone(), pair.1.clone()));
                i += 1;
            }
            assert(out.deep_view() =~= pairs.deep_view());
            Some(out)
        },
        None => None,
    }
}

impl Clone for CommandConfig {
    fn clone(&self) -> (copy: Self)
        ensures
            copy@ == self@,
    {
        CommandConfig {
            name: self.name.clone(),
            command: self.command.clone(),
            interval_millis: self.interval_millis,
            cron: clone_text(&self.cron),
            max_runtime_minutes: self.max_runtime_minutes,
            enabled: self.enabled,
            working_dir: clone_text(&self.working_dir),
            environment: clone_environment(&self.environment),
            immediate: self.immediate,
        }
    }
}

impl CommandConfig {
    /// The verdict on this command, given whether its cron expression
    /// parses. `cron_ok` is not read for a command without one.
    pub fn validate_given(&self, cron_ok: bool) -> (r: Result<(), ConfigError>)
        ensures
            r == self@.validation_given(cron_ok),
    {
        if self.interval_millis.is_none() && self.cron.is_none() {
            return Err(ConfigError::MissingSchedule);
        }
        if self.interval_millis.is_some() && self.cron.is_some() {
            return Err(ConfigError::ConflictingSchedules);
        }
        match self.interval_millis {
            Some(interval) => {
                if interval == 0 {
                    return Err(ConfigError::ZeroInterval);
                }
            },
            None => {},
        }
        if self.cron.is_some() && !cron_ok {
            return Err(ConfigError::InvalidCron);
        }
        Ok(())
    }

    /// Accepts the command if it has exactly one schedule, either an
    /// interval that is not zero or a cron expression that parses.
    pub fn validate(&self) -> (r: Result<(), ConfigError>)
        ensures
            r == self@.validation(),
            r.is_ok() <==> (self@.interval_millis.is_some() != self@.cron.is_some())
                && self@.interval_millis != Some(0u64) && self@.cron_ok(),
    {
        let cron_ok = match &self.cron {
            Some(expr) => cron_parses(expr.as_str()),
            None => true,
        };
        self.validate_given(cron_ok)
    }
}

} // verus!
