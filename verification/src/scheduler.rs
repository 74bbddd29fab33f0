//! The scheduler: start-up from persisted state, catch-up after the machine
//! has slept, pacing, and the decision what to do next.
//!
//! The scheduler never waits and never runs a command itself. It is told
//! the time, answers with what is to be done, and is told how it went.

use crate::config::{
    commands_of, CommandConfig, CommandSpec, ConfigError, MAX_IMMEDIATE_CEILING,
    MAX_IMMEDIATE_FLOOR, MIN_INTERVAL_CEILING, MIN_INTERVAL_FLOOR,
};
use crate::executor::ExecutionOutcome;
use crate::queue::{
    due_count, entries_of, lemma_due_count, lemma_with_entry, well_formed, with_entry,
    ScheduledCommand, ScheduledEntry, ScheduledQueue,
};
use crate::schedule::{next_run, same_outcome, ScheduleError};
use crate::state::{states_of, CommandState, PersistedState};
use crate::time::Timestamp;
use vstd::prelude::*;

verus! {

/// A gap of more than this between two turns of the loop, in milliseconds,
/// is taken for a sleep of the machine: 5 minutes.
pub const SLEEP_THRESHOLD_MILLIS: i64 = 300_000;

/// How long to sleep when nothing is pending, in milliseconds: 60 seconds.
pub const IDLE_BACKOFF_MILLIS: u64 = 60_000;

/// How long to wait for one execution, in milliseconds: 300 seconds.
pub const EXECUTION_TIMEOUT_MILLIS: u64 = 300_000;

/// The longest wait for a command that is not yet due, in milliseconds: one
/// hour, so that a sleep of the machine is noticed in time.
pub const WAIT_CEILING_MILLIS: i64 = 3_600_000;

/// What the loop is to do next.
#[derive(Debug)]
pub enum Action {
    /// Nothing is pending: sleep and look again.
    Idle { sleep_millis: u64 },
    /// The last execution is too recent: sleep for the rest of the pacing
    /// interval and look again.
    Pacing { sleep_millis: u64 },
    /// The earliest command is not yet due: sleep and look again.
    Waiting { sleep_millis: u64 },
    /// Run this command, and give up the wait after the timeout.
    Execute { command: CommandConfig, timeout_millis: u64 },
}

/// The mathematical value of an [`Action`].
pub enum ActionSpec {
    Idle { sleep_millis: int },
    Pacing { sleep_millis: int },
    Waiting { sleep_millis: int },
    Execute { command: CommandSpec, timeout_millis: int },
}

impl View for Action {
    type V = ActionSpec;

    open spec fn view(&self) -> ActionSpec {
        match self {
            Action::Idle { sleep_millis } => ActionSpec::Idle { sleep_millis: *sleep_millis as int },
            Action::Pacing { sleep_millis } => ActionSpec::Pacing {
                sleep_millis: *sleep_millis as int,
            },
            Action::Waiting { sleep_millis } => ActionSpec::Waiting {
                sleep_millis: *sleep_millis as int,
            },
            Action::Execute { command, timeout_millis } => ActionSpec::Execute {
                command: command@,
                timeout_millis: *timeout_millis as int,
            },
        }
    }
}

/// A command that could not be given a next run, with the reason.
#[derive(Debug)]
pub struct Unschedulable {
    pub command: CommandConfig,
    pub error: ScheduleError,
}

/// The mathematical value of an [`Unschedulable`].
pub struct UnschedulableSpec {
    pub command: CommandSpec,
    pub error: ScheduleError,
}

impl View for Unschedulable {
    type V = UnschedulableSpec;

    open spec fn view(&self) -> UnschedulableSpec {
        UnschedulableSpec { command: self.command@, error: self.error }
    }
}

/// The values of a run of unschedulable commands, in the same order.
pub open spec fn unschedulable_of(dropped: Seq<Unschedulable>) -> Seq<UnschedulableSpec> {
    dropped.map_values(|u: Unschedulable| u@)
}

/// What is to be done after a turn of the loop has looked for a sleep of
/// the machine.
#[derive(Debug)]
pub struct CatchUp {
    /// Whether a sleep was detected.
    pub detected: bool,
    /// Missed commands to run at once, the earliest due first. Each is out
    /// of the queue until its execution is reported.
    pub execute: Vec<CommandConfig>,
    /// Missed commands beyond the cap, back in the queue at their next
    /// regular run without having run.
    pub rescheduled: Vec<ScheduledCommand>,
    /// Missed commands beyond the cap that have no next run, and are out of
    /// the queue.
    pub dropped: Vec<Unschedulable>,
}

/// The mathematical value of a [`CatchUp`].
pub struct CatchUpSpec {
    pub detected: bool,
    pub execute: Seq<CommandSpec>,
    pub rescheduled: Seq<ScheduledEntry>,
    pub dropped: Seq<UnschedulableSpec>,
}

impl View for CatchUp {
    type V = CatchUpSpec;

    open spec fn view(&self) -> CatchUpSpec {
        CatchUpSpec {
            detected: self.detected,
            execute: commands_of(self.execute@),
            rescheduled: entries_of(self.rescheduled@),
            dropped: unschedulable_of(self.dropped@),
        }
    }
}

/// Every entry is a command that is enabled.
pub open spec fn all_enabled(q: Seq<ScheduledEntry>) -> bool {
    forall|i: int| 0 <= i < q.len() ==> (#[trigger] q[i]).command.enabled
}

/// Scheduling an enabled command among enabled commands leaves only
/// enabled commands.
pub proof fn lemma_with_entry_enabled(q: Seq<ScheduledEntry>, e: ScheduledEntry)
    requires
        well_formed(q),
        all_enabled(q),
        e.command.enabled,
    ensures
        all_enabled(with_entry(q, e)),
{
    lemma_with_entry(q, e);
    let r = with_entry(q, e);
    assert forall|i: int| 0 <= i < r.len() implies (#[trigger] r[i]).command.enabled by {
        if r[i] != e {
            assert(q.contains(r[i]));
        }
    }
}

/// Every entry stands at `now` or later, and an entry of a command with a
/// cron expression in place of an interval stands later than `now`.
pub open spec fn all_upcoming(q: Seq<ScheduledEntry>, now: int) -> bool {
    forall|i: int|
        0 <= i < q.len() ==> (#[trigger] q[i]).next_run >= now && (
        q[i].command.interval_millis.is_none() ==> q[i].next_run > now)
}

/// Every entry under whose name nothing is persisted stands later than
/// `now`.
pub open spec fn fresh_after(q: Seq<ScheduledEntry>, states: Seq<PersistedState>, now: int) -> bool {
    forall|i: int|
        0 <= i < q.len() && persisted_next_run(states, (#[trigger] q[i]).command.name).is_none()
            ==> q[i].next_run > now
}

/// A queue with what became of the commands that were rescheduled into it.
pub struct Rescheduling {
    pub queue: Seq<ScheduledEntry>,
    pub rescheduled: Seq<ScheduledEntry>,
    pub dropped: Seq<UnschedulableSpec>,
}

/// Gives each of `skipped`, in order, its next run after `now` and
/// schedules it in `queue`; one that has no next run is dropped.
pub open spec fn reschedule_all(queue: Seq<ScheduledEntry>, skipped: Seq<ScheduledEntry>, now: int)
    -> Rescheduling
    decreases skipped.len(),
{
    if skipped.len() == 0 {
        Rescheduling { queue, rescheduled: Seq::empty(), dropped: Seq::empty() }
    } else {
        let done = reschedule_all(queue, skipped.drop_last(), now);
        let command = skipped.last().command;
        match command.next_run(now) {
            Ok(t) => {
                let entry = ScheduledEntry { command, next_run: t };
                Rescheduling {
                    queue: with_entry(done.queue, entry),
                    rescheduled: done.rescheduled.push(entry),
                    dropped: done.dropped,
                }
            },
            Err(error) => Rescheduling {
                queue: done.queue,
                rescheduled: done.rescheduled,
                dropped: done.dropped.push(UnschedulableSpec { command, error }),
            },
        }
    }
}

/// How long to sleep for a command that is due in `until` milliseconds:
/// until it is due, but no more than an hour.
pub open spec fn wait_millis(until: int) -> int {
    if until > WAIT_CEILING_MILLIS {
        WAIT_CEILING_MILLIS as int
    } else {
        until
    }
}

/// `value`, or the nearer of the two bounds if it lies outside them.
pub open spec fn clamped(value: int, floor: int, ceiling: int) -> int {
    if value < floor {
        floor
    } else if value > ceiling {
        ceiling
    } else {
        value
    }
}

/// The state of a scheduler, as mathematics; instants are in milliseconds
/// since the Unix epoch.
pub struct SchedulerState {
    /// The pending commands, the earliest due first.
    pub queue: Seq<ScheduledEntry>,
    /// When the loop last started an execution, of any command.
    pub last_execution: Option<int>,
    /// When the loop last looked for a sleep of the machine.
    pub last_wake: Option<int>,
    /// Least time between two executions of the loop, in seconds.
    pub min_interval_seconds: int,
    /// Most missed commands that run at once after a sleep.
    pub max_immediate: int,
}

impl SchedulerState {
    /// What holds of every scheduler: the queue is ordered with unique
    /// names and holds no disabled command, and the two settings lie within
    /// their bounds.
    pub open spec fn wf(self) -> bool {
        &&& well_formed(self.queue)
        &&& all_enabled(self.queue)
        &&& MIN_INTERVAL_FLOOR <= self.min_interval_seconds <= MIN_INTERVAL_CEILING
        &&& MAX_IMMEDIATE_FLOOR <= self.max_immediate <= MAX_IMMEDIATE_CEILING
    }

    /// How much of the pacing interval is still to pass at `now`: positive
    /// while the last execution is too recent.
    pub open spec fn pacing_deficit(self, now: int) -> int {
        match self.last_execution {
            Some(t) => self.min_interval_seconds * 1000 - (now - t),
            None => 0,
        }
    }

    /// What the loop is to do at `now`.
    pub open spec fn next_action(self, now: int) -> ActionSpec {
        if self.queue.len() == 0 {
            ActionSpec::Idle { sleep_millis: IDLE_BACKOFF_MILLIS as int }
        } else if self.pacing_deficit(now) > 0 {
            ActionSpec::Pacing { sleep_millis: self.pacing_deficit(now) }
        } else if self.queue[0].next_run <= now {
            ActionSpec::Execute {
                command: self.queue[0].command,
                timeout_millis: EXECUTION_TIMEOUT_MILLIS as int,
            }
        } else {
            ActionSpec::Waiting { sleep_millis: wait_millis(self.queue[0].next_run - now) }
        }
    }

    /// The state after the loop has been told what to do at `now`: a command
    /// to execute has left the queue and `now` is the last execution;
    /// otherwise nothing has changed.
    pub open spec fn after_action(self, now: int) -> SchedulerState {
        if self.next_action(now) is Execute {
            SchedulerState { queue: self.queue.skip(1), last_execution: Some(now), ..self }
        } else {
            self
        }
    }

    /// Whether the machine is taken to have slept before `now`: more than
    /// five minutes have passed since the last look, and since the last
    /// execution if there was one.
    pub open spec fn slept(self, now: int) -> bool {
        match self.last_wake {
            Some(w) => now - w > SLEEP_THRESHOLD_MILLIS && match self.last_execution {
                Some(t) => now - t > SLEEP_THRESHOLD_MILLIS,
                None => true,
            },
            None => false,
        }
    }

    /// The entries whose run lies before `now`.
    pub open spec fn missed(self, now: int) -> Seq<ScheduledEntry> {
        self.queue.take(due_count(self.queue, now - 1) as int)
    }

    /// The entries whose run lies at `now` or later.
    pub open spec fn future(self, now: int) -> Seq<ScheduledEntry> {
        self.queue.skip(due_count(self.queue, now - 1) as int)
    }

    /// How many of the missed entries run at once: all of them, up to the
    /// cap.
    pub open spec fn immediate_count(self, now: int) -> int {
        if self.missed(now).len() <= self.max_immediate {
            self.missed(now).len() as int
        } else {
            self.max_immediate
        }
    }

    /// The missed entries beyond the cap.
    pub open spec fn skipped(self, now: int) -> Seq<ScheduledEntry> {
        self.missed(now).skip(self.immediate_count(now))
    }

    /// What a look for a sleep of the machine at `now` asks for.
    pub open spec fn catch_up(self, now: int) -> CatchUpSpec {
        if self.slept(now) {
            let done = reschedule_all(self.future(now), self.skipped(now), now);
            CatchUpSpec {
                detected: true,
                execute: self.missed(now).take(self.immediate_count(now)).map_values(
                    |e: ScheduledEntry| e.command,
                ),
                rescheduled: done.rescheduled,
                dropped: done.dropped,
            }
        } else {
            CatchUpSpec {
                detected: false,
                execute: Seq::empty(),
                rescheduled: Seq::empty(),
                dropped: Seq::empty(),
            }
        }
    }

    /// The state after a look for a sleep of the machine at `now`.
    pub open spec fn after_wake(self, now: int) -> SchedulerState {
        if self.slept(now) {
            SchedulerState {
                queue: reschedule_all(self.future(now), self.skipped(now), now).queue,
                last_wake: Some(now),
                ..self
            }
        } else {
            SchedulerState { last_wake: Some(now), ..self }
        }
    }

    /// The run at which a scheduler places `command` after `now`: its next
    /// run, and none for a disabled command.
    pub open spec fn placement(command: CommandSpec, now: int) -> Result<int, ScheduleError> {
        if command.enabled {
            command.next_run(now)
        } else {
            Err(ScheduleError::Disabled)
        }
    }

    /// The state after `command` has been given its next run after `now`:
    /// it stands in the queue at that run, or, if it has none, nothing has
    /// changed.
    pub open spec fn rescheduled(self, command: CommandSpec, now: int) -> SchedulerState {
        match SchedulerState::placement(command, now) {
            Ok(t) => SchedulerState {
                queue: with_entry(self.queue, ScheduledEntry { command, next_run: t }),
                ..self
            },
            Err(_) => self,
        }
    }
}

/// Why a scheduler cannot be started.
#[derive(Clone, Copy, Debug, PartialEq, Eq, Structural)]
pub enum BootstrapError {
    /// The enabled command at `index` is not valid.
    Invalid { index: usize, error: ConfigError },
    /// The enabled command at `index` has no persisted state and no next
    /// run.
    Unschedulable { index: usize, reason: ScheduleError },
}

/// What a start leaves: the queue, and the commands to run once right away.
pub struct Bootstrapped {
    pub queue: Seq<ScheduledEntry>,
    pub immediate: Seq<CommandSpec>,
}

/// The `next_scheduled` of the last of `states` that bears `name`.
pub open spec fn persisted_next_run(states: Seq<PersistedState>, name: Seq<char>) -> Option<int>
    decreases states.len(),
{
    if states.len() == 0 {
        None
    } else if states.last().name == name {
        Some(states.last().next_scheduled)
    } else {
        persisted_next_run(states.drop_last(), name)
    }
}

/// Starts from `commands` and the persisted `states` at `now`, command by
/// command in order.
///
/// A disabled command is passed over. An enabled one must be valid. If a
/// state is persisted under its name, it is scheduled at that state's
/// `next_scheduled`. If none is, it is scheduled at its next run after
/// `now`, and runs once right away if it is marked `immediate`. The first
/// command that is not valid or has no next run ends the start.
pub open spec fn bootstrap(commands: Seq<CommandSpec>, states: Seq<PersistedState>, now: int)
    -> Result<Bootstrapped, BootstrapError>
    decreases commands.len(),
{
    if commands.len() == 0 {
        Ok(Bootstrapped { queue: Seq::empty(), immediate: Seq::empty() })
    } else {
        let command = commands.last();
        let index = (commands.len() - 1) as usize;
        match bootstrap(commands.drop_last(), states, now) {
            Err(e) => Err(e),
            Ok(done) => if !command.enabled {
                Ok(done)
            } else {
                match command.validation() {
                    Err(error) => Err(BootstrapError::Invalid { index, error }),
                    Ok(_) => match persisted_next_run(states, command.name) {
                        Some(t) => Ok(
                            Bootstrapped {
                                queue: with_entry(
                                    done.queue,
                                    ScheduledEntry { command, next_run: t },
                                ),
                                immediate: done.immediate,
                            },
                        ),
                        None => match command.next_run(now) {
                            Err(reason) => Err(BootstrapError::Unschedulable { index, reason }),
                            Ok(t) => Ok(
                                Bootstrapped {
                                    queue: with_entry(
                                        done.queue,
                                        ScheduledEntry { command, next_run: t },
                                    ),
                                    immediate: if command.immediate {
                                        done.immediate.push(command)
                                    } else {
                                        done.immediate
                                    },
                                },
                            ),
                        },
                    },
                }
            },
        }
    }
}

/// A start that has failed at some command fails in the same way however
/// many commands follow.
pub proof fn lemma_bootstrap_error_stays(
    commands: Seq<CommandSpec>,
    states: Seq<PersistedState>,
    now: int,
    n: int,
)
    requires
        0 <= n <= commands.len(),
        bootstrap(commands.take(n), states, now).is_err(),
    ensures
        bootstrap(commands, states, now) == bootstrap(commands.take(n), states, now),
    decreases commands.len() - n,
{
    if n == commands.len() {
        assert(commands.take(n) =~= commands);
    } else {
        assert(commands.drop_last().take(n) =~= commands.take(n));
        lemma_bootstrap_error_stays(commands.drop_last(), states, now, n);
    }
}

/// The scheduler: the queue of pending commands, the pacing interval and
/// the catch-up cap, and when it last executed and last looked.
#[derive(Debug)]
pub struct Scheduler {
    commands: ScheduledQueue,
    min_interval_seconds: u64,
    max_immediate_executions: usize,
    last_execution_time: Option<Timestamp>,
    last_wake_time: Option<Timestamp>,
}

/// A started scheduler, with the commands to run once right away, apart
/// from the queue.
#[derive(Debug)]
pub struct Bootstrap {
    pub scheduler: Scheduler,
    pub immediate: Vec<CommandConfig>,
}

impl View for Scheduler {
    type V = SchedulerState;

    closed spec fn view(&self) -> SchedulerState {
        SchedulerState {
            queue: self.commands@,
            last_execution: match self.last_execution_time {
                Some(t) => Some(t@),
                None => None,
            },
            last_wake: match self.last_wake_time {
                Some(t) => Some(t@),
                None => None,
            },
            min_interval_seconds: self.min_interval_seconds as int,
            max_immediate: self.max_immediate_executions as int,
        }
    }
}

/// The last of `states` that bears `name`, if there is one.
fn find_state<'a>(states: &'a Vec<CommandState>, name: &String) -> (r: Option<&'a CommandState>)
    ensures
        match r {
            Some(s) => persisted_next_run(states_of(states@), name@) == Some(s@.next_scheduled),
            None => persisted_next_run(states_of(states@), name@).is_none(),
        },
{
    let ghost all = states_of(states@);
    let mut i: usize = states.len();
    assert(all.take(i as int) =~= all);
    while i > 0
        invariant
            i <= states.len(),
            all == states_of(states@),
            persisted_next_run(all, name@) == persisted_next_run(all.take(i as int), name@),
        decreases i,
    {
        let ghost prefix = all.take(i as int);
        assert(prefix.last() == states@[i - 1]@);
        assert(prefix.drop_last() =~= all.take(i - 1));
        if states[i - 1].name == *name {
            return Some(&states[i - 1]);
        }
        i -= 1;
    }
    None
}

impl Scheduler {
    /// What holds of every scheduler.
    pub open spec fn wf(&self) -> bool {
        self@.wf()
    }

    /// Starts a scheduler at `now` from the configured `commands` and the
    /// persisted `states`.
    ///
    /// The queue holds each enabled command: at the `next_scheduled` of its
    /// persisted state if it has one, else at its next run after `now`.
    /// The commands handed back are those to run once right away: enabled,
    /// marked `immediate`, and without persisted state. A run that is
    /// computed afresh lies after `now`, so such a command does not run in
    /// the loop before that. The two settings are brought within their
    /// bounds. Nothing has been executed yet, and `now` is the last look.
    pub fn new(
        commands: Vec<CommandConfig>,
        states: &Vec<CommandState>,
        min_interval_seconds: u64,
        max_immediate_executions: usize,
        now: Timestamp,
    ) -> (r: Result<Bootstrap, BootstrapError>)
        ensures
            match r {
                Ok(b) => {
                    &&& bootstrap(commands_of(commands@), states_of(states@), now@) == Ok::<
                        Bootstrapped,
                        BootstrapError,
                    >(
                        Bootstrapped {
                            queue: b.scheduler@.queue,
                            immediate: commands_of(b.immediate@),
                        },
                    )
                    &&& b.scheduler.wf()
                    &&& fresh_after(b.scheduler@.queue, states_of(states@), now@)
                    &&& b.scheduler@.last_execution.is_none()
                    &&& b.scheduler@.last_wake == Some(now@)
                    &&& b.scheduler@.min_interval_seconds == clamped(
                        min_interval_seconds as int,
                        MIN_INTERVAL_FLOOR as int,
                        MIN_INTERVAL_CEILING as int,
                    )
                    &&& b.scheduler@.max_immediate == clamped(
                        max_immediate_executions as int,
                        MAX_IMMEDIATE_FLOOR as int,
                        MAX_IMMEDIATE_CEILING as int,
                    )
                },
                Err(e) => bootstrap(commands_of(commands@), states_of(states@), now@) == Err::<
                    Bootstrapped,
                    BootstrapError,
                >(e),
            },
    {
        let ghost all = commands_of(commands@);
        let ghost rows = states_of(states@);
        let mut queue = ScheduledQueue::new();
        let mut immediate: Vec<CommandConfig> = Vec::new();
        let mut i: usize = 0;
        assert(all.take(0) =~= Seq::<CommandSpec>::empty());
        assert(commands_of(immediate@) =~= Seq::<CommandSpec>::empty());
        while i < commands.len()
            invariant
                i <= commands.len(),
                all == commands_of(commands@),
                rows == states_of(states@),
                queue.wf(),
                all_enabled(queue@),
                fresh_after(queue@, rows, now@),
                bootstrap(all.take(i as int), rows, now@) == Ok::<Bootstrapped, BootstrapError>(
                    Bootstrapped { queue: queue@, immediate: commands_of(immediate@) },
                ),
            decreases commands.len() - i,
        {
            let command = &commands[i];
            let ghost prefix = all.take(i + 1);
            let ghost before = commands_of(immediate@);
            proof {
                assert(prefix.drop_last() =~= all.take(i as int));
                assert(prefix.last() == command@);
            }
            if command.enabled {
                match command.validate() {
                    Err(error) => {
                        proof {
                            lemma_bootstrap_error_stays(all, rows, now@, i + 1);
                        }
                        return Err(BootstrapError::Invalid { index: i, error });
                    },
                    Ok(_) => {},
                }
                let at = match find_state(states, &command.name) {
                    Some(state) => state.next_scheduled,
                    None => match next_run(command, now) {
                        Ok(t) => {
                            if command.immediate {
                                immediate.push(command.clone());
                                assert(commands_of(immediate@) =~= before.push(command@));
                            }
                            t
                        },
                        Err(reason) => {
                            proof {
                                lemma_bootstrap_error_stays(all, rows, now@, i + 1);
                            }
                            return Err(BootstrapError::Unschedulable { index: i, reason });
                        },
                    },
                };
                let ghost entry = ScheduledEntry { command: command@, next_run: at@ };
                let ghost pending = queue@;
                proof {
                    assert(persisted_next_run(rows, command@.name).is_none() ==> at@ > now@);
                    lemma_with_entry_enabled(pending, entry);
                    lemma_with_entry(pending, entry);
                    let after = with_entry(pending, entry);
                    assert forall|k: int|
                        0 <= k < after.len() && persisted_next_run(
                            rows,
                            (#[trigger] after[k]).command.name,
                        ).is_none() implies after[k].next_run > now@ by {
                        if after[k] != entry {
                            let k0 = choose|k0: int| 0 <= k0 < pending.len() && pending[k0] == after[k];
                            assert(pending[k0].next_run > now@);
                        }
                    }
                }
                queue.push(ScheduledCommand { command: command.clone(), next_run: at });
            }
            i += 1;
        }
        assert(all.take(i as int) =~= all);
        let floor_interval = if min_interval_seconds < MIN_INTERVAL_FLOOR {
            MIN_INTERVAL_FLOOR
        } else if min_interval_seconds > MIN_INTERVAL_CEILING {
            MIN_INTERVAL_CEILING
        } else {
            min_interval_seconds
        };
        let cap = if max_immediate_executions < MAX_IMMEDIATE_FLOOR {
            MAX_IMMEDIATE_FLOOR
        } else if max_immediate_executions > MAX_IMMEDIATE_CEILING {
            MAX_IMMEDIATE_CEILING
        } else {
            max_immediate_executions
        };
        Ok(
            Bootstrap {
                scheduler: Scheduler {
                    commands: queue,
                    min_interval_seconds: floor_interval,
                    max_immediate_executions: cap,
                    last_execution_time: None,
                    last_wake_time: Some(now),
                },
                immediate,
            },
        )
    }

    /// Gives `command` its next run after `now` and schedules it there. A
    /// command that is disabled or has no next run is not scheduled.
    pub fn schedule_next_run(&mut self, command: CommandConfig, now: Timestamp) -> (r: Result<
        Timestamp,
        ScheduleError,
    >)
        requires
            old(self).wf(),
        ensures
            final(self).wf(),
            same_outcome(r, SchedulerState::placement(command@, now@)),
            final(self)@ == old(self)@.rescheduled(command@, now@),
            command@.interval_millis.is_none() ==> (r matches Ok(t) ==> t@ > now@),
    {
        if !command.enabled {
            return Err(ScheduleError::Disabled);
        }
        match next_run(&command, now) {
            Ok(t) => {
                proof {
                    lemma_with_entry_enabled(
                        self.commands@,
                        ScheduledEntry { command: command@, next_run: t@ },
                    );
                }
                self.commands.push(ScheduledCommand { command, next_run: t });
                Ok(t)
            },
            Err(e) => Err(e),
        }
    }

    /// Looks at `now` whether the machine has slept, and catches up if so.
    ///
    /// After a sleep the entries whose run lies before `now` leave the
    /// queue. As many of them as the cap allows, the earliest due first, are
    /// handed back to run at once. The others go back into the queue at
    /// their next run after `now` without running; that run is not before
    /// `now`, and with a cron expression it is later than `now`. Entries not
    /// yet due stay as they are. `now` becomes the last look in either case.
    pub fn handle_sleep_resume(&mut self, now: Timestamp) -> (r: CatchUp)
        requires
            old(self).wf(),
        ensures
            final(self).wf(),
            r@ == old(self)@.catch_up(now@),
            final(self)@ == old(self)@.after_wake(now@),
            all_upcoming(r@.rescheduled, now@),
    {
        let ghost pre = self@;
        let slept = match self.last_wake_time {
            Some(w) => now.millis_since(w) > SLEEP_THRESHOLD_MILLIS
                && match self.last_execution_time {
                Some(t) => now.millis_since(t) > SLEEP_THRESHOLD_MILLIS,
                None => true,
            },
            None => false,
        };
        let mut execute: Vec<CommandConfig> = Vec::new();
        let mut rescheduled: Vec<ScheduledCommand> = Vec::new();
        let mut dropped: Vec<Unschedulable> = Vec::new();
        assert(commands_of(execute@) =~= Seq::<CommandSpec>::empty());
        assert(entries_of(rescheduled@) =~= Seq::<ScheduledEntry>::empty());
        assert(unschedulable_of(dropped@) =~= Seq::<UnschedulableSpec>::empty());
        if slept {
            let missed = self.commands.take_due_before(now);
            let ghost missed_spec = pre.missed(now@);
            let ghost future = pre.future(now@);
            assert(entries_of(missed@) == missed_spec);
            assert(missed@.len() == missed_spec.len());
            let count = if missed.len() <= self.max_immediate_executions {
                missed.len()
            } else {
                self.max_immediate_executions
            };
            assert(count == pre.immediate_count(now@));
            let mut i: usize = 0;
            while i < count
                invariant
                    i <= count <= missed.len(),
                    entries_of(missed@) == missed_spec,
                    commands_of(execute@) == missed_spec.take(i as int).map_values(
                        |e: ScheduledEntry| e.command,
                    ),
                decreases count - i,
            {
                let ghost sofar = commands_of(execute@);
                execute.push(missed[i].command.clone());
                assert(missed_spec[i as int] == missed@[i as int]@);
                assert(commands_of(execute@) =~= sofar.push(missed_spec[i as int].command));
                assert(commands_of(execute@) =~= missed_spec.take(i + 1).map_values(
                    |e: ScheduledEntry| e.command,
                ));
                i += 1;
            }
            let ghost skipped = missed_spec.skip(count as int);
            assert(skipped == pre.skipped(now@));
            proof {
                lemma_due_count(pre.queue, now@ - 1);
            }
            assert forall|k: int| 0 <= k < missed_spec.len() implies (
            #[trigger] missed_spec[k]).command.enabled by {
                assert(missed_spec[k] == pre.queue[k]);
            }
            assert forall|k: int| 0 <= k < future.len() implies (
            #[trigger] future[k]).command.enabled by {
                assert(future[k] == pre.queue[k + due_count(pre.queue, now@ - 1)]);
            }
            assert(skipped.take(0) =~= Seq::<ScheduledEntry>::empty());
            let mut j: usize = count;
            while j < missed.len()
                invariant
                    count <= j <= missed.len(),
                    entries_of(missed@) == missed_spec,
                    skipped == missed_spec.skip(count as int),
                    forall|k: int|
                        0 <= k < missed_spec.len() ==> (#[trigger] missed_spec[k]).command.enabled,
                    self.commands.wf(),
                    all_enabled(self.commands@),
                    all_upcoming(entries_of(rescheduled@), now@),
                    self.min_interval_seconds == old(self).min_interval_seconds,
                    self.max_immediate_executions == old(self).max_immediate_executions,
                    self.last_execution_time == old(self).last_execution_time,
                    self.last_wake_time == old(self).last_wake_time,
                    reschedule_all(future, skipped.take(j - count), now@) == (Rescheduling {
                        queue: self.commands@,
                        rescheduled: entries_of(rescheduled@),
                        dropped: unschedulable_of(dropped@),
                    }),
                decreases missed.len() - j,
            {
                let ghost part = skipped.take(j - count + 1);
                let ghost done_rescheduled = entries_of(rescheduled@);
                let ghost done_dropped = unschedulable_of(dropped@);
                let command = missed[j].command.clone();
                proof {
                    assert(missed_spec[j as int] == missed@[j as int]@);
                    assert(part.last() == missed_spec[j as int]);
                    assert(part.drop_last() =~= skipped.take(j - count));
                }
                match next_run(&command, now) {
                    Ok(t) => {
                        let entry = ScheduledCommand { command: command.clone(), next_run: t };
                        proof {
                            lemma_with_entry_enabled(self.commands@, entry@);
                        }
                        self.commands.push(entry);
                        rescheduled.push(ScheduledCommand { command, next_run: t });
                        assert(entries_of(rescheduled@) =~= done_rescheduled.push(
                            ScheduledEntry { command: command@, next_run: t@ },
                        ));
                        assert forall|k: int| 0 <= k < entries_of(rescheduled@).len() implies (
                        #[trigger] entries_of(rescheduled@)[k]).next_run >= now@ && (entries_of(
                            rescheduled@,
                        )[k].command.interval_millis.is_none() ==> entries_of(
                            rescheduled@,
                        )[k].next_run > now@) by {
                            if k < done_rescheduled.len() {
                                assert(entries_of(rescheduled@)[k] == done_rescheduled[k]);
                            }
                        }
                    },
                    Err(error) => {
                        dropped.push(Unschedulable { command, error });
                        assert(unschedulable_of(dropped@) =~= done_dropped.push(
                            UnschedulableSpec { command: command@, error },
                        ));
                    },
                }
                j += 1;
            }
            assert(skipped.take(j - count) =~= skipped);
        }
        self.last_wake_time = Some(now);
        CatchUp { detected: slept, execute, rescheduled, dropped }
    }

    /// Says what the loop is to do at `now`.
    ///
    /// With nothing pending it idles. While the last execution is less than
    /// the pacing interval ago it sleeps for the rest of the interval. Else,
    /// if the earliest command is due, that command leaves the queue to be
    /// executed and `now` becomes the last execution. Else it sleeps until
    /// the command is due, for an hour at most.
    pub fn next_action(&mut self, now: Timestamp) -> (action: Action)
        requires
            old(self).wf(),
        ensures
            final(self).wf(),
            action@ == old(self)@.next_action(now@),
            final(self)@ == old(self)@.after_action(now@),
    {
        let due_at = match self.commands.peek() {
            Some(entry) => entry.next_run,
            None => {
                return Action::Idle { sleep_millis: IDLE_BACKOFF_MILLIS };
            },
        };
        let min_interval_millis: i64 = (self.min_interval_seconds * 1000) as i64;
        match self.last_execution_time {
            Some(t) => {
                let since = now.millis_since(t);
                if since < min_interval_millis {
                    return Action::Pacing { sleep_millis: (min_interval_millis - since) as u64 };
                }
            },
            None => {},
        }
        let until = due_at.millis_since(now);
        if until <= 0 {
            match self.commands.pop() {
                Some(entry) => {
                    self.last_execution_time = Some(now);
                    Action::Execute {
                        command: entry.command,
                        timeout_millis: EXECUTION_TIMEOUT_MILLIS,
                    }
                },
                None => Action::Idle { sleep_millis: IDLE_BACKOFF_MILLIS },
            }
        } else {
            let wait = if until > WAIT_CEILING_MILLIS {
                WAIT_CEILING_MILLIS
            } else {
                until
            };
            Action::Waiting { sleep_millis: wait as u64 }
        }
    }

    /// Takes note of how the execution of `command`, started at
    /// `started_at`, has ended, and gives the command its next run after
    /// `now`.
    ///
    /// Whatever the outcome, the command is scheduled again if it has a next
    /// run. The state handed back is the one to persist: the start of the
    /// execution as `last_execution`, or none for a run that timed out, and
    /// the next run as `next_scheduled`.
    pub fn complete_execution(
        &mut self,
        command: CommandConfig,
        outcome: &ExecutionOutcome,
        started_at: Timestamp,
        now: Timestamp,
    ) -> (r: Result<CommandState, ScheduleError>)
        requires
            old(self).wf(),
        ensures
            final(self).wf(),
            final(self)@ == old(self)@.rescheduled(command@, now@),
            match r {
                Ok(state) => {
                    &&& SchedulerState::placement(command@, now@) == Ok::<int, ScheduleError>(
                        state@.next_scheduled,
                    )
                    &&& state@.name == command@.name
                    &&& state@.last_execution == (if *outcome is TimedOut {
                        None
                    } else {
                        Some(started_at@)
                    })
                },
                Err(e) => SchedulerState::placement(command@, now@) == Err::<int, ScheduleError>(
                    e,
                ),
            },
            command@.interval_millis.is_none() ==> (r matches Ok(state) ==> state@.next_scheduled
                > now@),
    {
        let last_execution = if outcome.counts_as_execution() {
            Some(started_at)
        } else {
            None
        };
        let name = command.name.clone();
        match self.schedule_next_run(command, now) {
            Ok(next_scheduled) => Ok(CommandState { name, last_execution, next_scheduled }),
            Err(e) => Err(e),
        }
    }

    /// The state to persist for a command that has run once right away at
    /// the start, from `started_at` on: that start as `last_execution`, and
    /// the command's next run after `now` as `next_scheduled`. The queue is
    /// not touched. A disabled command has no such state.
    pub fn one_shot_state(command: &CommandConfig, started_at: Timestamp, now: Timestamp) -> (r:
        Result<CommandState, ScheduleError>)
        ensures
            match r {
                Ok(state) => {
                    &&& SchedulerState::placement(command@, now@) == Ok::<int, ScheduleError>(
                        state@.next_scheduled,
                    )
                    &&& state@.name == command@.name
                    &&& state@.last_execution == Some(started_at@)
                },
                Err(e) => SchedulerState::placement(command@, now@) == Err::<int, ScheduleError>(
                    e,
                ),
            },
    {
        if !command.enabled {
            return Err(ScheduleError::Disabled);
        }
        match next_run(command, now) {
            Ok(next_scheduled) => Ok(
                CommandState::record(command, Some(started_at), next_scheduled),
            ),
            Err(e) => Err(e),
        }
    }

    /// The pending commands.
    pub fn pending(&self) -> (queue: &ScheduledQueue)
        ensures
            queue@ == self@.queue,
    {
        &self.commands
    }

    /// When the loop last started an execution.
    pub fn last_execution_time(&self) -> (t: Option<Timestamp>)
        ensures
            match t {
                Some(at) => self@.last_execution == Some(at@),
                None => self@.last_execution.is_none(),
            },
    {
        self.last_execution_time
    }

    /// When the scheduler last looked for a sleep of the machine.
    pub fn last_wake_time(&self) -> (t: Option<Timestamp>)
        ensures
            match t {
                Some(at) => self@.last_wake == Some(at@),
                None => self@.last_wake.is_none(),
            },
    {
        self.last_wake_time
    }

    /// Least time between two executions of the loop, in seconds.
    pub fn min_interval_seconds(&self) -> (seconds: u64)
        ensures
            seconds == self@.min_interval_seconds,
    {
        self.min_interval_seconds
    }

    /// Most missed commands that run at once after a sleep.
    pub fn max_immediate_executions(&self) -> (count: usize)
        ensures
            count == self@.max_immediate,
    {
        self.max_immediate_executions
    }
}

} // verus!
