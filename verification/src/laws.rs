//! What holds of the scheduler whatever it is given: proved statements over
//! the mathematical values that the contracts of the library speak of.

use crate::config::CommandSpec;
use crate::queue::{
    due_count, holds_name, lemma_due_count, lemma_skip_well_formed, lemma_with_entry,
    names_unique, well_formed, with_entry, ScheduledEntry,
};
use crate::schedule::ScheduleError;
use crate::scheduler::{
    all_enabled, bootstrap, lemma_with_entry_enabled, persisted_next_run, reschedule_all,
    SchedulerState,
};
use crate::state::PersistedState;
use crate::time::MAX_MILLIS;
use vstd::prelude::*;

verus! {

/// A command with an interval runs next exactly that interval after now, as
/// long as that instant lies within the span of a `Timestamp`.
pub proof fn lemma_interval_next_run(command: CommandSpec, now: int, interval: u64)
    requires
        command.interval_millis == Some(interval),
        now + interval <= MAX_MILLIS,
    ensures
        command.next_run(now) == Ok::<int, ScheduleError>(now + interval),
{
}

/// Two executions that the loop starts are at least the pacing interval
/// apart, whatever was pending and whatever happened to the queue in
/// between.
///
/// `first` is the state in which the loop was told at `t1` to execute, and
/// `second` any later state with the same pacing interval whose last
/// execution is still that one.
pub proof fn lemma_executions_are_paced(
    first: SchedulerState,
    t1: int,
    second: SchedulerState,
    t2: int,
)
    requires
        first.next_action(t1) is Execute,
        second.last_execution == first.after_action(t1).last_execution,
        second.min_interval_seconds == first.min_interval_seconds,
        second.next_action(t2) is Execute,
    ensures
        t2 - t1 >= first.min_interval_seconds * 1000,
{
}

/// The last execution, once set, never moves back: a decision of the loop
/// moves it forward or leaves it, and nothing else touches it.
pub proof fn lemma_last_execution_never_goes_back(
    s: SchedulerState,
    now: int,
    command: CommandSpec,
)
    requires
        s.wf(),
        s.last_execution.is_some(),
    ensures
        s.after_action(now).last_execution.is_some(),
        s.after_action(now).last_execution.unwrap() >= s.last_execution.unwrap(),
        s.after_wake(now).last_execution == s.last_execution,
        s.rescheduled(command, now).last_execution == s.last_execution,
{
}

/// The command that the loop is told to execute is the one due first, it
/// is due, the pacing interval has passed, and it has left the queue.
pub proof fn lemma_executes_the_earliest_due(s: SchedulerState, now: int)
    requires
        s.wf(),
        s.next_action(now) is Execute,
    ensures
        s.queue.len() > 0,
        s.next_action(now)->command == s.queue[0].command,
        s.queue[0].next_run <= now,
        forall|i: int| 0 <= i < s.queue.len() ==> s.queue[0].next_run <= (#[trigger] s.queue[i]).next_run,
        s.pacing_deficit(now) <= 0,
        !holds_name(s.after_action(now).queue, s.queue[0].command.name),
{
    let rest = s.queue.skip(1);
    assert forall|i: int| 0 <= i < rest.len() implies (#[trigger] rest[i]).command.name
        != s.queue[0].command.name by {
        assert(rest[i] == s.queue[i + 1]);
    }
}

/// No command is executed by the loop before its run has come.
pub proof fn lemma_nothing_runs_early(s: SchedulerState, now: int, i: int)
    requires
        s.wf(),
        0 <= i < s.queue.len(),
        s.queue[i].next_run > now,
    ensures
        s.next_action(now) is Execute ==> s.next_action(now)->command.name
            != s.queue[i].command.name,
        s.after_action(now).queue.contains(s.queue[i]),
{
    if s.next_action(now) is Execute {
        assert(s.queue[0].next_run <= now);
        assert(i != 0);
        assert(s.queue.skip(1)[i - 1] == s.queue[i]);
    }
}

/// A decision of the loop leaves a scheduler as it must be.
pub proof fn lemma_after_action_wf(s: SchedulerState, now: int)
    requires
        s.wf(),
    ensures
        s.after_action(now).wf(),
{
    if s.next_action(now) is Execute {
        lemma_skip_well_formed(s.queue, 1);
        let rest = s.queue.skip(1);
        assert forall|i: int| 0 <= i < rest.len() implies (#[trigger] rest[i]).command.enabled by {
            assert(rest[i] == s.queue[i + 1]);
        }
    }
}

/// Rescheduling a command leaves a scheduler as it must be. A command that
/// is enabled and has a next run is pending at that run afterwards, in
/// exactly one entry; if its name was not pending before, the queue has
/// grown by that entry. A command that is disabled or has no next run
/// leaves the scheduler as it was.
pub proof fn lemma_rescheduled_wf(s: SchedulerState, command: CommandSpec, now: int)
    requires
        s.wf(),
    ensures
        s.rescheduled(command, now).wf(),
        SchedulerState::placement(command, now) matches Ok(t) ==> {
            let after = s.rescheduled(command, now).queue;
            &&& after.contains(ScheduledEntry { command, next_run: t })
            &&& forall|i: int, j: int|
                0 <= i < after.len() && 0 <= j < after.len() && after[i].command.name
                    == command.name && after[j].command.name == command.name ==> i == j
            &&& after.len() == if holds_name(s.queue, command.name) {
                s.queue.len()
            } else {
                s.queue.len() + 1
            }
        },
        SchedulerState::placement(command, now).is_err() ==> s.rescheduled(command, now) == s,
{
    match SchedulerState::placement(command, now) {
        Ok(t) => {
            let e = ScheduledEntry { command, next_run: t };
            lemma_with_entry(s.queue, e);
            lemma_with_entry_enabled(s.queue, e);
            let after = s.rescheduled(command, now).queue;
            assert(after == with_entry(s.queue, e));
            assert forall|i: int, j: int|
                0 <= i < after.len() && 0 <= j < after.len() && after[i].command.name
                    == command.name && after[j].command.name == command.name implies i == j by {
                if i < j {
                    assert(after[i].command.name != after[j].command.name);
                } else if j < i {
                    assert(after[j].command.name != after[i].command.name);
                }
            }
        },
        Err(_) => {},
    }
}

/// No entry of `queue` bears the name of one of `others`.
pub open spec fn apart(queue: Seq<ScheduledEntry>, others: Seq<ScheduledEntry>) -> bool {
    forall|k: int| 0 <= k < others.len() ==> !holds_name(queue, (#[trigger] others[k]).command.name)
}

/// What rescheduling a run of enabled commands into a queue leaves.
///
/// The queue stays ordered with unique names and enabled commands. Each
/// command is either rescheduled at its next run after `now` or dropped.
/// An entry of the queue whose name is not among the commands stays. Each
/// entry of the queue afterwards was there before or has been rescheduled.
/// Where the names of the commands are unique, each rescheduled entry is in
/// the queue.
pub proof fn lemma_reschedule_all(queue: Seq<ScheduledEntry>, skipped: Seq<ScheduledEntry>, now: int)
    requires
        well_formed(queue),
        all_enabled(queue),
        all_enabled(skipped),
    ensures
        well_formed(reschedule_all(queue, skipped, now).queue),
        all_enabled(reschedule_all(queue, skipped, now).queue),
        reschedule_all(queue, skipped, now).rescheduled.len() + reschedule_all(
            queue,
            skipped,
            now,
        ).dropped.len() == skipped.len(),
        forall|k: int|
            0 <= k < reschedule_all(queue, skipped, now).rescheduled.len() ==> {
                let e = #[trigger] reschedule_all(queue, skipped, now).rescheduled[k];
                &&& e.command.next_run(now) == Ok::<int, ScheduleError>(e.next_run)
                &&& holds_name(skipped, e.command.name)
            },
        forall|k: int|
            0 <= k < queue.len() && !holds_name(skipped, (#[trigger] queue[k]).command.name)
                ==> reschedule_all(queue, skipped, now).queue.contains(queue[k]),
        forall|k: int|
            0 <= k < reschedule_all(queue, skipped, now).queue.len() ==> {
                let e = #[trigger] reschedule_all(queue, skipped, now).queue[k];
                queue.contains(e) || reschedule_all(queue, skipped, now).rescheduled.contains(e)
            },
        names_unique(skipped) ==> forall|k: int|
            0 <= k < reschedule_all(queue, skipped, now).rescheduled.len() ==> reschedule_all(
                queue,
                skipped,
                now,
            ).queue.contains(#[trigger] reschedule_all(queue, skipped, now).rescheduled[k]),
        names_unique(skipped) && apart(queue, skipped) ==> reschedule_all(
            queue,
            skipped,
            now,
        ).queue.len() == queue.len() + reschedule_all(queue, skipped, now).rescheduled.len(),
    decreases skipped.len(),
{
    let r = reschedule_all(queue, skipped, now);
    if skipped.len() > 0 {
        let front = skipped.drop_last();
        let last = skipped.last();
        let done = reschedule_all(queue, front, now);
        assert forall|k: int| 0 <= k < front.len() implies (#[trigger] front[k]).command.enabled by {
            assert(front[k] == skipped[k]);
        }
        lemma_reschedule_all(queue, front, now);
        assert(holds_name(skipped, last.command.name)) by {
            assert(skipped[skipped.len() - 1].command.name == last.command.name);
        }
        assert forall|name: Seq<char>| holds_name(front, name) implies holds_name(
            skipped,
            name,
        ) by {
            let j = choose|j: int| 0 <= j < front.len() && (#[trigger] front[j]).command.name == name;
            assert(skipped[j].command.name == name);
        }
        if names_unique(skipped) {
            assert forall|i: int, j: int| 0 <= i < j < front.len() implies front[i].command.name
                != front[j].command.name by {
                assert(front[i] == skipped[i] && front[j] == skipped[j]);
            }
            assert(!holds_name(front, last.command.name)) by {
                if holds_name(front, last.command.name) {
                    let j = choose|j: int|
                        0 <= j < front.len() && (#[trigger] front[j]).command.name
                            == last.command.name;
                    assert(skipped[j].command.name != skipped[skipped.len() - 1].command.name);
                }
            }
        }
        match last.command.next_run(now) {
            Ok(t) => {
                let e = ScheduledEntry { command: last.command, next_run: t };
                lemma_with_entry(done.queue, e);
                lemma_with_entry_enabled(done.queue, e);
                assert(r.queue == with_entry(done.queue, e));
                assert(r.rescheduled == done.rescheduled.push(e));
                assert forall|k: int| 0 <= k < r.rescheduled.len() implies {
                    let x = #[trigger] r.rescheduled[k];
                    &&& x.command.next_run(now) == Ok::<int, ScheduleError>(x.next_run)
                    &&& holds_name(skipped, x.command.name)
                } by {
                    if k < done.rescheduled.len() {
                        assert(r.rescheduled[k] == done.rescheduled[k]);
                    }
                }
                assert forall|k: int|
                    0 <= k < queue.len() && !holds_name(
                        skipped,
                        (#[trigger] queue[k]).command.name,
                    ) implies r.queue.contains(queue[k]) by {
                    assert(!holds_name(front, queue[k].command.name));
                    assert(done.queue.contains(queue[k]));
                    let k0 = choose|k0: int| 0 <= k0 < done.queue.len() && done.queue[k0] == queue[k];
                    assert(done.queue[k0].command.name != e.command.name);
                }
                assert forall|k: int| 0 <= k < r.queue.len() implies {
                    let x = #[trigger] r.queue[k];
                    queue.contains(x) || r.rescheduled.contains(x)
                } by {
                    let x = r.queue[k];
                    if x == e {
                        assert(r.rescheduled[r.rescheduled.len() - 1] == e);
                    } else {
                        assert(done.queue.contains(x));
                        let k0 = choose|k0: int| 0 <= k0 < done.queue.len() && done.queue[k0] == x;
                        if !queue.contains(x) {
                            assert(done.rescheduled.contains(done.queue[k0]));
                            let k1 = choose|k1: int|
                                0 <= k1 < done.rescheduled.len() && done.rescheduled[k1] == x;
                            assert(r.rescheduled[k1] == x);
                        }
                    }
                }
                if names_unique(skipped) && apart(queue, skipped) {
                    assert(apart(queue, front)) by {
                        assert forall|k: int| 0 <= k < front.len() implies !holds_name(
                            queue,
                            (#[trigger] front[k]).command.name,
                        ) by {
                            assert(front[k] == skipped[k]);
                        }
                    }
                    assert(!holds_name(done.queue, e.command.name)) by {
                        if holds_name(done.queue, e.command.name) {
                            let j = choose|j: int|
                                0 <= j < done.queue.len() && (#[trigger] done.queue[j]).command.name
                                    == e.command.name;
                            let x = done.queue[j];
                            if queue.contains(x) {
                                let j0 = choose|j0: int| 0 <= j0 < queue.len() && queue[j0] == x;
                                assert(queue[j0].command.name == skipped[skipped.len()
                                    - 1].command.name);
                                assert(holds_name(queue, skipped[skipped.len() - 1].command.name));
                            } else {
                                assert(done.rescheduled.contains(x));
                                let j1 = choose|j1: int|
                                    0 <= j1 < done.rescheduled.len() && done.rescheduled[j1] == x;
                                assert(holds_name(front, done.rescheduled[j1].command.name));
                            }
                        }
                    }
                }
                if names_unique(skipped) {
                    assert forall|k: int| 0 <= k < r.rescheduled.len() implies r.queue.contains(
                        #[trigger] r.rescheduled[k],
                    ) by {
                        if k < done.rescheduled.len() {
                            let x = done.rescheduled[k];
                            assert(r.rescheduled[k] == x);
                            assert(holds_name(front, x.command.name));
                            assert(x.command.name != e.command.name);
                            assert(done.queue.contains(x));
                            let k0 = choose|k0: int|
                                0 <= k0 < done.queue.len() && done.queue[k0] == x;
                            assert(done.queue[k0].command.name != e.command.name);
                        }
                    }
                }
            },
            Err(error) => {
                assert(r.queue == done.queue);
                assert(r.rescheduled == done.rescheduled);
                if names_unique(skipped) && apart(queue, skipped) {
                    assert(apart(queue, front)) by {
                        assert forall|k: int| 0 <= k < front.len() implies !holds_name(
                            queue,
                            (#[trigger] front[k]).command.name,
                        ) by {
                            assert(front[k] == skipped[k]);
                        }
                    }
                }
            },
        }
    }
}

/// What a catch-up after a sleep of the machine amounts to.
///
/// Of the commands whose run was missed, as many as the cap allows are
/// handed out to run at once and are out of the queue; each of the others
/// is back in the queue at its next run after `now`, or dropped if it has
/// none. The commands whose run has not yet come are in the queue as they
/// were, and the scheduler is as it must be. No entry is lost or doubled:
/// what is pending afterwards, handed out and dropped adds up to what was
/// pending before.
pub proof fn lemma_catch_up(s: SchedulerState, now: int)
    requires
        s.wf(),
        s.slept(now),
    ensures
        s.after_wake(now).wf(),
        s.after_wake(now).last_wake == Some(now),
        s.catch_up(now).execute.len() == if s.missed(now).len() <= s.max_immediate {
            s.missed(now).len() as int
        } else {
            s.max_immediate
        },
        s.catch_up(now).rescheduled.len() + s.catch_up(now).dropped.len() == s.missed(now).len()
            - s.catch_up(now).execute.len(),
        forall|i: int| 0 <= i < s.missed(now).len() ==> (#[trigger] s.missed(now)[i]).next_run < now,
        forall|i: int| 0 <= i < s.future(now).len() ==> (#[trigger] s.future(now)[i]).next_run >= now,
        forall|i: int|
            0 <= i < s.catch_up(now).execute.len() ==> (#[trigger] s.catch_up(now).execute[i])
                == s.queue[i].command && !holds_name(
                s.after_wake(now).queue,
                s.queue[i].command.name,
            ),
        forall|k: int|
            0 <= k < s.catch_up(now).rescheduled.len() ==> {
                let e = #[trigger] s.catch_up(now).rescheduled[k];
                &&& s.after_wake(now).queue.contains(e)
                &&& e.command.next_run(now) == Ok::<int, ScheduleError>(e.next_run)
            },
        forall|i: int|
            0 <= i < s.future(now).len() ==> s.after_wake(now).queue.contains(
                #[trigger] s.future(now)[i],
            ),
        s.queue.len() == s.missed(now).len() + s.future(now).len(),
        s.after_wake(now).queue.len() == s.future(now).len() + s.catch_up(now).rescheduled.len(),
        s.after_wake(now).queue.len() + s.catch_up(now).execute.len() + s.catch_up(
            now,
        ).dropped.len() == s.queue.len(),
{
    let q = s.queue;
    lemma_due_count(q, now - 1);
    let k = due_count(q, now - 1) as int;
    let missed = s.missed(now);
    let future = s.future(now);
    let m = s.immediate_count(now);
    let skipped = s.skipped(now);
    let r = reschedule_all(future, skipped, now);
    lemma_skip_well_formed(q, k);
    assert forall|i: int| 0 <= i < future.len() implies (#[trigger] future[i]).command.enabled by {
        assert(future[i] == q[i + k]);
    }
    assert forall|i: int| 0 <= i < skipped.len() implies (#[trigger] skipped[i]).command.enabled by {
        assert(skipped[i] == q[i + m]);
    }
    assert forall|i: int, j: int| 0 <= i < j < skipped.len() implies skipped[i].command.name
        != skipped[j].command.name by {
        assert(skipped[i] == q[i + m] && skipped[j] == q[j + m]);
    }
    assert(apart(future, skipped)) by {
        assert forall|j: int| 0 <= j < skipped.len() implies !holds_name(
            future,
            (#[trigger] skipped[j]).command.name,
        ) by {
            if holds_name(future, skipped[j].command.name) {
                let i = choose|i: int|
                    0 <= i < future.len() && (#[trigger] future[i]).command.name
                        == skipped[j].command.name;
                assert(skipped[j] == q[j + m]);
                assert(future[i] == q[i + k]);
                assert(q[j + m].command.name != q[i + k].command.name);
            }
        }
    }
    lemma_reschedule_all(future, skipped, now);
    assert forall|i: int| 0 <= i < missed.len() implies (#[trigger] missed[i]).next_run < now by {
        assert(missed[i] == q[i]);
    }
    assert forall|i: int| 0 <= i < future.len() implies (#[trigger] future[i]).next_run >= now by {
        assert(future[i] == q[i + k]);
    }
    assert forall|i: int| 0 <= i < future.len() implies r.queue.contains(#[trigger] future[i]) by {
        if holds_name(skipped, future[i].command.name) {
            let j = choose|j: int|
                0 <= j < skipped.len() && (#[trigger] skipped[j]).command.name
                    == future[i].command.name;
            assert(skipped[j] == q[j + m]);
            assert(future[i] == q[i + k]);
            assert(q[j + m].command.name != q[i + k].command.name);
        }
    }
    assert forall|i: int| 0 <= i < s.catch_up(now).execute.len() implies (
    #[trigger] s.catch_up(now).execute[i]) == q[i].command && !holds_name(
        r.queue,
        q[i].command.name,
    ) by {
        assert(missed.take(m)[i] == q[i]);
        if holds_name(r.queue, q[i].command.name) {
            let j = choose|j: int|
                0 <= j < r.queue.len() && (#[trigger] r.queue[j]).command.name == q[i].command.name;
            let x = r.queue[j];
            if future.contains(x) {
                let j0 = choose|j0: int| 0 <= j0 < future.len() && future[j0] == x;
                assert(future[j0] == q[j0 + k]);
                assert(q[i].command.name != q[j0 + k].command.name);
            } else {
                assert(r.rescheduled.contains(x));
                let j1 = choose|j1: int| 0 <= j1 < r.rescheduled.len() && r.rescheduled[j1] == x;
                assert(holds_name(skipped, r.rescheduled[j1].command.name));
                let j2 = choose|j2: int|
                    0 <= j2 < skipped.len() && (#[trigger] skipped[j2]).command.name
                        == x.command.name;
                assert(skipped[j2] == q[j2 + m]);
                assert(q[i].command.name != q[j2 + m].command.name);
            }
        }
    }
}

/// A look for a sleep of the machine leaves a scheduler as it must be,
/// whether a sleep is detected or not.
pub proof fn lemma_after_wake_wf(s: SchedulerState, now: int)
    requires
        s.wf(),
    ensures
        s.after_wake(now).wf(),
        s.after_wake(now).last_wake == Some(now),
{
    if s.slept(now) {
        lemma_catch_up(s, now);
    }
}

/// One thing that happens to a scheduler.
pub enum SchedulerOp {
    /// It looks at `now` for a sleep of the machine.
    Wake { now: int },
    /// It says at `now` what the loop is to do.
    Decide { now: int },
    /// It gives `command` its next run after `now`.
    Reschedule { command: CommandSpec, now: int },
}

/// The state after one thing has happened.
pub open spec fn after_scheduler_op(s: SchedulerState, op: SchedulerOp) -> SchedulerState {
    match op {
        SchedulerOp::Wake { now } => s.after_wake(now),
        SchedulerOp::Decide { now } => s.after_action(now),
        SchedulerOp::Reschedule { command, now } => s.rescheduled(command, now),
    }
}

/// The state after a run of things has happened, the first of them first.
pub open spec fn after_scheduler_ops(s: SchedulerState, ops: Seq<SchedulerOp>) -> SchedulerState
    decreases ops.len(),
{
    if ops.len() == 0 {
        s
    } else {
        after_scheduler_op(after_scheduler_ops(s, ops.drop_last()), ops.last())
    }
}

/// Whatever happens to a scheduler, in whatever order and at whatever
/// times: its queue stays ordered, with one entry per command name and no
/// disabled command; its settings stay as they are; and its last execution,
/// once set, stays set and never moves back.
pub proof fn lemma_scheduler_invariants(s: SchedulerState, ops: Seq<SchedulerOp>)
    requires
        s.wf(),
    ensures
        after_scheduler_ops(s, ops).wf(),
        names_unique(after_scheduler_ops(s, ops).queue),
        all_enabled(after_scheduler_ops(s, ops).queue),
        after_scheduler_ops(s, ops).min_interval_seconds == s.min_interval_seconds,
        after_scheduler_ops(s, ops).max_immediate == s.max_immediate,
        s.last_execution.is_some() ==> after_scheduler_ops(s, ops).last_execution.is_some()
            && after_scheduler_ops(s, ops).last_execution.unwrap() >= s.last_execution.unwrap(),
    decreases ops.len(),
{
    if ops.len() > 0 {
        lemma_scheduler_invariants(s, ops.drop_last());
        let mid = after_scheduler_ops(s, ops.drop_last());
        match ops.last() {
            SchedulerOp::Wake { now } => {
                lemma_after_wake_wf(mid, now);
            },
            SchedulerOp::Decide { now } => {
                lemma_after_action_wf(mid, now);
            },
            SchedulerOp::Reschedule { command, now } => {
                lemma_rescheduled_wf(mid, command, now);
            },
        }
    }
}

/// What a start leaves is a queue as it must be: ordered, with unique
/// names, and of enabled commands of the configuration only. A disabled
/// command is never pending.
pub proof fn lemma_bootstrap_queue(
    commands: Seq<CommandSpec>,
    states: Seq<PersistedState>,
    now: int,
)
    requires
        bootstrap(commands, states, now).is_ok(),
    ensures
        well_formed(bootstrap(commands, states, now).unwrap().queue),
        all_enabled(bootstrap(commands, states, now).unwrap().queue),
        forall|k: int|
            0 <= k < bootstrap(commands, states, now).unwrap().queue.len() ==> commands.contains(
                (#[trigger] bootstrap(commands, states, now).unwrap().queue[k]).command,
            ),
    decreases commands.len(),
{
    if commands.len() > 0 {
        let front = commands.drop_last();
        let command = commands.last();
        let done = bootstrap(front, states, now).unwrap();
        let b = bootstrap(commands, states, now).unwrap();
        lemma_bootstrap_queue(front, states, now);
        assert forall|k: int| 0 <= k < done.queue.len() implies commands.contains(
            (#[trigger] done.queue[k]).command,
        ) by {
            let c = done.queue[k].command;
            let j = choose|j: int| 0 <= j < front.len() && front[j] == c;
            assert(commands[j] == c);
        }
        if command.enabled {
            let at = match persisted_next_run(states, command.name) {
                Some(t) => t,
                None => command.next_run(now).unwrap(),
            };
            let e = ScheduledEntry { command, next_run: at };
            assert(b.queue == with_entry(done.queue, e));
            lemma_with_entry(done.queue, e);
            lemma_with_entry_enabled(done.queue, e);
            assert(commands[commands.len() - 1] == command);
            assert forall|k: int| 0 <= k < b.queue.len() implies commands.contains(
                (#[trigger] b.queue[k]).command,
            ) by {
                if b.queue[k] != e {
                    assert(done.queue.contains(b.queue[k]));
                }
            }
        }
    }
}

/// A start reuses persisted state: an enabled command under whose name a
/// state is persisted is pending at that state's `next_scheduled`, whatever
/// its schedule would give. This holds of the last enabled command of each
/// name.
pub proof fn lemma_bootstrap_reuses_persisted(
    commands: Seq<CommandSpec>,
    states: Seq<PersistedState>,
    now: int,
    i: int,
)
    requires
        bootstrap(commands, states, now).is_ok(),
        0 <= i < commands.len(),
        commands[i].enabled,
        persisted_next_run(states, commands[i].name).is_some(),
        forall|j: int|
            i < j < commands.len() && (#[trigger] commands[j]).enabled ==> commands[j].name
                != commands[i].name,
    ensures
        bootstrap(commands, states, now).unwrap().queue.contains(
            ScheduledEntry {
                command: commands[i],
                next_run: persisted_next_run(states, commands[i].name).unwrap(),
            },
        ),
    decreases commands.len(),
{
    let front = commands.drop_last();
    let command = commands.last();
    let done = bootstrap(front, states, now).unwrap();
    let b = bootstrap(commands, states, now).unwrap();
    let x = ScheduledEntry {
        command: commands[i],
        next_run: persisted_next_run(states, commands[i].name).unwrap(),
    };
    lemma_bootstrap_queue(front, states, now);
    if i == commands.len() - 1 {
        assert(b.queue == with_entry(done.queue, x));
        lemma_with_entry(done.queue, x);
    } else {
        assert(front[i] == commands[i]);
        assert forall|j: int| i < j < front.len() && (#[trigger] front[j]).enabled implies front[j].name
            != front[i].name by {
            assert(front[j] == commands[j]);
        }
        lemma_bootstrap_reuses_persisted(front, states, now, i);
        if command.enabled {
            assert(commands[commands.len() - 1].name != commands[i].name);
            let at = match persisted_next_run(states, command.name) {
                Some(t) => t,
                None => command.next_run(now).unwrap(),
            };
            let e = ScheduledEntry { command, next_run: at };
            assert(b.queue == with_entry(done.queue, e));
            lemma_with_entry(done.queue, e);
            let k0 = choose|k0: int| 0 <= k0 < done.queue.len() && done.queue[k0] == x;
            assert(done.queue[k0].command.name != e.command.name);
        }
    }
}

/// A start computes a fresh schedule only where nothing is persisted: an
/// enabled command without persisted state is pending at its next run
/// after the start. This holds of the last enabled command of each name.
pub proof fn lemma_bootstrap_schedules_fresh(
    commands: Seq<CommandSpec>,
    states: Seq<PersistedState>,
    now: int,
    i: int,
)
    requires
        bootstrap(commands, states, now).is_ok(),
        0 <= i < commands.len(),
        commands[i].enabled,
        persisted_next_run(states, commands[i].name).is_none(),
        forall|j: int|
            i < j < commands.len() && (#[trigger] commands[j]).enabled ==> commands[j].name
                != commands[i].name,
    ensures
        commands[i].next_run(now).is_ok(),
        bootstrap(commands, states, now).unwrap().queue.contains(
            ScheduledEntry { command: commands[i], next_run: commands[i].next_run(now).unwrap() },
        ),
    decreases commands.len(),
{
    let front = commands.drop_last();
    let command = commands.last();
    let done = bootstrap(front, states, now).unwrap();
    let b = bootstrap(commands, states, now).unwrap();
    lemma_bootstrap_queue(front, states, now);
    if i == commands.len() - 1 {
        let x = ScheduledEntry { command: commands[i], next_run: commands[i].next_run(now).unwrap() };
        assert(b.queue == with_entry(done.queue, x));
        lemma_with_entry(done.queue, x);
    } else {
        assert(front[i] == commands[i]);
        assert forall|j: int| i < j < front.len() && (#[trigger] front[j]).enabled implies front[j].name
            != front[i].name by {
            assert(front[j] == commands[j]);
        }
        lemma_bootstrap_schedules_fresh(front, states, now, i);
        let x = ScheduledEntry { command: commands[i], next_run: commands[i].next_run(now).unwrap() };
        if command.enabled {
            assert(commands[commands.len() - 1].name != commands[i].name);
            let at = match persisted_next_run(states, command.name) {
                Some(t) => t,
                None => command.next_run(now).unwrap(),
            };
            let e = ScheduledEntry { command, next_run: at };
            assert(b.queue == with_entry(done.queue, e));
            lemma_with_entry(done.queue, e);
            let k0 = choose|k0: int| 0 <= k0 < done.queue.len() && done.queue[k0] == x;
            assert(done.queue[k0].command.name != e.command.name);
        }
    }
}

/// Whether a start runs `command` once right away: it is enabled, marked
/// `immediate`, and nothing is persisted under its name.
pub open spec fn runs_at_start(command: CommandSpec, states: Seq<PersistedState>) -> bool {
    command.enabled && command.immediate && persisted_next_run(states, command.name).is_none()
}

/// The commands that a start hands out to run once right away are exactly
/// those that are enabled, marked `immediate` and without persisted state,
/// in the order of the configuration. No other command runs at the start.
pub proof fn lemma_bootstrap_immediate(
    commands: Seq<CommandSpec>,
    states: Seq<PersistedState>,
    now: int,
)
    requires
        bootstrap(commands, states, now).is_ok(),
    ensures
        bootstrap(commands, states, now).unwrap().immediate == commands.filter(
            |c: CommandSpec| runs_at_start(c, states),
        ),
    decreases commands.len(),
{
    reveal(Seq::filter);
    let pred = |c: CommandSpec| runs_at_start(c, states);
    if commands.len() > 0 {
        lemma_bootstrap_immediate(commands.drop_last(), states, now);
        assert(commands.drop_last().filter(pred) == bootstrap(
            commands.drop_last(),
            states,
            now,
        ).unwrap().immediate);
    } else {
        assert(commands.filter(pred) =~= Seq::<CommandSpec>::empty());
    }
}

/// No two commands bear the same name.
pub open spec fn command_names_unique(commands: Seq<CommandSpec>) -> bool {
    forall|i: int, j: int| 0 <= i < j < commands.len() ==> commands[i].name != commands[j].name
}

/// Picking commands out of a run with unique names leaves unique names.
pub proof fn lemma_filter_names_unique(commands: Seq<CommandSpec>, pred: spec_fn(CommandSpec) -> bool)
    requires
        command_names_unique(commands),
    ensures
        command_names_unique(commands.filter(pred)),
        forall|k: int|
            0 <= k < commands.filter(pred).len() ==> commands.contains(
                #[trigger] commands.filter(pred)[k],
            ),
    decreases commands.len(),
{
    reveal(Seq::filter);
    if commands.len() > 0 {
        let front = commands.drop_last();
        let last = commands.last();
        let picked = front.filter(pred);
        let all = commands.filter(pred);
        assert forall|i: int, j: int| 0 <= i < j < front.len() implies front[i].name
            != front[j].name by {
            assert(front[i] == commands[i] && front[j] == commands[j]);
        }
        lemma_filter_names_unique(front, pred);
        assert forall|k: int| 0 <= k < picked.len() implies commands.contains(
            #[trigger] picked[k],
        ) && picked[k].name != last.name by {
            assert(front.contains(picked[k]));
            let i = choose|i: int| 0 <= i < front.len() && front[i] == picked[k];
            assert(commands[i] == picked[k]);
            assert(commands[i].name != commands[commands.len() - 1].name);
        }
        if pred(last) {
            assert(all == picked.push(last));
            assert(commands[commands.len() - 1] == last);
            assert forall|k: int| 0 <= k < all.len() implies commands.contains(#[trigger] all[k]) by {
                if k < picked.len() {
                    assert(all[k] == picked[k]);
                }
            }
            assert forall|i: int, j: int| 0 <= i < j < all.len() implies all[i].name
                != all[j].name by {
                assert(all[i] == picked[i]);
                if j < picked.len() {
                    assert(all[j] == picked[j]);
                }
            }
        } else {
            assert(all == picked);
        }
    }
}

/// With unique command names a start hands out each command that is to run
/// right away exactly once, and no other command: not one that is disabled,
/// not one that is not marked `immediate`, not one with persisted state.
pub proof fn lemma_bootstrap_immediate_once(
    commands: Seq<CommandSpec>,
    states: Seq<PersistedState>,
    now: int,
    i: int,
)
    requires
        bootstrap(commands, states, now).is_ok(),
        command_names_unique(commands),
        0 <= i < commands.len(),
    ensures
        runs_at_start(commands[i], states) <==> bootstrap(
            commands,
            states,
            now,
        ).unwrap().immediate.contains(commands[i]),
        forall|k: int, l: int|
            0 <= k < bootstrap(commands, states, now).unwrap().immediate.len() && 0 <= l
                < bootstrap(commands, states, now).unwrap().immediate.len() && (
            #[trigger] bootstrap(commands, states, now).unwrap().immediate[k]) == commands[i] && (
            #[trigger] bootstrap(commands, states, now).unwrap().immediate[l]) == commands[i] ==> k
                == l,
{
    let pred = |c: CommandSpec| runs_at_start(c, states);
    let immediate = bootstrap(commands, states, now).unwrap().immediate;
    lemma_bootstrap_immediate(commands, states, now);
    assert(immediate == commands.filter(pred));
    lemma_filter_names_unique(commands, pred);
    if runs_at_start(commands[i], states) {
        assert(pred(commands[i]));
        commands.lemma_filter_contains(pred, i);
    }
    if immediate.contains(commands[i]) {
        let k = choose|k: int| 0 <= k < immediate.len() && immediate[k] == commands[i];
        commands.lemma_filter_pred(pred, k);
    }
    assert forall|k: int, l: int|
        0 <= k < immediate.len() && 0 <= l < immediate.len() && (#[trigger] immediate[k])
            == commands[i] && (#[trigger] immediate[l]) == commands[i] implies k == l by {
        if k < l {
            assert(immediate[k].name != immediate[l].name);
        } else if l < k {
            assert(immediate[l].name != immediate[k].name);
        }
    }
}

} // verus!
