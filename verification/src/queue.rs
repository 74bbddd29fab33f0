//! The queue of pending commands, earliest due first, one entry per name.

use crate::config::{CommandConfig, CommandSpec};
use crate::time::Timestamp;
use std::collections::VecDeque;
use vstd::prelude::*;

verus! {

/// A command together with the instant of its next run.
#[derive(Debug)]
pub struct ScheduledCommand {
    pub command: CommandConfig,
    pub next_run: Timestamp,
}

/// The mathematical value of a [`ScheduledCommand`]; `next_run` is in
/// milliseconds since the Unix epoch.
pub struct ScheduledEntry {
    pub command: CommandSpec,
    pub next_run: int,
}

impl View for ScheduledCommand {
    type V = ScheduledEntry;

    open spec fn view(&self) -> ScheduledEntry {
        ScheduledEntry { command: self.command@, next_run: self.next_run@ }
    }
}

impl Clone for ScheduledCommand {
    fn clone(&self) -> (copy: Self)
        ensures
            copy@ == self@,
    {
        ScheduledCommand { command: self.command.clone(), next_run: self.next_run }
    }
}

/// The values of a run of scheduled commands, in the same order.
pub open spec fn entries_of(commands: Seq<ScheduledCommand>) -> Seq<ScheduledEntry> {
    commands.map_values(|c: ScheduledCommand| c@)
}

/// No entry is due later than one that follows it.
pub open spec fn sorted_by_time(q: Seq<ScheduledEntry>) -> bool {
    forall|i: int, j: int| 0 <= i <= j < q.len() ==> q[i].next_run <= q[j].next_run
}

/// No two entries bear the same command name.
pub open spec fn names_unique(q: Seq<ScheduledEntry>) -> bool {
    forall|i: int, j: int| 0 <= i < j < q.len() ==> q[i].command.name != q[j].command.name
}

/// What holds of the entries of every queue.
pub open spec fn well_formed(q: Seq<ScheduledEntry>) -> bool {
    sorted_by_time(q) && names_unique(q)
}

/// Whether some entry bears `name`.
pub open spec fn holds_name(q: Seq<ScheduledEntry>, name: Seq<char>) -> bool {
    exists|i: int| 0 <= i < q.len() && (#[trigger] q[i]).command.name == name
}

/// The place of an entry that bears `name`, meaningful where one exists.
pub open spec fn place_of_name(q: Seq<ScheduledEntry>, name: Seq<char>) -> int {
    choose|i: int| 0 <= i < q.len() && (#[trigger] q[i]).command.name == name
}

/// The entries but for the one that bears `name`.
pub open spec fn without_name(q: Seq<ScheduledEntry>, name: Seq<char>) -> Seq<ScheduledEntry> {
    if holds_name(q, name) {
        q.remove(place_of_name(q, name))
    } else {
        q
    }
}

/// How many entries at the head are due at `t` or before.
pub open spec fn due_count(q: Seq<ScheduledEntry>, t: int) -> nat
    decreases q.len(),
{
    if q.len() == 0 || q[0].next_run > t {
        0
    } else {
        1 + due_count(q.skip(1), t)
    }
}

/// The entries after `e` has been scheduled: an entry of the same name
/// gives way, and `e` stands behind every entry due no later than itself.
pub open spec fn with_entry(q: Seq<ScheduledEntry>, e: ScheduledEntry) -> Seq<ScheduledEntry> {
    let rest = without_name(q, e.command.name);
    rest.insert(due_count(rest, e.next_run) as int, e)
}

/// `due_count` stops at the first entry due after `t`.
pub proof fn lemma_due_count(q: Seq<ScheduledEntry>, t: int)
    ensures
        due_count(q, t) <= q.len(),
        forall|j: int| 0 <= j < due_count(q, t) ==> (#[trigger] q[j]).next_run <= t,
        due_count(q, t) < q.len() ==> q[due_count(q, t) as int].next_run > t,
        sorted_by_time(q) ==> forall|j: int|
            due_count(q, t) <= j < q.len() ==> (#[trigger] q[j]).next_run > t,
    decreases q.len(),
{
    if q.len() == 0 || q[0].next_run > t {
    } else {
        let rest = q.skip(1);
        lemma_due_count(rest, t);
        let d = due_count(rest, t) as int;
        assert forall|j: int| 0 <= j < d + 1 implies (#[trigger] q[j]).next_run <= t by {
            if j > 0 {
                assert(q[j] == rest[j - 1]);
            }
        }
        if d + 1 < q.len() {
            assert(q[d + 1] == rest[d]);
        }
        if sorted_by_time(q) {
            assert forall|i: int, j: int| 0 <= i <= j < rest.len() implies rest[i].next_run
                <= rest[j].next_run by {
                assert(rest[i] == q[i + 1] && rest[j] == q[j + 1]);
            }
            assert forall|j: int| d + 1 <= j < q.len() implies (#[trigger] q[j]).next_run > t by {
                assert(q[j] == rest[j - 1]);
            }
        }
    }
}

/// A place with nothing later than `t` before it and something later than
/// `t` at it is the place where `due_count` stops.
pub proof fn lemma_due_count_is(q: Seq<ScheduledEntry>, t: int, p: int)
    requires
        0 <= p <= q.len(),
        forall|j: int| 0 <= j < p ==> (#[trigger] q[j]).next_run <= t,
        p < q.len() ==> q[p].next_run > t,
    ensures
        due_count(q, t) == p,
    decreases q.len(),
{
    if p > 0 {
        let rest = q.skip(1);
        assert(q[0].next_run <= t);
        assert forall|j: int| 0 <= j < p - 1 implies (#[trigger] rest[j]).next_run <= t by {
            assert(rest[j] == q[j + 1]);
        }
        if p - 1 < rest.len() {
            assert(rest[p - 1] == q[p]);
        }
        lemma_due_count_is(rest, t, p - 1);
    }
}

/// Where the names are unique, the entry that bears a name is the one that
/// `without_name` leaves out.
pub proof fn lemma_without_name_at(q: Seq<ScheduledEntry>, i: int)
    requires
        names_unique(q),
        0 <= i < q.len(),
    ensures
        without_name(q, q[i].command.name) == q.remove(i),
{
    let name = q[i].command.name;
    assert(holds_name(q, name));
    let p = place_of_name(q, name);
    if p < i {
        assert(q[p].command.name != q[i].command.name);
    } else if i < p {
        assert(q[i].command.name != q[p].command.name);
    }
}

/// Taking an entry out keeps the order and the names apart, and the name
/// taken out is gone.
pub proof fn lemma_without_name(q: Seq<ScheduledEntry>, name: Seq<char>)
    requires
        well_formed(q),
    ensures
        well_formed(without_name(q, name)),
        !holds_name(without_name(q, name), name),
        without_name(q, name).len() == if holds_name(q, name) {
            q.len() - 1
        } else {
            q.len() as int
        },
        forall|k: int|
            0 <= k < without_name(q, name).len() ==> q.contains(
                #[trigger] without_name(q, name)[k],
            ),
        forall|k: int|
            0 <= k < q.len() && (#[trigger] q[k]).command.name != name ==> without_name(
                q,
                name,
            ).contains(q[k]),
{
    let r = without_name(q, name);
    if holds_name(q, name) {
        let p = place_of_name(q, name);
        assert forall|k: int| 0 <= k < r.len() implies (#[trigger] r[k]) == q[if k < p {
            k
        } else {
            k + 1
        }] by {}
        assert forall|i: int, j: int| 0 <= i <= j < r.len() implies r[i].next_run
            <= r[j].next_run by {
            let i0 = if i < p { i } else { i + 1 };
            let j0 = if j < p { j } else { j + 1 };
            assert(r[i] == q[i0] && r[j] == q[j0]);
        }
        assert forall|i: int, j: int| 0 <= i < j < r.len() implies r[i].command.name
            != r[j].command.name by {
            let i0 = if i < p { i } else { i + 1 };
            let j0 = if j < p { j } else { j + 1 };
            assert(r[i] == q[i0] && r[j] == q[j0]);
        }
        assert forall|k: int| 0 <= k < r.len() implies (#[trigger] r[k]).command.name != name by {
            let k0 = if k < p { k } else { k + 1 };
            assert(r[k] == q[k0]);
            if k0 < p {
                assert(q[k0].command.name != q[p].command.name);
            } else {
                assert(q[p].command.name != q[k0].command.name);
            }
        }
        assert forall|k: int| 0 <= k < r.len() implies q.contains(#[trigger] r[k]) by {
            let k0 = if k < p { k } else { k + 1 };
            assert(r[k] == q[k0]);
        }
        assert forall|k: int| 0 <= k < q.len() && (#[trigger] q[k]).command.name
            != name implies r.contains(q[k]) by {
            let k0 = if k < p { k } else { k - 1 };
            assert(r[k0] == q[k]);
        }
    }
}

/// Putting an entry of a new name behind the entries due no later than
/// itself keeps the order and the names apart.
pub proof fn lemma_insert_in_order(rest: Seq<ScheduledEntry>, e: ScheduledEntry)
    requires
        well_formed(rest),
        !holds_name(rest, e.command.name),
    ensures
        due_count(rest, e.next_run) <= rest.len(),
        well_formed(rest.insert(due_count(rest, e.next_run) as int, e)),
{
    lemma_due_count(rest, e.next_run);
    let p = due_count(rest, e.next_run) as int;
    let r = rest.insert(p, e);
    assert forall|i: int, j: int| 0 <= i <= j < r.len() implies r[i].next_run <= r[j].next_run by {
        if i < p {
            assert(r[i] == rest[i]);
            assert(rest[i].next_run <= e.next_run);
            if j < p {
                assert(r[j] == rest[j]);
            } else if j == p {
                assert(r[j] == e);
            } else {
                assert(r[j] == rest[j - 1]);
                assert(rest[i].next_run <= rest[j - 1].next_run);
            }
        } else if i == p {
            assert(r[i] == e);
            if j > p {
                assert(r[j] == rest[j - 1]);
                assert(rest[j - 1].next_run > e.next_run);
            }
        } else {
            assert(r[i] == rest[i - 1]);
            assert(r[j] == rest[j - 1]);
            assert(rest[i - 1].next_run <= rest[j - 1].next_run);
        }
    }
    assert forall|i: int, j: int| 0 <= i < j < r.len() implies r[i].command.name
        != r[j].command.name by {
        let i0 = if i < p { i } else { i - 1 };
        let j0 = if j < p { j } else { j - 1 };
        if i == p {
            assert(r[i] == e);
            assert(r[j] == rest[j0]);
            assert(rest[j0].command.name != e.command.name);
        } else if j == p {
            assert(r[j] == e);
            assert(r[i] == rest[i0]);
            assert(rest[i0].command.name != e.command.name);
        } else {
            assert(r[i] == rest[i0]);
            assert(r[j] == rest[j0]);
            assert(rest[i0].command.name != rest[j0].command.name);
        }
    }
}

/// Scheduling an entry keeps the order and the names apart; the entry is in
/// the queue afterwards, every other entry that was there still is, and
/// nothing else has come in.
pub proof fn lemma_with_entry(q: Seq<ScheduledEntry>, e: ScheduledEntry)
    requires
        well_formed(q),
    ensures
        well_formed(with_entry(q, e)),
        with_entry(q, e).len() == if holds_name(q, e.command.name) {
            q.len()
        } else {
            q.len() + 1
        },
        with_entry(q, e).contains(e),
        forall|k: int|
            0 <= k < with_entry(q, e).len() ==> (#[trigger] with_entry(q, e)[k]) == e || (
            q.contains(with_entry(q, e)[k]) && with_entry(q, e)[k].command.name
                != e.command.name),
        forall|k: int|
            0 <= k < q.len() && (#[trigger] q[k]).command.name != e.command.name ==> with_entry(
                q,
                e,
            ).contains(q[k]),
{
    let rest = without_name(q, e.command.name);
    lemma_without_name(q, e.command.name);
    lemma_insert_in_order(rest, e);
    let p = due_count(rest, e.next_run) as int;
    let r = rest.insert(p, e);
    assert(r == with_entry(q, e));
    assert(r[p] == e);
    assert forall|k: int| 0 <= k < r.len() implies (#[trigger] r[k]) == e || (q.contains(r[k])
        && r[k].command.name != e.command.name) by {
        if k != p {
            let k0 = if k < p { k } else { k - 1 };
            assert(r[k] == rest[k0]);
            assert(q.contains(rest[k0]));
            assert(rest[k0].command.name != e.command.name);
        }
    }
    assert forall|k: int| 0 <= k < q.len() && (#[trigger] q[k]).command.name
        != e.command.name implies r.contains(q[k]) by {
        assert(rest.contains(q[k]));
        let k0 = choose|k0: int| 0 <= k0 < rest.len() && rest[k0] == q[k];
        let k1 = if k0 < p { k0 } else { k0 + 1 };
        assert(r[k1] == q[k]);
    }
}

/// Dropping entries at the head keeps the order and the names apart.
pub proof fn lemma_skip_well_formed(q: Seq<ScheduledEntry>, k: int)
    requires
        well_formed(q),
        0 <= k <= q.len(),
    ensures
        well_formed(q.skip(k)),
{
    let r = q.skip(k);
    assert forall|i: int, j: int| 0 <= i <= j < r.len() implies r[i].next_run <= r[j].next_run by {
        assert(r[i] == q[i + k] && r[j] == q[j + k]);
    }
    assert forall|i: int, j: int| 0 <= i < j < r.len() implies r[i].command.name
        != r[j].command.name by {
        assert(r[i] == q[i + k] && r[j] == q[j + k]);
    }
}

/// One operation on a queue.
pub enum QueueOp {
    /// Schedule an entry, or reschedule the command it bears.
    Push { entry: ScheduledEntry },
    /// Take out the entry due first.
    Pop,
    /// Take out the entries due before `t`.
    TakeDueBefore { t: int },
    /// Take out every entry.
    DrainAll,
}

/// The entries after one operation.
pub open spec fn after_op(q: Seq<ScheduledEntry>, op: QueueOp) -> Seq<ScheduledEntry> {
    match op {
        QueueOp::Push { entry } => with_entry(q, entry),
        QueueOp::Pop => if q.len() > 0 {
            q.skip(1)
        } else {
            q
        },
        QueueOp::TakeDueBefore { t } => q.skip(due_count(q, t - 1) as int),
        QueueOp::DrainAll => Seq::empty(),
    }
}

/// The entries after a run of operations, the first of them first.
pub open spec fn after_ops(q: Seq<ScheduledEntry>, ops: Seq<QueueOp>) -> Seq<ScheduledEntry>
    decreases ops.len(),
{
    if ops.len() == 0 {
        q
    } else {
        after_op(after_ops(q, ops.drop_last()), ops.last())
    }
}

/// Whatever is done to a queue, in whatever order, starting from an empty
/// one: its entries stay ordered by due time, and no two of them bear the
/// same command name.
pub proof fn lemma_one_entry_per_name(ops: Seq<QueueOp>)
    ensures
        well_formed(after_ops(Seq::empty(), ops)),
        names_unique(after_ops(Seq::empty(), ops)),
    decreases ops.len(),
{
    if ops.len() > 0 {
        lemma_one_entry_per_name(ops.drop_last());
        let q = after_ops(Seq::empty(), ops.drop_last());
        match ops.last() {
            QueueOp::Push { entry } => {
                lemma_with_entry(q, entry);
            },
            QueueOp::Pop => {
                if q.len() > 0 {
                    lemma_skip_well_formed(q, 1);
                }
            },
            QueueOp::TakeDueBefore { t } => {
                lemma_due_count(q, t - 1);
                lemma_skip_well_formed(q, due_count(q, t - 1) as int);
            },
            QueueOp::DrainAll => {},
        }
    }
}

/// The entries after each of `entries` has been pushed, the first of them
/// first.
pub open spec fn pushed(q: Seq<ScheduledEntry>, entries: Seq<ScheduledEntry>) -> Seq<ScheduledEntry>
    decreases entries.len(),
{
    if entries.len() == 0 {
        q
    } else {
        with_entry(pushed(q, entries.drop_last()), entries.last())
    }
}

/// The entries after `n` pops.
pub open spec fn popped(q: Seq<ScheduledEntry>, n: nat) -> Seq<ScheduledEntry>
    decreases n,
{
    if n == 0 {
        q
    } else {
        after_op(popped(q, (n - 1) as nat), QueueOp::Pop)
    }
}

/// Entries of different names pushed onto an empty queue, in whatever
/// order, are all in the queue, and nothing else is.
pub proof fn lemma_pushed(entries: Seq<ScheduledEntry>)
    requires
        names_unique(entries),
    ensures
        well_formed(pushed(Seq::empty(), entries)),
        pushed(Seq::empty(), entries).len() == entries.len(),
        forall|x: ScheduledEntry|
            pushed(Seq::empty(), entries).contains(x) <==> entries.contains(x),
    decreases entries.len(),
{
    let q = pushed(Seq::empty(), entries);
    if entries.len() > 0 {
        let front = entries.drop_last();
        let e = entries.last();
        let prev = pushed(Seq::empty(), front);
        assert forall|i: int, j: int| 0 <= i < j < front.len() implies front[i].command.name
            != front[j].command.name by {
            assert(front[i] == entries[i] && front[j] == entries[j]);
        }
        lemma_pushed(front);
        assert(!holds_name(prev, e.command.name)) by {
            if holds_name(prev, e.command.name) {
                let k = choose|k: int|
                    0 <= k < prev.len() && (#[trigger] prev[k]).command.name == e.command.name;
                assert(prev.contains(prev[k]));
                assert(front.contains(prev[k]));
                let i = choose|i: int| 0 <= i < front.len() && front[i] == prev[k];
                assert(entries[i].command.name != entries[entries.len() - 1].command.name);
            }
        }
        lemma_with_entry(prev, e);
        assert forall|x: ScheduledEntry| q.contains(x) <==> entries.contains(x) by {
            if q.contains(x) {
                let k = choose|k: int| 0 <= k < q.len() && q[k] == x;
                if q[k] == e {
                    assert(entries[entries.len() - 1] == x);
                } else {
                    assert(prev.contains(x));
                    assert(front.contains(x));
                    let i = choose|i: int| 0 <= i < front.len() && front[i] == x;
                    assert(entries[i] == x);
                }
            }
            if entries.contains(x) {
                let i = choose|i: int| 0 <= i < entries.len() && entries[i] == x;
                if i < front.len() {
                    assert(front[i] == x);
                    assert(front.contains(x));
                    assert(prev.contains(x));
                    let k = choose|k: int| 0 <= k < prev.len() && prev[k] == x;
                    assert(entries[i].command.name != entries[entries.len() - 1].command.name);
                    assert(prev[k].command.name != e.command.name);
                }
            }
        }
    }
}

/// Pops hand out a queue from its head: after `k` pops the first `k`
/// entries are gone, and the entry at the head is the one that was at `k`.
pub proof fn lemma_popped(q: Seq<ScheduledEntry>, k: nat)
    requires
        k <= q.len(),
    ensures
        popped(q, k) == q.skip(k as int),
    decreases k,
{
    if k > 0 {
        lemma_popped(q, (k - 1) as nat);
        assert(q.skip(k - 1).skip(1) =~= q.skip(k as int));
    } else {
        assert(q.skip(0) =~= q);
    }
}

/// Entries of different names pushed in whatever order and then popped one
/// by one come out earliest first, each of them once and nothing else; once
/// as many are popped as were pushed, the queue is empty.
///
/// `pushed(..)[k]` is what the pop after `k` pops hands out.
pub proof fn lemma_pushes_then_pops(entries: Seq<ScheduledEntry>)
    requires
        names_unique(entries),
    ensures
        pushed(Seq::empty(), entries).len() == entries.len(),
        forall|k: nat|
            k < entries.len() ==> (#[trigger] popped(pushed(Seq::empty(), entries), k)).len() > 0
                && popped(pushed(Seq::empty(), entries), k)[0] == pushed(
                Seq::empty(),
                entries,
            )[k as int],
        forall|i: int, j: int|
            0 <= i <= j < entries.len() ==> pushed(Seq::empty(), entries)[i].next_run <= pushed(
                Seq::empty(),
                entries,
            )[j].next_run,
        forall|x: ScheduledEntry|
            pushed(Seq::empty(), entries).contains(x) <==> entries.contains(x),
        names_unique(pushed(Seq::empty(), entries)),
        popped(pushed(Seq::empty(), entries), entries.len()).len() == 0,
{
    let q = pushed(Seq::empty(), entries);
    lemma_pushed(entries);
    assert forall|k: nat| k < entries.len() implies (#[trigger] popped(q, k)).len() > 0 && popped(
        q,
        k,
    )[0] == q[k as int] by {
        lemma_popped(q, k);
        assert(q.skip(k as int).len() == q.len() - k);
        assert(q.skip(k as int)[0] == q[k as int]);
    }
    lemma_popped(q, q.len());
}

/// In a queue the entry at the head is due no later than any other.
pub proof fn lemma_head_is_earliest(q: Seq<ScheduledEntry>, i: int)
    requires
        well_formed(q),
        0 <= i < q.len(),
    ensures
        q[0].next_run <= q[i].next_run,
{
}

/// Pending commands, the earliest due first. No two bear the same name.
#[derive(Debug)]
pub struct ScheduledQueue {
    entries: VecDeque<ScheduledCommand>,
}

impl View for ScheduledQueue {
    type V = Seq<ScheduledEntry>;

    /// The entries in the order in which [`ScheduledQueue::pop`] hands them
    /// out.
    closed spec fn view(&self) -> Seq<ScheduledEntry> {
        entries_of(self.entries@)
    }
}

impl ScheduledQueue {
    /// The entries are ordered by due time and their names are unique.
    pub open spec fn wf(&self) -> bool {
        well_formed(self@)
    }

    /// An empty queue.
    pub fn new() -> (q: ScheduledQueue)
        ensures
            q.wf(),
            q@ == Seq::<ScheduledEntry>::empty(),
    {
        let q = ScheduledQueue { entries: VecDeque::new() };
        assert(q@ =~= Seq::<ScheduledEntry>::empty());
        q
    }

    /// The number of pending commands.
    pub fn len(&self) -> (n: usize)
        ensures
            n == self@.len(),
    {
        self.entries.len()
    }

    /// Whether nothing is pending.
    pub fn is_empty(&self) -> (b: bool)
        ensures
            b == (self@.len() == 0),
    {
        self.entries.len() == 0
    }

    /// The place of the entry that bears `name`, or the length of the queue
    /// if there is none.
    fn place_of(&self, name: &String) -> (i: usize)
        ensures
            i <= self@.len(),
            i < self@.len() ==> self@[i as int].command.name == name@,
            forall|j: int| 0 <= j < i ==> (#[trigger] self@[j]).command.name != name@,
    {
        let mut i: usize = 0;
        while i < self.entries.len()
            invariant
                i <= self.entries.len(),
                forall|j: int| 0 <= j < i ==> (#[trigger] self@[j]).command.name != name@,
            decreases self.entries.len() - i,
        {
            if self.entries[i].command.name == *name {
                return i;
            }
            i += 1;
        }
        i
    }

    /// The entry that bears `name`, if there is one.
    pub fn find(&self, name: &String) -> (r: Option<&ScheduledCommand>)
        ensures
            r.is_some() <==> holds_name(self@, name@),
            r matches Some(e) ==> self@.contains(e@) && e@.command.name == name@,
    {
        let i = self.place_of(name);
        if i < self.entries.len() {
            assert(self@[i as int] == self.entries@[i as int]@);
            Some(&self.entries[i])
        } else {
            None
        }
    }

    /// Schedules `entry`. An entry of the same name gives way to it, and it
    /// stands behind every entry due no later than itself.
    pub fn push(&mut self, entry: ScheduledCommand)
        requires
            old(self).wf(),
        ensures
            final(self).wf(),
            final(self)@ == with_entry(old(self)@, entry@),
    {
        let i = self.place_of(&entry.command.name);
        let ghost before = self@;
        if i < self.entries.len() {
            proof {
                lemma_without_name_at(before, i as int);
            }
            self.entries.remove(i);
            assert(self@ =~= before.remove(i as int));
        }
        let ghost rest = self@;
        assert(rest == without_name(before, entry@.command.name));
        let mut p: usize = 0;
        while p < self.entries.len() && self.entries[p].next_run.millis() <= entry.next_run.millis()
            invariant
                p <= self.entries.len(),
                self@ == rest,
                forall|j: int| 0 <= j < p ==> (#[trigger] rest[j]).next_run <= entry@.next_run,
            decreases self.entries.len() - p,
        {
            p += 1;
        }
        proof {
            lemma_due_count_is(rest, entry@.next_run, p as int);
            lemma_with_entry(before, entry@);
        }
        self.entries.insert(p, entry);
        assert(self@ =~= rest.insert(p as int, entry@));
    }

    /// The entry due first, left in place.
    pub fn peek(&self) -> (r: Option<&ScheduledCommand>)
        requires
            self.wf(),
        ensures
            r.is_none() <==> self@.len() == 0,
            r matches Some(e) ==> e@ == self@[0] && forall|i: int|
                0 <= i < self@.len() ==> e@.next_run <= (#[trigger] self@[i]).next_run,
    {
        if self.entries.len() == 0 {
            None
        } else {
            Some(&self.entries[0])
        }
    }

    /// Takes out the entry due first: none of the entries is due before it.
    pub fn pop(&mut self) -> (r: Option<ScheduledCommand>)
        requires
            old(self).wf(),
        ensures
            final(self).wf(),
            r.is_none() <==> old(self)@.len() == 0,
            r.is_none() ==> final(self)@ == old(self)@,
            r matches Some(e) ==> e@ == old(self)@[0] && final(self)@ == old(self)@.skip(1)
                && forall|i: int|
                0 <= i < old(self)@.len() ==> e@.next_run <= (#[trigger] old(self)@[i]).next_run,
    {
        let ghost before = self@;
        let first = self.entries.pop_front();
        proof {
            if first.is_some() {
                assert(self@ =~= before.skip(1));
                lemma_skip_well_formed(before, 1);
            }
        }
        first
    }

    /// Takes out the entries due before `t`, the earliest first. The entries
    /// due at `t` or later stay as they are.
    pub fn take_due_before(&mut self, t: Timestamp) -> (due: Vec<ScheduledCommand>)
        requires
            old(self).wf(),
        ensures
            final(self).wf(),
            entries_of(due@) == old(self)@.take(due_count(old(self)@, t@ - 1) as int),
            final(self)@ == old(self)@.skip(due_count(old(self)@, t@ - 1) as int),
            forall|i: int| 0 <= i < due@.len() ==> (#[trigger] due@[i])@.next_run < t@,
            forall|i: int| 0 <= i < final(self)@.len() ==> (#[trigger] final(self)@[i]).next_run >= t@,
    {
        let ghost before = self@;
        let mut due: Vec<ScheduledCommand> = Vec::new();
        assert(entries_of(due@) =~= before.take(0));
        assert(self@ =~= before.skip(0));
        while self.entries.len() > 0 && self.entries[0].next_run.millis() < t.millis()
            invariant
                due.len() + self.entries.len() == before.len(),
                entries_of(due@) == before.take(due.len() as int),
                self@ == before.skip(due.len() as int),
                forall|j: int| 0 <= j < due.len() ==> (#[trigger] before[j]).next_run <= t@ - 1,
            decreases self.entries.len(),
        {
            let ghost k = due.len() as int;
            let ghost mid = self@;
            assert(mid[0] == before[k]);
            match self.entries.pop_front() {
                Some(entry) => {
                    assert(entry@ == mid[0]);
                    assert(self@ =~= mid.skip(1));
                    due.push(entry);
                    assert(entries_of(due@) =~= before.take(k + 1));
                    assert(mid.skip(1) =~= before.skip(k + 1));
                },
                None => {},
            }
        }
        proof {
            let k = due.len() as int;
            if k < before.len() {
                assert(self@[0] == before[k]);
            }
            lemma_due_count_is(before, t@ - 1, k);
            lemma_due_count(before, t@ - 1);
            lemma_skip_well_formed(before, k);
            assert forall|i: int| 0 <= i < due@.len() implies (#[trigger] due@[i])@.next_run < t@ by {
                assert(due@[i]@ == entries_of(due@)[i]);
                assert(entries_of(due@)[i] == before[i]);
            }
            assert forall|i: int| 0 <= i < self@.len() implies (#[trigger] self@[i]).next_run
                >= t@ by {
                assert(self@[i] == before[i + k]);
            }
        }
        due
    }

    /// Takes out every entry, the earliest due first, and leaves the queue
    /// empty.
    pub fn drain_all(&mut self) -> (all: Vec<ScheduledCommand>)
        ensures
            entries_of(all@) == old(self)@,
            final(self)@ == Seq::<ScheduledEntry>::empty(),
            final(self).wf(),
    {
        let ghost before = self@;
        let mut all: Vec<ScheduledCommand> = Vec::new();
        assert(entries_of(all@) =~= before.take(0));
        assert(self@ =~= before.skip(0));
        while self.entries.len() > 0
            invariant
                all.len() + self.entries.len() == before.len(),
                entries_of(all@) == before.take(all.len() as int),
                self@ == before.skip(all.len() as int),
            decreases self.entries.len(),
        {
            let ghost k = all.len() as int;
            let ghost mid = self@;
            assert(mid[0] == before[k]);
            match self.entries.pop_front() {
                Some(entry) => {
                    assert(entry@ == mid[0]);
                    assert(self@ =~= mid.skip(1));
                    all.push(entry);
                    assert(entries_of(all@) =~= before.take(k + 1));
                    assert(mid.skip(1) =~= before.skip(k + 1));
                },
                None => {},
            }
        }
        assert(before.take(before.len() as int) =~= before);
        assert(self@ =~= Seq::<ScheduledEntry>::empty());
        all
    }
}

} // verus!
