//! The task record, its lifecycle predicates and the sums taken over task sequences.

use vstd::prelude::*;
use vstd::multiset::Multiset;

verus! {

/// One unit of schedulable work.
#[derive(Clone, Copy, Debug, PartialEq, Eq)]
pub struct Task {
    /// Identifier, unchanged by every engine.
    pub pid: u32,
    /// Time unit at which the task becomes eligible to run.
    pub time_arrival: u32,
    /// Total processing time the task needs.
    pub burst_time: u32,
    /// Processing time still owed.
    pub remaining_time: u32,
    /// Time of the first dispatch, unset until then.
    pub start_time: Option<u32>,
    /// Time at which the remaining time reached zero, unset until then.
    pub finish_time: Option<u32>,
}

/// Why an engine or the metrics calculation declined its input.
#[derive(Clone, Copy, Debug, PartialEq, Eq)]
pub enum SchedError {
    /// The round-robin quantum is zero.
    InvalidConfiguration,
    /// Some task has a zero burst, or has already been run.
    InvalidTask,
    /// The time at which the last task would finish exceeds `u32::MAX`.
    TimeOverflow,
    /// Averages over no tasks were asked for.
    EmptyTaskSet,
    /// A task handed to the metrics calculation has no finish time, or one
    /// earlier than its arrival plus its burst.
    IncompleteTask,
}

impl Task {
    /// The fields that no engine changes.
    pub open spec fn identity(self) -> (u32, u32, u32) {
        (self.pid, self.time_arrival, self.burst_time)
    }

    /// A task as constructed from input: positive burst, all of it still owed, never dispatched.
    pub open spec fn is_fresh(self) -> bool {
        &&& self.burst_time > 0
        &&& self.remaining_time == self.burst_time
        &&& self.start_time is None
        &&& self.finish_time is None
    }

    /// An arrived, unfinished task at time `clock`: it arrived, work remains, and
    /// if it was dispatched then the work done so far fits between its start and `clock`.
    pub open spec fn is_in_flight(self, clock: int) -> bool {
        &&& self.burst_time > 0
        &&& 0 < self.remaining_time <= self.burst_time
        &&& self.finish_time is None
        &&& self.time_arrival <= clock
        &&& match self.start_time {
            Some(s) => self.time_arrival <= s && s + (self.burst_time - self.remaining_time) <= clock,
            None => self.remaining_time == self.burst_time,
        }
    }

    /// A completed task: it started no earlier than it arrived, finished no
    /// earlier than it started, and spent at least its burst in the system.
    pub open spec fn is_completed(self) -> bool {
        &&& self.start_time is Some
        &&& self.finish_time is Some
        &&& self.time_arrival <= self.start_time->0
        &&& self.start_time->0 <= self.finish_time->0
        &&& self.time_arrival + self.burst_time <= self.finish_time->0
    }

    /// A completed task that finished no earlier than its start plus its burst,
    /// as every task does that an engine ran.
    pub open spec fn is_run_through(self) -> bool {
        &&& self.is_completed()
        &&& self.start_time->0 + self.burst_time <= self.finish_time->0
    }

    /// A task that waiting and turnaround times can be taken from: it has a
    /// finish time, no earlier than its arrival plus its burst.
    pub open spec fn is_measurable(self) -> bool {
        &&& self.finish_time is Some
        &&& self.time_arrival + self.burst_time <= self.finish_time->0
    }

    /// Time in the system: finish minus arrival.
    pub open spec fn turnaround(self) -> int {
        self.finish_time->0 - self.time_arrival
    }

    /// Time spent not running: turnaround minus burst.
    pub open spec fn waiting(self) -> int {
        self.finish_time->0 - self.time_arrival - self.burst_time
    }

    /// A fresh task from an input triple.
    pub fn new(pid: u32, time_arrival: u32, burst_time: u32) -> (t: Task)
        ensures
            t.pid == pid,
            t.time_arrival == time_arrival,
            t.burst_time == burst_time,
            t.remaining_time == burst_time,
            t.start_time is None,
            t.finish_time is None,
            burst_time > 0 ==> t.is_fresh(),
    {
        Task {
            pid,
            time_arrival,
            burst_time,
            remaining_time: burst_time,
            start_time: None,
            finish_time: None,
        }
    }
}

/// The task that a record of input fields stands for: a fresh task of the three
/// fields id, arrival time and burst time, and none for a record of any other length.
pub open spec fn record_task(fields: Seq<u32>) -> Option<Task> {
    if fields.len() == 3 {
        Some(
            Task {
                pid: fields[0],
                time_arrival: fields[1],
                burst_time: fields[2],
                remaining_time: fields[2],
                start_time: None,
                finish_time: None,
            },
        )
    } else {
        None
    }
}

/// Builds the task of an input record, skipping a record that does not hold
/// exactly three fields.
pub fn task_from_fields(fields: &Vec<u32>) -> (t: Option<Task>)
    ensures
        t == record_task(fields@),
{
    if fields.len() == 3 {
        Some(Task::new(fields[0], fields[1], fields[2]))
    } else {
        None
    }
}

/// The identities of the tasks in `s`, with multiplicity and without order.
pub open spec fn identities(s: Seq<Task>) -> Multiset<(u32, u32, u32)>
    decreases s.len(),
{
    if s.len() == 0 {
        Multiset::empty()
    } else {
        identities(s.drop_last()).insert(s.last().identity())
    }
}

/// The processing time still owed by the tasks in `s`.
pub open spec fn total_remaining(s: Seq<Task>) -> int
    decreases s.len(),
{
    if s.len() == 0 {
        0
    } else {
        total_remaining(s.drop_last()) + s.last().remaining_time
    }
}

/// Every task of `s` is fresh.
pub open spec fn all_fresh(s: Seq<Task>) -> bool {
    forall|i: int| 0 <= i < s.len() ==> (#[trigger] s[i]).is_fresh()
}

/// Every task of `s` is measurable.
pub open spec fn all_measurable(s: Seq<Task>) -> bool {
    forall|i: int| 0 <= i < s.len() ==> (#[trigger] s[i]).is_measurable()
}

/// Every task of `s` is run through.
pub open spec fn all_run_through(s: Seq<Task>) -> bool {
    forall|i: int| 0 <= i < s.len() ==> (#[trigger] s[i]).is_run_through()
}

/// Tasks that are run through are completed.
pub proof fn lemma_run_through_is_completed(s: Seq<Task>)
    requires
        all_run_through(s),
    ensures
        all_completed(s),
{
    assert forall|i: int| 0 <= i < s.len() implies (#[trigger] s[i]).is_completed() by {
        assert(s[i].is_run_through());
    }
}

/// Every task of `s` is completed.
pub open spec fn all_completed(s: Seq<Task>) -> bool {
    forall|i: int| 0 <= i < s.len() ==> (#[trigger] s[i]).is_completed()
}

/// No task of `s` has work left.
pub open spec fn all_drained(s: Seq<Task>) -> bool {
    forall|i: int| 0 <= i < s.len() ==> (#[trigger] s[i]).remaining_time == 0
}

/// Every task of `s` has arrived and is unfinished at `clock`.
pub open spec fn all_in_flight(s: Seq<Task>, clock: int) -> bool {
    forall|i: int| 0 <= i < s.len() ==> (#[trigger] s[i]).is_in_flight(clock)
}

/// Identities of a concatenation are the sum of the parts' identities.
pub proof fn lemma_identities_concat(a: Seq<Task>, b: Seq<Task>)
    ensures
        identities(a + b) == identities(a).add(identities(b)),
    decreases b.len(),
{
    if b.len() == 0 {
        assert(a + b =~= a);
        assert(identities(a).add(identities(b)) =~= identities(a));
    } else {
        lemma_identities_concat(a, b.drop_last());
        assert((a + b).drop_last() =~= a + b.drop_last());
        assert((a + b).last() == b.last());
        assert(identities(a + b) =~= identities(a).add(identities(b)));
    }
}

/// Work owed by a concatenation is the sum of the parts' work.
pub proof fn lemma_total_remaining_concat(a: Seq<Task>, b: Seq<Task>)
    ensures
        total_remaining(a + b) == total_remaining(a) + total_remaining(b),
    decreases b.len(),
{
    if b.len() == 0 {
        assert(a + b =~= a);
    } else {
        lemma_total_remaining_concat(a, b.drop_last());
        assert((a + b).drop_last() =~= a + b.drop_last());
        assert((a + b).last() == b.last());
    }
}

/// Work owed is never negative.
pub proof fn lemma_total_remaining_nonneg(s: Seq<Task>)
    ensures
        total_remaining(s) >= 0,
    decreases s.len(),
{
    if s.len() > 0 {
        lemma_total_remaining_nonneg(s.drop_last());
    }
}

/// Identities and work of a one-task sequence.
pub proof fn lemma_single(t: Task)
    ensures
        identities(seq![t]) == Multiset::<(u32, u32, u32)>::empty().insert(t.identity()),
        total_remaining(seq![t]) == t.remaining_time,
{
    assert(seq![t].drop_last() =~= Seq::<Task>::empty());
    assert(identities(seq![t].drop_last()) =~= Multiset::empty());
    assert(total_remaining(seq![t].drop_last()) == 0);
}

/// Splitting `s` at `k` keeps identities and work.
pub proof fn lemma_split(s: Seq<Task>, k: int)
    requires
        0 <= k <= s.len(),
    ensures
        identities(s) == identities(s.take(k)).add(identities(s.skip(k))),
        total_remaining(s) == total_remaining(s.take(k)) + total_remaining(s.skip(k)),
{
    assert(s =~= s.take(k) + s.skip(k));
    lemma_identities_concat(s.take(k), s.skip(k));
    lemma_total_remaining_concat(s.take(k), s.skip(k));
}

} // verus!
