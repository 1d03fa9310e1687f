//! Which task lists the engines accept.

use vstd::prelude::*;
use crate::order::{arrival_sorted, sort_tasks_by_arrival};
use crate::task::{all_fresh, SchedError, Task};

verus! {

/// The later of the clock and the task's arrival: when a task that is next in
/// line gets the processor.
pub open spec fn dispatch_time(clock: int, t: Task) -> int {
    if clock < t.time_arrival {
        t.time_arrival as int
    } else {
        clock
    }
}

/// The clock once the first `n` tasks of `sorted` have run, one after the
/// other, the processor idling until the next arrives.
pub open spec fn clock_after(sorted: Seq<Task>, n: int) -> int
    decreases n,
{
    if n <= 0 {
        0
    } else {
        dispatch_time(clock_after(sorted, n - 1), sorted[n - 1]) + sorted[n - 1].burst_time
    }
}

/// The time at which a processor that never idles while a task is waiting has
/// done all of `tasks`. It is the same for every such discipline.
pub open spec fn makespan(tasks: Seq<Task>) -> int {
    clock_after(arrival_sorted(tasks), tasks.len() as int)
}

/// Whether simulated time stays within `u32`.
pub open spec fn horizon_fits(tasks: Seq<Task>) -> bool {
    makespan(tasks) <= u32::MAX
}

/// Why the engines decline `tasks`, if they do: a task that is not fresh comes
/// before a horizon that does not fit.
pub open spec fn rejection(tasks: Seq<Task>) -> Option<SchedError> {
    if !all_fresh(tasks) {
        Some(SchedError::InvalidTask)
    } else if !horizon_fits(tasks) {
        Some(SchedError::TimeOverflow)
    } else {
        None
    }
}

/// The clock never runs backwards.
pub proof fn lemma_clock_after_monotone(sorted: Seq<Task>, m: int, n: int)
    requires
        0 <= m <= n,
    ensures
        0 <= clock_after(sorted, m) <= clock_after(sorted, n),
    decreases n,
{
    if m < n {
        lemma_clock_after_monotone(sorted, m, n - 1);
    } else if n > 0 {
        lemma_clock_after_monotone(sorted, 0, n - 1);
    }
}

/// Whether every task of the list is fresh.
pub fn all_tasks_fresh(tasks: &Vec<Task>) -> (b: bool)
    ensures
        b == all_fresh(tasks@),
{
    let n = tasks.len();
    let mut i: usize = 0;
    while i < n
        invariant
            n == tasks.len(),
            i <= n,
            forall|k: int| 0 <= k < i ==> (#[trigger] tasks@[k]).is_fresh(),
        decreases n - i,
    {
        let t = tasks[i];
        if t.burst_time == 0 || t.remaining_time != t.burst_time || t.start_time.is_some()
            || t.finish_time.is_some() {
            assert(!tasks@[i as int].is_fresh());
            return false;
        }
        i += 1;
    }
    true
}

/// Whether the clock stays within `u32` while the tasks of an arrival-sorted
/// list run one after the other.
pub fn makespan_fits(sorted: &Vec<Task>) -> (b: bool)
    ensures
        b == (clock_after(sorted@, sorted@.len() as int) <= u32::MAX),
{
    let n = sorted.len();
    let mut clock: u32 = 0;
    let mut i: usize = 0;
    while i < n
        invariant
            n == sorted.len(),
            i <= n,
            clock == clock_after(sorted@, i as int),
        decreases n - i,
    {
        let t = sorted[i];
        let start = if clock < t.time_arrival {
            t.time_arrival
        } else {
            clock
        };
        if t.burst_time > u32::MAX - start {
            proof {
                lemma_clock_after_monotone(sorted@, i + 1, n as int);
            }
            return false;
        }
        clock = start + t.burst_time;
        i += 1;
    }
    true
}

/// Takes a task list in: declines it for the reason that `rejection` names, or
/// hands it back sorted by arrival, ties in input order.
pub fn take_in(tasks: Vec<Task>) -> (r: Result<Vec<Task>, SchedError>)
    ensures
        match r {
            Ok(sorted) => rejection(tasks@) is None && sorted@ == arrival_sorted(tasks@),
            Err(e) => rejection(tasks@) == Some(e),
        },
{
    if !all_tasks_fresh(&tasks) {
        return Err(SchedError::InvalidTask);
    }
    let sorted = sort_tasks_by_arrival(tasks);
    if !makespan_fits(&sorted) {
        return Err(SchedError::TimeOverflow);
    }
    Ok(sorted)
}

/// Tests a task list as the engines do on entry.
pub fn check_tasks(tasks: &Vec<Task>) -> (r: Option<SchedError>)
    ensures
        r == rejection(tasks@),
{
    let n = tasks.len();
    let mut copy: Vec<Task> = Vec::new();
    let mut i: usize = 0;
    while i < n
        invariant
            n == tasks.len(),
            i <= n,
            copy@ == tasks@.take(i as int),
        decreases n - i,
    {
        copy.push(tasks[i]);
        proof {
            assert(copy@ =~= tasks@.take(i + 1));
        }
        i += 1;
    }
    proof {
        assert(copy@ =~= tasks@);
    }
    match take_in(copy) {
        Ok(_) => None,
        Err(e) => Some(e),
    }
}

} // verus!
