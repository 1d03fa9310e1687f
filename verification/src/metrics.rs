//! Waiting and turnaround totals over finished tasks.

use vstd::prelude::*;
use crate::task::{all_completed, all_measurable, SchedError, Task};

verus! {

/// The sums that the averages are taken from. The average waiting time is
/// `total_waiting / count`, the average turnaround time `total_turnaround / count`.
#[derive(Clone, Copy, Debug, PartialEq, Eq)]
pub struct Metrics {
    /// Sum over the tasks of finish minus arrival minus burst.
    pub total_waiting: u128,
    /// Sum over the tasks of finish minus arrival.
    pub total_turnaround: u128,
    /// Number of tasks, never zero.
    pub count: usize,
}

/// Sum of the waiting times of the tasks in `s`.
pub open spec fn total_waiting(s: Seq<Task>) -> int
    decreases s.len(),
{
    if s.len() == 0 {
        0
    } else {
        total_waiting(s.drop_last()) + s.last().waiting()
    }
}

/// Sum of the turnaround times of the tasks in `s`.
pub open spec fn total_turnaround(s: Seq<Task>) -> int
    decreases s.len(),
{
    if s.len() == 0 {
        0
    } else {
        total_turnaround(s.drop_last()) + s.last().turnaround()
    }
}

/// Sum of the burst times of the tasks in `s`.
pub open spec fn total_burst(s: Seq<Task>) -> int
    decreases s.len(),
{
    if s.len() == 0 {
        0
    } else {
        total_burst(s.drop_last()) + s.last().burst_time
    }
}

/// Why no metrics are computed over `tasks`, if none are: no tasks comes before
/// a task without a finish time, or with one earlier than its arrival plus its
/// burst. Nothing else of a task is looked at.
pub open spec fn metrics_rejection(tasks: Seq<Task>) -> Option<SchedError> {
    if tasks.len() == 0 {
        Some(SchedError::EmptyTaskSet)
    } else if !all_measurable(tasks) {
        Some(SchedError::IncompleteTask)
    } else {
        None
    }
}

/// What the metrics calculation over `tasks` hands back: the reason why it
/// declines, if there is one, and else the two totals and the number of tasks.
pub open spec fn is_metrics_result(tasks: Seq<Task>, r: Result<Metrics, SchedError>) -> bool {
    match r {
        Ok(m) => {
            &&& metrics_rejection(tasks) is None
            &&& m.count == tasks.len()
            &&& m.total_waiting == total_waiting(tasks)
            &&& m.total_turnaround == total_turnaround(tasks)
        },
        Err(e) => metrics_rejection(tasks) == Some(e),
    }
}

/// Over measurable tasks no total is negative, and the turnaround total is the
/// waiting total plus the bursts.
pub proof fn lemma_totals(s: Seq<Task>)
    requires
        all_measurable(s),
    ensures
        0 <= total_waiting(s) <= total_turnaround(s),
        total_turnaround(s) == total_waiting(s) + total_burst(s),
    decreases s.len(),
{
    if s.len() > 0 {
        assert(s.last().is_measurable());
        assert forall|i: int| 0 <= i < s.drop_last().len() implies (
        #[trigger] s.drop_last()[i]).is_measurable() by {
            assert(s[i].is_measurable());
        }
        lemma_totals(s.drop_last());
    }
}

/// Completed tasks are measurable: what an engine hands back, the metrics
/// calculation accepts, unless it is empty.
pub proof fn lemma_completed_is_measurable(s: Seq<Task>)
    requires
        all_completed(s),
    ensures
        all_measurable(s),
{
    assert forall|i: int| 0 <= i < s.len() implies (#[trigger] s[i]).is_measurable() by {
        assert(s[i].is_completed());
    }
}

/// Whether waiting and turnaround times can be taken from `t`.
pub fn is_measurable_task(t: &Task) -> (b: bool)
    ensures
        b == t.is_measurable(),
{
    match t.finish_time {
        Some(f) => t.time_arrival <= f && t.burst_time <= f - t.time_arrival,
        None => false,
    }
}

/// Totals the waiting and turnaround times of finished tasks.
///
/// Declines an empty list, for which no average exists, and a list with a task
/// that has no finish time or one earlier than its arrival plus its burst.
pub fn calculate_metrics(tasks: &[Task]) -> (r: Result<Metrics, SchedError>)
    ensures
        is_metrics_result(tasks@, r),
        r matches Ok(m) ==> {
            &&& m.count > 0
            &&& m.total_waiting <= m.total_turnaround
            &&& m.total_turnaround == m.total_waiting + total_burst(tasks@)
        },
{
    let n = tasks.len();
    if n == 0 {
        return Err(SchedError::EmptyTaskSet);
    }
    let mut waiting: u128 = 0;
    let mut turnaround: u128 = 0;
    let mut i: usize = 0;
    while i < n
        invariant
            n == tasks.len(),
            i <= n,
            all_measurable(tasks@.take(i as int)),
            waiting == total_waiting(tasks@.take(i as int)),
            turnaround == total_turnaround(tasks@.take(i as int)),
            waiting <= i * 0x1_0000_0000,
            turnaround <= i * 0x1_0000_0000,
        decreases n - i,
    {
        let t = tasks[i];
        if !is_measurable_task(&t) {
            assert(!tasks@[i as int].is_measurable());
            return Err(SchedError::IncompleteTask);
        }
        proof {
            assert(tasks@.take(i + 1).drop_last() =~= tasks@.take(i as int));
            assert(tasks@.take(i + 1).last() == t);
            assert forall|k: int| 0 <= k < i + 1 implies (
            #[trigger] tasks@.take(i + 1)[k]).is_measurable() by {
                if k < i {
                    assert(tasks@.take(i as int)[k].is_measurable());
                }
            }
        }
        match t.finish_time {
            Some(f) => {
                let spent: u32 = f - t.time_arrival;
                waiting = waiting + ((spent - t.burst_time) as u128);
                turnaround = turnaround + (spent as u128);
            },
            None => {
                assert(false);
            },
        }
        i += 1;
    }
    proof {
        assert(tasks@.take(n as int) =~= tasks@);
        lemma_totals(tasks@);
    }
    Ok(Metrics { total_waiting: waiting, total_turnaround: turnaround, count: n })
}

} // verus!
