//! Every run is determined by its input: what an engine or the metrics
//! calculation may hand back for given tasks is one result and no other.

use vstd::prelude::*;
use crate::fcfs::is_fcfs_result;
use crate::metrics::{is_metrics_result, Metrics};
use crate::rr::is_rr_result;
use crate::sim::Outcome;
use crate::srtf::is_srtf_result;
use crate::task::{SchedError, Task};

verus! {

/// Two results of a run are the same: both decline for the same reason, or both
/// hold the same completed tasks in the same order and the same trace.
pub open spec fn same_run(a: Result<Outcome, SchedError>, b: Result<Outcome, SchedError>) -> bool {
    match (a, b) {
        (Ok(x), Ok(y)) => x.completed@ == y.completed@ && x.trace@ == y.trace@,
        (Err(e), Err(f)) => e == f,
        _ => false,
    }
}

/// Two first-come-first-served runs over the same tasks give the same result.
pub proof fn lemma_fcfs_repeatable(
    tasks: Seq<Task>,
    a: Result<Outcome, SchedError>,
    b: Result<Outcome, SchedError>,
)
    requires
        is_fcfs_result(tasks, a),
        is_fcfs_result(tasks, b),
    ensures
        same_run(a, b),
{
}

/// Two round-robin runs over the same tasks with the same quantum give the same result.
pub proof fn lemma_rr_repeatable(
    tasks: Seq<Task>,
    quantum: int,
    a: Result<Outcome, SchedError>,
    b: Result<Outcome, SchedError>,
)
    requires
        is_rr_result(tasks, quantum, a),
        is_rr_result(tasks, quantum, b),
    ensures
        same_run(a, b),
{
}

/// Two shortest-remaining-time-first runs over the same tasks give the same result.
pub proof fn lemma_srtf_repeatable(
    tasks: Seq<Task>,
    a: Result<Outcome, SchedError>,
    b: Result<Outcome, SchedError>,
)
    requires
        is_srtf_result(tasks, a),
        is_srtf_result(tasks, b),
    ensures
        same_run(a, b),
{
}

/// The metrics of the same completed tasks are the same, and so are the metrics
/// of two runs that gave the same result.
pub proof fn lemma_metrics_repeatable(
    first: Seq<Task>,
    second: Seq<Task>,
    a: Result<Metrics, SchedError>,
    b: Result<Metrics, SchedError>,
)
    requires
        first == second,
        is_metrics_result(first, a),
        is_metrics_result(second, b),
    ensures
        a == b,
{
}

} // verus!
