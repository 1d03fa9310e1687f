//! First-come-first-served: tasks run to completion in arrival order.

use vstd::prelude::*;
use crate::intake::{
    clock_after, dispatch_time, lemma_clock_after_monotone, makespan, rejection, take_in,
};
use crate::order::{arrival_sorted, is_stable_arrangement, lemma_arrival_sorted};
use crate::sim::{handle_idle_time, Event, Outcome};
use crate::task::{
    all_completed, all_run_through, identities, lemma_run_through_is_completed, SchedError, Task,
};

verus! {

/// `t` as it leaves the processor when it was next in line at `clock`.
pub open spec fn fcfs_served(t: Task, clock: int) -> Task {
    Task {
        start_time: Some(dispatch_time(clock, t) as u32),
        finish_time: Some((dispatch_time(clock, t) + t.burst_time) as u32),
        ..t
    }
}

/// The completed tasks of a first-come-first-served run over `tasks`.
pub open spec fn fcfs_schedule(tasks: Seq<Task>) -> Seq<Task> {
    let sorted = arrival_sorted(tasks);
    Seq::new(sorted.len(), |k: int| fcfs_served(sorted[k], clock_after(sorted, k)))
}

/// The events of serving `t` when it was next in line at `clock`: idle time if
/// it had not arrived yet, then its start and its finish.
pub open spec fn fcfs_events(t: Task, clock: int) -> Seq<Event> {
    let start = dispatch_time(clock, t);
    let run = seq![
        Event::Start { pid: t.pid, time: start as u32 },
        Event::Finish { pid: t.pid, time: (start + t.burst_time) as u32 },
    ];
    if clock < t.time_arrival {
        seq![Event::Idle { from: clock as u32, to: start as u32 }] + run
    } else {
        run
    }
}

/// The trace of serving the first `n` tasks of `sorted`.
pub open spec fn fcfs_trace(sorted: Seq<Task>, n: int) -> Seq<Event>
    decreases n,
{
    if n <= 0 {
        Seq::empty()
    } else {
        fcfs_trace(sorted, n - 1) + fcfs_events(sorted[n - 1], clock_after(sorted, n - 1))
    }
}

/// Two sequences with the same identities position by position have the same identities.
pub proof fn lemma_identities_pointwise(a: Seq<Task>, b: Seq<Task>)
    requires
        a.len() == b.len(),
        forall|k: int| 0 <= k < a.len() ==> a[k].identity() == b[k].identity(),
    ensures
        identities(a) == identities(b),
    decreases a.len(),
{
    if a.len() > 0 {
        lemma_identities_pointwise(a.drop_last(), b.drop_last());
    }
}

/// A first-come-first-served run over an accepted task list holds every task
/// once, completed, in arrival order with ties in input order, and no task
/// starts before the one in front of it has finished. The last finishes at the
/// makespan.
pub proof fn lemma_fcfs_schedule(tasks: Seq<Task>) -> (from: Seq<int>)
    requires
        rejection(tasks) is None,
    ensures
        fcfs_schedule(tasks).len() == tasks.len(),
        all_completed(fcfs_schedule(tasks)),
        all_run_through(fcfs_schedule(tasks)),
        identities(fcfs_schedule(tasks)) == identities(tasks),
        is_stable_arrangement(tasks, fcfs_schedule(tasks), from),
        forall|k: int, l: int|
            0 <= k < l < tasks.len() ==> fcfs_schedule(tasks)[k].finish_time->0 <= fcfs_schedule(
                tasks,
            )[l].start_time->0,
        tasks.len() > 0 ==> fcfs_schedule(tasks).last().finish_time == Some(
            makespan(tasks) as u32,
        ),
{
    let sorted = arrival_sorted(tasks);
    let from = lemma_arrival_sorted(tasks);
    let served = fcfs_schedule(tasks);
    let n = sorted.len() as int;
    assert forall|k: int| 0 <= k < served.len() implies (#[trigger] served[k]).is_run_through()
        && served[k].identity() == sorted[k].identity() && served[k].finish_time->0 == clock_after(
        sorted,
        k + 1,
    ) && served[k].start_time->0 >= clock_after(sorted, k) by {
        lemma_clock_after_monotone(sorted, k, k + 1);
        lemma_clock_after_monotone(sorted, k + 1, n);
    }
    assert forall|k: int, l: int| 0 <= k < l < tasks.len() implies served[k].finish_time->0
        <= served[l].start_time->0 by {
        lemma_clock_after_monotone(sorted, k + 1, l);
        assert(served[k].is_run_through() && served[l].is_run_through());
    }
    lemma_identities_pointwise(served, sorted);
    lemma_run_through_is_completed(served);
    from
}

/// What a first-come-first-served run over `tasks` hands back: the reason why
/// the list is declined, if there is one, and else the schedule and its trace.
pub open spec fn is_fcfs_result(tasks: Seq<Task>, r: Result<Outcome, SchedError>) -> bool {
    match r {
        Ok(out) => {
            &&& rejection(tasks) is None
            &&& out.completed@ == fcfs_schedule(tasks)
            &&& out.trace@ == fcfs_trace(arrival_sorted(tasks), tasks.len() as int)
        },
        Err(e) => rejection(tasks) == Some(e),
    }
}

/// Runs the tasks first come, first served.
///
/// Declines a list that `rejection` names a reason for. Otherwise the tasks come
/// back in arrival order, ties in input order, each started when its
/// predecessor finished or when it arrived, whichever is later, and finished one
/// burst after that.
pub fn fcfs(tasks: Vec<Task>) -> (r: Result<Outcome, SchedError>)
    ensures
        is_fcfs_result(tasks@, r),
        r matches Ok(out) ==> {
            &&& all_completed(out.completed@)
            &&& all_run_through(out.completed@)
            &&& identities(out.completed@) == identities(tasks@)
            &&& exists|from: Seq<int>| is_stable_arrangement(tasks@, out.completed@, from)
            &&& forall|k: int, l: int|
                0 <= k < l < out.completed@.len() ==> out.completed@[k].finish_time->0
                    <= out.completed@[l].start_time->0
            &&& tasks@.len() > 0 ==> out.completed@.last().finish_time == Some(
                makespan(tasks@) as u32,
            )
        },
{
    let ghost input = tasks@;
    let sorted = match take_in(tasks) {
        Ok(sorted) => sorted,
        Err(e) => {
            return Err(e);
        },
    };
    let n = sorted.len();
    let mut done: Vec<Task> = Vec::new();
    let mut trace: Vec<Event> = Vec::new();
    let mut clock: u32 = 0;
    let mut i: usize = 0;
    proof {
        let from = lemma_arrival_sorted(input);
    }
    while i < n
        invariant
            n == sorted@.len(),
            i <= n,
            clock_after(sorted@, n as int) <= u32::MAX,
            clock == clock_after(sorted@, i as int),
            trace@ == fcfs_trace(sorted@, i as int),
            done@.len() == i,
            forall|k: int|
                0 <= k < i ==> #[trigger] done@[k] == fcfs_served(
                    sorted@[k],
                    clock_after(sorted@, k),
                ),
        decreases n - i,
    {
        let mut t = sorted[i];
        proof {
            lemma_clock_after_monotone(sorted@, i + 1, n as int);
        }
        let ghost before = trace@;
        let ghost events = fcfs_events(sorted@[i as int], clock as int);
        if clock < t.time_arrival {
            handle_idle_time(&mut clock, t.time_arrival, &mut trace);
        }
        t.start_time = Some(clock);
        trace.push(Event::Start { pid: t.pid, time: clock });
        clock = clock + t.burst_time;
        t.finish_time = Some(clock);
        trace.push(Event::Finish { pid: t.pid, time: clock });
        done.push(t);
        proof {
            assert(trace@ =~= before + events);
        }
        i += 1;
    }
    proof {
        assert(done@ =~= fcfs_schedule(input));
        let from = lemma_fcfs_schedule(input);
    }
    Ok(Outcome { completed: done, trace })
}

} // verus!
