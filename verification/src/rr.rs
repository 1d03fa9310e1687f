//! Round-robin: a first-in-first-out ready queue and a fixed quantum.

use vstd::prelude::*;
use std::collections::VecDeque;
use crate::intake::{makespan, rejection, take_in};
use crate::order::arrival_sorted;
use crate::sim::{
    after_running, arrived_count, finished_at, handle_idle_time, initial_state, is_finished,
    lemma_arrival, lemma_arrived_count, lemma_arrived_count_later, lemma_drained_at_arrival,
    lemma_drained_at_lower, lemma_in_flight_later, lemma_initial_state, lemma_settle,
    lemma_unfinished_owes_work, settle, sim_inv, state_of, work_left, Event, Outcome, SimState,
};
use crate::task::{
    all_completed, all_drained, all_run_through, identities, lemma_identities_concat,
    lemma_run_through_is_completed, lemma_single, lemma_total_remaining_concat,
    lemma_total_remaining_nonneg, total_remaining, SchedError, Task,
};

verus! {

/// How long a task holds the processor in one go: the quantum, or what is left
/// of the task if that is less.
pub open spec fn slice_length(t: Task, quantum: int) -> int {
    if t.remaining_time < quantum {
        t.remaining_time as int
    } else {
        quantum
    }
}

/// One round-robin step of an unfinished state: settle, give the front task one
/// slice, let the tasks that arrive during the slice queue up, then put the task
/// behind them if it has work left, or among the finished if not.
pub open spec fn rr_step(st: SimState, quantum: int) -> SimState {
    let s = settle(st);
    let t = s.ready[0];
    let run = slice_length(t, quantum);
    let clock = s.clock + run;
    let k = arrived_count(s.pool, clock);
    let ran = after_running(t, s.clock, run);
    let ready = s.ready.skip(1) + s.pool.take(k);
    let dispatch = if t.start_time is None {
        Event::Start { pid: t.pid, time: s.clock as u32 }
    } else {
        Event::Resume { pid: t.pid, time: s.clock as u32 }
    };
    if ran.remaining_time > 0 {
        SimState {
            pool: s.pool.skip(k),
            ready: ready.push(ran),
            clock,
            done: s.done,
            trace: s.trace.push(dispatch).push(Event::Pause { pid: t.pid, time: clock as u32 }),
        }
    } else {
        SimState {
            pool: s.pool.skip(k),
            ready,
            clock,
            done: s.done.push(finished_at(ran, clock)),
            trace: s.trace.push(dispatch).push(Event::Finish { pid: t.pid, time: clock as u32 }),
        }
    }
}

/// The state after at most `steps` round-robin steps, fewer if the run finishes.
pub open spec fn rr_run(st: SimState, quantum: int, steps: nat) -> SimState
    decreases steps,
{
    if steps == 0 || is_finished(st) {
        st
    } else {
        rr_run(rr_step(st, quantum), quantum, (steps - 1) as nat)
    }
}

/// The final state of a round-robin run over `tasks`. Every step does at least
/// one unit of work, so as many steps as there are units of work finish the run.
pub open spec fn rr_schedule(tasks: Seq<Task>, quantum: int) -> SimState {
    rr_run(initial_state(arrival_sorted(tasks)), quantum, total_remaining(tasks) as nat)
}

/// A round-robin step keeps the invariant, does work, and never turns the clock
/// back; its slice is no longer than the quantum, and shorter only where it
/// finishes the task.
#[verifier::rlimit(40)]
pub proof fn lemma_rr_step(st: SimState, quantum: int, input: Seq<Task>)
    requires
        sim_inv(st, input),
        !is_finished(st),
        quantum >= 1,
    ensures
        sim_inv(rr_step(st, quantum), input),
        work_left(rr_step(st, quantum)) < work_left(st),
        st.clock <= rr_step(st, quantum).clock,
        rr_step(st, quantum).clock - settle(st).clock <= quantum,
        rr_step(st, quantum).clock - settle(st).clock < quantum ==> rr_step(st, quantum).done.len()
            == st.done.len() + 1,
{
    let s = settle(st);
    lemma_settle(st, input);
    let t = s.ready[0];
    let rest = s.ready.skip(1);
    let run = slice_length(t, quantum);
    let clock = s.clock + run;
    let k = arrived_count(s.pool, clock);
    let ran = after_running(t, s.clock, run);
    let next = rr_step(st, quantum);
    assert(t.is_in_flight(s.clock));
    assert(s.ready =~= seq![t] + rest);
    lemma_single(t);
    lemma_single(ran);
    lemma_identities_concat(seq![t], rest);
    lemma_total_remaining_concat(seq![t], rest);
    lemma_total_remaining_nonneg(rest);
    lemma_total_remaining_nonneg(s.pool);
    assert forall|i: int| 0 <= i < rest.len() implies (#[trigger] rest[i]).is_in_flight(s.clock) by {
        assert(s.ready[i + 1].is_in_flight(s.clock));
    }
    lemma_in_flight_later(rest, s.clock, clock);
    lemma_arrival(s.pool, rest, clock);
    let ready = rest + s.pool.take(k);
    let free = s.clock + total_remaining(s.ready);
    lemma_drained_at_lower(s.pool, free);
    lemma_drained_at_arrival(s.pool, clock, free);
    lemma_total_remaining_concat(rest, s.pool.take(k));
    lemma_total_remaining_nonneg(s.pool.take(k));
    if ran.remaining_time > 0 {
        assert(ready.push(ran) =~= ready + seq![ran]);
        lemma_identities_concat(ready, seq![ran]);
        lemma_total_remaining_concat(ready, seq![ran]);
        assert(ran.is_in_flight(clock));
        assert forall|i: int| 0 <= i < next.ready.len() implies (#[trigger] next.ready[i]).is_in_flight(
            clock,
        ) by {
            if i < ready.len() {
                assert(ready[i].is_in_flight(clock));
            }
        }
        assert(ran.identity() == t.identity());
        let moved = identities(next.pool).add(identities(ready));
        assert(identities(next.pool).add(identities(next.ready)).add(identities(next.done))
            =~= moved.add(identities(seq![t])).add(identities(s.done)));
        assert(identities(s.pool).add(identities(s.ready)).add(identities(s.done)) =~= moved.add(
            identities(seq![t]),
        ).add(identities(s.done)));
    } else {
        let fin = finished_at(ran, clock);
        assert(s.done.push(fin).drop_last() =~= s.done);
        assert(fin.is_run_through());
        assert forall|i: int| 0 <= i < next.done.len() implies (#[trigger] next.done[i]).is_run_through()
            && next.done[i].remaining_time == 0 by {
            if i < s.done.len() {
                assert(s.done[i].is_run_through());
                assert(s.done[i].remaining_time == 0);
            }
        }
        assert(fin.identity() == t.identity());
        assert(identities(next.done) == identities(s.done).insert(t.identity()));
        assert(identities(next.pool).add(identities(next.ready)).add(identities(next.done))
            =~= identities(s.pool).add(identities(s.ready)).add(identities(s.done)));
    }
    assert(next.clock + total_remaining(next.ready) == free + total_remaining(s.pool.take(k)));
    assert forall|i: int, j: int| 0 <= i <= j < next.pool.len() implies next.pool[i].time_arrival
        <= next.pool[j].time_arrival by {
        assert(next.pool[i] == s.pool[i + k]);
        assert(next.pool[j] == s.pool[j + k]);
    }
}

/// Whether `close` ends a slice of task `pid` that began at `time` as the
/// quantum allows: a pause after exactly the quantum, or a finish after at
/// least one unit and at most the quantum.
pub open spec fn closes_slice(close: Event, pid: u32, time: u32, quantum: int) -> bool {
    match close {
        Event::Pause { pid: p, time: t } => p == pid && t - time == quantum,
        Event::Finish { pid: p, time: t } => p == pid && 1 <= t - time <= quantum,
        _ => false,
    }
}

/// Whether the event at `i`, if it gives a task the processor, is followed at
/// once by the event that ends the slice as the quantum allows.
pub open spec fn slice_closed(trace: Seq<Event>, i: int, quantum: int) -> bool {
    match trace[i] {
        Event::Start { pid, time } => i + 1 < trace.len() && closes_slice(
            trace[i + 1],
            pid,
            time,
            quantum,
        ),
        Event::Resume { pid, time } => i + 1 < trace.len() && closes_slice(
            trace[i + 1],
            pid,
            time,
            quantum,
        ),
        _ => true,
    }
}

/// No slice in `trace` is longer than the quantum, and none is shorter unless
/// it finishes its task.
pub open spec fn slices_bounded(trace: Seq<Event>, quantum: int) -> bool {
    forall|i: int| 0 <= i < trace.len() ==> #[trigger] slice_closed(trace, i, quantum)
}

/// What holds of a round-robin run beyond the general invariant: every slice
/// so far kept to the quantum, a task whose burst is no more than the
/// quantum has not been dispatched while it waits, and once finished it ran in
/// one piece.
pub open spec fn rr_inv(st: SimState, quantum: int) -> bool {
    &&& slices_bounded(st.trace, quantum)
    &&& forall|i: int|
        0 <= i < st.ready.len() && (#[trigger] st.ready[i]).burst_time <= quantum
            ==> st.ready[i].start_time is None
    &&& forall|i: int|
        0 <= i < st.done.len() && (#[trigger] st.done[i]).burst_time <= quantum
            ==> st.done[i].finish_time->0 == st.done[i].start_time->0 + st.done[i].burst_time
}

/// A round-robin step keeps what `rr_inv` states.
#[verifier::rlimit(40)]
pub proof fn lemma_rr_step_slices(st: SimState, quantum: int, input: Seq<Task>)
    requires
        sim_inv(st, input),
        rr_inv(st, quantum),
        !is_finished(st),
        quantum >= 1,
    ensures
        rr_inv(rr_step(st, quantum), quantum),
{
    let s = settle(st);
    lemma_settle(st, input);
    lemma_rr_step(st, quantum, input);
    let next = rr_step(st, quantum);
    let t = s.ready[0];
    let run = slice_length(t, quantum);
    let clock = s.clock + run;
    let k = arrived_count(s.pool, clock);
    let ran = after_running(t, s.clock, run);
    let before = st.trace.len() as int;
    let dispatch = s.trace.len() as int;
    assert(t.is_in_flight(s.clock));
    assert(next.trace.len() == dispatch + 2);
    assert(closes_slice(next.trace[dispatch + 1], t.pid, s.clock as u32, quantum));
    assert forall|i: int| 0 <= i < next.trace.len() implies #[trigger] slice_closed(
        next.trace,
        i,
        quantum,
    ) by {
        if i < before {
            assert(slice_closed(st.trace, i, quantum));
            assert(next.trace[i] == st.trace[i]);
            if i + 1 < before {
                assert(next.trace[i + 1] == st.trace[i + 1]);
            }
        }
    }
    lemma_arrived_count(st.pool, s.clock);
    lemma_arrived_count(s.pool, clock);
    assert forall|i: int| 0 <= i < s.ready.len() && (#[trigger] s.ready[i]).burst_time
        <= quantum implies s.ready[i].start_time is None by {
        if i < st.ready.len() {
            assert(s.ready[i] == st.ready[i]);
        } else {
            assert(s.ready[i] == st.pool[i - st.ready.len()]);
            assert(st.pool[i - st.ready.len()].is_fresh());
        }
    }
    assert forall|i: int| 0 <= i < next.ready.len() && (#[trigger] next.ready[i]).burst_time
        <= quantum implies next.ready[i].start_time is None by {
        let rest = s.ready.len() - 1;
        if i < rest {
            assert(next.ready[i] == s.ready[i + 1]);
        } else if i < rest + k {
            assert(next.ready[i] == s.pool[i - rest]);
            assert(s.pool[i - rest].is_fresh());
        } else {
            assert(next.ready[i] == ran);
            assert(s.ready[0].burst_time <= quantum ==> s.ready[0].start_time is None);
        }
    }
    assert forall|i: int| 0 <= i < next.done.len() && (#[trigger] next.done[i]).burst_time
        <= quantum implies next.done[i].finish_time->0 == next.done[i].start_time->0
        + next.done[i].burst_time by {
        if i < st.done.len() {
            assert(next.done[i] == st.done[i]);
        } else {
            assert(next.done[i] == finished_at(ran, clock));
            assert(s.ready[0].burst_time <= quantum ==> s.ready[0].start_time is None);
        }
    }
}

/// Every state of a round-robin run keeps the general invariant and what
/// `rr_inv` states, however many steps were taken.
pub proof fn lemma_rr_run_slices(st: SimState, quantum: int, steps: nat, input: Seq<Task>)
    requires
        sim_inv(st, input),
        rr_inv(st, quantum),
        quantum >= 1,
    ensures
        sim_inv(rr_run(st, quantum, steps), input),
        rr_inv(rr_run(st, quantum, steps), quantum),
    decreases steps,
{
    if steps > 0 && !is_finished(st) {
        lemma_rr_step(st, quantum, input);
        lemma_rr_step_slices(st, quantum, input);
        lemma_rr_run_slices(rr_step(st, quantum), quantum, (steps - 1) as nat, input);
    }
}

/// Steps enough for the work owed finish a run and keep the invariant.
pub proof fn lemma_rr_run(st: SimState, quantum: int, steps: nat, input: Seq<Task>)
    requires
        sim_inv(st, input),
        quantum >= 1,
        work_left(st) <= steps,
    ensures
        sim_inv(rr_run(st, quantum, steps), input),
        is_finished(rr_run(st, quantum, steps)),
    decreases steps,
{
    if !is_finished(st) {
        lemma_unfinished_owes_work(st, input);
        lemma_rr_step(st, quantum, input);
        lemma_rr_run(rr_step(st, quantum), quantum, (steps - 1) as nat, input);
    }
}

/// A round-robin run over an accepted task list finishes; every task comes out
/// once, with the identity it went in with, completed and with no work left: it
/// started no earlier than it arrived and finished no earlier than its start
/// plus its burst. The run ends at the makespan, whatever the quantum. Over
/// the whole trace no slice is longer than the quantum, none is shorter unless
/// it finishes its task, and a task whose burst is no more than the quantum
/// finishes one burst after its start.
pub proof fn lemma_rr_schedule(tasks: Seq<Task>, quantum: int)
    requires
        rejection(tasks) is None,
        quantum >= 1,
    ensures
        is_finished(rr_schedule(tasks, quantum)),
        all_completed(rr_schedule(tasks, quantum).done),
        all_run_through(rr_schedule(tasks, quantum).done),
        all_drained(rr_schedule(tasks, quantum).done),
        identities(rr_schedule(tasks, quantum).done) == identities(tasks),
        rr_schedule(tasks, quantum).clock == makespan(tasks),
        rr_inv(rr_schedule(tasks, quantum), quantum),
        tasks.len() > 0 ==> rr_schedule(tasks, quantum).done.last().finish_time == Some(
            makespan(tasks) as u32,
        ),
{
    let sorted = arrival_sorted(tasks);
    lemma_initial_state(tasks);
    lemma_total_remaining_nonneg(tasks);
    lemma_rr_run(initial_state(sorted), quantum, total_remaining(tasks) as nat, tasks);
    lemma_rr_run_slices(initial_state(sorted), quantum, total_remaining(tasks) as nat, tasks);
    let end = rr_schedule(tasks, quantum);
    assert(identities(end.pool) =~= vstd::multiset::Multiset::empty());
    assert(identities(end.ready) =~= vstd::multiset::Multiset::empty());
    assert(identities(end.done) =~= identities(tasks));
    lemma_run_through_is_completed(end.done);
    if tasks.len() > 0 {
        assert(identities(tasks).count(tasks.last().identity()) > 0);
        assert(end.done.len() > 0);
    }
}

/// Moves the tasks at the front of `tasks` that have arrived by `current_time`
/// to the back of `queue`, in their order.
pub fn move_tasks_to_queue(current_time: u32, tasks: &mut Vec<Task>, queue: &mut VecDeque<Task>)
    ensures
        final(tasks)@ == old(tasks)@.skip(arrived_count(old(tasks)@, current_time as int)),
        final(queue)@ == old(queue)@ + old(tasks)@.take(
            arrived_count(old(tasks)@, current_time as int),
        ),
{
    let ghost pool = tasks@;
    let ghost line = queue@;
    let ghost mut moved: int = 0;
    proof {
        assert(pool.skip(0) =~= pool);
        assert(line + pool.take(0) =~= line);
    }
    while tasks.len() > 0 && tasks[0].time_arrival <= current_time
        invariant
            0 <= moved <= pool.len(),
            tasks@ == pool.skip(moved),
            queue@ == line + pool.take(moved),
            arrived_count(pool, current_time as int) == moved + arrived_count(
                tasks@,
                current_time as int,
            ),
        decreases tasks.len(),
    {
        let t = tasks.remove(0);
        queue.push_back(t);
        proof {
            assert(pool.skip(moved).remove(0) =~= pool.skip(moved + 1));
            assert(pool.skip(moved).skip(1) =~= pool.skip(moved + 1));
            assert((line + pool.take(moved)).push(t) =~= line + pool.take(moved + 1));
            moved = moved + 1;
        }
    }
}

/// Runs `task` for one slice, a unit at a time, letting tasks arrive after each unit.
///
/// The slice is never longer than the quantum, and shorter only if it finishes the task.
pub fn execute_task_in_rr(
    current_time: &mut u32,
    task: &mut Task,
    quantum: u32,
    tasks: &mut Vec<Task>,
    queue: &mut VecDeque<Task>,
)
    requires
        *old(current_time) + slice_length(*old(task), quantum as int) <= u32::MAX,
    ensures
        *final(current_time) == *old(current_time) + slice_length(*old(task), quantum as int),
        *final(current_time) - *old(current_time) <= quantum,
        *final(current_time) - *old(current_time) < quantum ==> final(task).remaining_time == 0,
        *final(task) == (Task {
            remaining_time: (old(task).remaining_time - slice_length(*old(task), quantum as int)) as u32,
            ..*old(task)
        }),
        slice_length(*old(task), quantum as int) > 0 ==> {
            &&& final(tasks)@ == old(tasks)@.skip(arrived_count(old(tasks)@, *final(current_time) as int))
            &&& final(queue)@ == old(queue)@ + old(tasks)@.take(
                arrived_count(old(tasks)@, *final(current_time) as int),
            )
        },
        slice_length(*old(task), quantum as int) == 0 ==> final(tasks)@ == old(tasks)@ && final(queue)@
            == old(queue)@,
{
    let ghost pool = tasks@;
    let ghost line = queue@;
    let ghost began = *current_time;
    let ghost before = *task;
    let execution_time = if task.remaining_time < quantum {
        task.remaining_time
    } else {
        quantum
    };
    let mut unit: u32 = 0;
    let ghost mut moved: int = 0;
    proof {
        assert(pool.skip(0) =~= pool);
        assert(line + pool.take(0) =~= line);
    }
    while unit < execution_time
        invariant
            unit <= execution_time,
            execution_time == slice_length(before, quantum as int),
            began + execution_time <= u32::MAX,
            *current_time == began + unit,
            *task == (Task { remaining_time: (before.remaining_time - unit) as u32, ..before }),
            0 <= moved <= pool.len(),
            tasks@ == pool.skip(moved),
            queue@ == line + pool.take(moved),
            unit == 0 ==> moved == 0,
            unit > 0 ==> moved == arrived_count(pool, began + unit),
        decreases execution_time - unit,
    {
        *current_time = *current_time + 1;
        task.remaining_time = task.remaining_time - 1;
        proof {
            if unit > 0 {
                lemma_arrived_count_later(pool, began + unit, began + unit + 1);
            } else {
                assert(pool.skip(0) =~= pool);
            }
            lemma_arrived_count(tasks@, *current_time as int);
        }
        let ghost arriving = arrived_count(tasks@, *current_time as int);
        move_tasks_to_queue(*current_time, tasks, queue);
        proof {
            assert(pool.skip(moved).skip(arriving) =~= pool.skip(moved + arriving));
            assert(line + pool.take(moved) + pool.skip(moved).take(arriving) =~= line + pool.take(
                moved + arriving,
            ));
            moved = moved + arriving;
        }
        unit = unit + 1;
    }
}

/// What a round-robin run over `tasks` hands back: the reason why the quantum
/// or the list is declined, if there is one, and else the finished tasks and
/// the trace of the schedule.
pub open spec fn is_rr_result(tasks: Seq<Task>, quantum: int, r: Result<Outcome, SchedError>) -> bool {
    match r {
        Ok(out) => {
            &&& quantum > 0
            &&& rejection(tasks) is None
            &&& out.completed@ == rr_schedule(tasks, quantum).done
            &&& out.trace@ == rr_schedule(tasks, quantum).trace
        },
        Err(e) => if quantum <= 0 {
            e == SchedError::InvalidConfiguration
        } else {
            rejection(tasks) == Some(e)
        },
    }
}

/// Runs the tasks round-robin with the given quantum.
///
/// Declines a zero quantum, then a list that `rejection` names a reason for.
/// Otherwise hands back the completed tasks in completion order, and the trace.
pub fn round_robin(tasks: Vec<Task>, quantum: u32) -> (r: Result<Outcome, SchedError>)
    ensures
        is_rr_result(tasks@, quantum as int, r),
        r matches Ok(out) ==> {
            &&& is_finished(rr_schedule(tasks@, quantum as int))
            &&& all_completed(out.completed@)
            &&& all_run_through(out.completed@)
            &&& all_drained(out.completed@)
            &&& identities(out.completed@) == identities(tasks@)
            &&& tasks@.len() > 0 ==> out.completed@.last().finish_time == Some(
                makespan(tasks@) as u32,
            )
            &&& slices_bounded(out.trace@, quantum as int)
            &&& forall|i: int|
                0 <= i < out.completed@.len() && (#[trigger] out.completed@[i]).burst_time
                    <= quantum ==> out.completed@[i].finish_time->0
                    == out.completed@[i].start_time->0 + out.completed@[i].burst_time
        },
{
    if quantum == 0 {
        return Err(SchedError::InvalidConfiguration);
    }
    let ghost input = tasks@;
    let mut pool = match take_in(tasks) {
        Ok(sorted) => sorted,
        Err(e) => {
            return Err(e);
        },
    };
    let mut queue: VecDeque<Task> = VecDeque::new();
    let mut clock: u32 = 0;
    let mut completed: Vec<Task> = Vec::new();
    let mut trace: Vec<Event> = Vec::new();
    let ghost mut budget: nat = total_remaining(input) as nat;
    proof {
        lemma_total_remaining_nonneg(input);
        lemma_initial_state(input);
        assert(state_of(pool@, queue@, clock as int, completed@, trace@) == initial_state(pool@));
    }
    while pool.len() > 0 || queue.len() > 0
        invariant
            quantum >= 1,
            sim_inv(state_of(pool@, queue@, clock as int, completed@, trace@), input),
            rr_run(state_of(pool@, queue@, clock as int, completed@, trace@), quantum as int, budget)
                == rr_schedule(input, quantum as int),
            work_left(state_of(pool@, queue@, clock as int, completed@, trace@)) <= budget,
        decreases budget,
    {
        let ghost st = state_of(pool@, queue@, clock as int, completed@, trace@);
        let ghost s = settle(st);
        proof {
            lemma_unfinished_owes_work(st, input);
            lemma_settle(st, input);
            lemma_rr_step(st, quantum as int, input);
            lemma_arrived_count(st.pool, st.clock);
        }
        move_tasks_to_queue(clock, &mut pool, &mut queue);
        if queue.len() == 0 {
            proof {
                assert(pool@ =~= st.pool);
                assert(queue@ =~= st.ready);
            }
            let next = pool[0].time_arrival;
            handle_idle_time(&mut clock, next, &mut trace);
            move_tasks_to_queue(clock, &mut pool, &mut queue);
        }
        assert(state_of(pool@, queue@, clock as int, completed@, trace@) == s);
        match queue.pop_front() {
            Some(mut task) => {
                proof {
                    assert(task.is_in_flight(s.clock));
                }
                if task.start_time.is_none() {
                    task.start_time = Some(clock);
                    trace.push(Event::Start { pid: task.pid, time: clock });
                } else {
                    trace.push(Event::Resume { pid: task.pid, time: clock });
                }
                execute_task_in_rr(&mut clock, &mut task, quantum, &mut pool, &mut queue);
                if task.remaining_time > 0 {
                    trace.push(Event::Pause { pid: task.pid, time: clock });
                    queue.push_back(task);
                } else {
                    task.finish_time = Some(clock);
                    trace.push(Event::Finish { pid: task.pid, time: clock });
                    completed.push(task);
                }
            },
            None => {
                assert(false);
            },
        }
        proof {
            assert(state_of(pool@, queue@, clock as int, completed@, trace@) == rr_step(
                st,
                quantum as int,
            ));
            budget = (budget - 1) as nat;
        }
    }
    proof {
        lemma_rr_schedule(input, quantum as int);
    }
    Ok(Outcome { completed, trace })
}

} // verus!
