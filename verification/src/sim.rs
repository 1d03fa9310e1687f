//! What the two preemptive engines share: the simulation state, the events of a
//! trace, arrival of pooled tasks, and the invariant that every step keeps.

use vstd::prelude::*;
use crate::intake::{clock_after, dispatch_time, horizon_fits, makespan};
use crate::order::{arrival_sorted, is_arrival_ordered, lemma_arrival_sorted};
use crate::task::{
    all_run_through, all_drained, all_fresh, all_in_flight, identities, lemma_identities_concat,
    lemma_single, lemma_split, lemma_total_remaining_concat, lemma_total_remaining_nonneg,
    total_remaining, Task,
};

verus! {

/// One entry of a simulation trace.
#[derive(Clone, Copy, Debug, PartialEq, Eq)]
pub enum Event {
    /// The processor had nothing to run from `from` until `to`.
    Idle { from: u32, to: u32 },
    /// The task got the processor for the first time.
    Start { pid: u32, time: u32 },
    /// The task got the processor again.
    Resume { pid: u32, time: u32 },
    /// The task lost the processor with work left.
    Pause { pid: u32, time: u32 },
    /// The task ran out of work.
    Finish { pid: u32, time: u32 },
}

/// What a run hands back: the completed tasks in completion order, and the trace.
#[derive(Debug, PartialEq, Eq)]
pub struct Outcome {
    pub completed: Vec<Task>,
    pub trace: Vec<Event>,
}

/// A simulation between two steps.
pub struct SimState {
    /// Tasks that have not arrived yet, next arrival first.
    pub pool: Seq<Task>,
    /// Tasks that have arrived and are unfinished.
    pub ready: Seq<Task>,
    /// Simulated time.
    pub clock: int,
    /// Finished tasks, first finished first.
    pub done: Seq<Task>,
    /// Events so far.
    pub trace: Seq<Event>,
}

/// The state before the first step over an arrival-sorted task list.
pub open spec fn initial_state(sorted: Seq<Task>) -> SimState {
    SimState { pool: sorted, ready: Seq::empty(), clock: 0, done: Seq::empty(), trace: Seq::empty() }
}

/// The state made of the given parts.
pub open spec fn state_of(
    pool: Seq<Task>,
    ready: Seq<Task>,
    clock: int,
    done: Seq<Task>,
    trace: Seq<Event>,
) -> SimState {
    SimState { pool, ready, clock, done, trace }
}

/// Nothing is left to run.
pub open spec fn is_finished(st: SimState) -> bool {
    st.pool.len() == 0 && st.ready.len() == 0
}

/// Work still owed in `st`.
pub open spec fn work_left(st: SimState) -> int {
    total_remaining(st.pool) + total_remaining(st.ready)
}

/// How many tasks leave the front of `pool` at `clock`: the longest prefix of
/// tasks that have all arrived.
pub open spec fn arrived_count(pool: Seq<Task>, clock: int) -> int
    decreases pool.len(),
{
    if pool.len() > 0 && pool[0].time_arrival <= clock {
        1 + arrived_count(pool.skip(1), clock)
    } else {
        0
    }
}

/// The time at which the processor is done with `pool` if it is free at
/// `clock` and runs the tasks in order, idling until the next arrives.
pub open spec fn drained_at(pool: Seq<Task>, clock: int) -> int
    decreases pool.len(),
{
    if pool.len() == 0 {
        clock
    } else {
        drained_at(pool.skip(1), dispatch_time(clock, pool[0]) + pool[0].burst_time)
    }
}

/// `t` after `units` of processor time that began at `clock`.
pub open spec fn after_running(t: Task, clock: int, units: int) -> Task {
    Task {
        start_time: if t.start_time is None {
            Some(clock as u32)
        } else {
            t.start_time
        },
        remaining_time: (t.remaining_time - units) as u32,
        ..t
    }
}

/// `t` marked as finished at `clock`.
pub open spec fn finished_at(t: Task, clock: int) -> Task {
    Task { finish_time: Some(clock as u32), ..t }
}

/// The first half of every step: arrived tasks join the ready tasks in pool
/// order; if then nothing is ready, the clock jumps to the next arrival, which
/// is recorded as idle time, and the tasks arrived by then join.
pub open spec fn settle(st: SimState) -> SimState {
    let idle = st.ready.len() == 0 && arrived_count(st.pool, st.clock) == 0;
    let clock = if idle {
        st.pool[0].time_arrival as int
    } else {
        st.clock
    };
    let k = arrived_count(st.pool, clock);
    SimState {
        pool: st.pool.skip(k),
        ready: st.ready + st.pool.take(k),
        clock,
        done: st.done,
        trace: if idle {
            st.trace.push(Event::Idle { from: st.clock as u32, to: clock as u32 })
        } else {
            st.trace
        },
    }
}

/// What holds between steps of a run over `input`: the pool is in arrival order, pooled tasks are fresh,
/// ready tasks are in flight, finished tasks are run through with no work left,
/// no task is lost or duplicated, and the time at which all work will be done
/// is the makespan of `input`, which fits in `u32`. Once nothing is left to
/// run, the clock stands at the finish of the task that finished last.
pub open spec fn sim_inv(st: SimState, input: Seq<Task>) -> bool {
    &&& 0 <= st.clock <= u32::MAX
    &&& is_arrival_ordered(st.pool)
    &&& all_fresh(st.pool)
    &&& all_in_flight(st.ready, st.clock)
    &&& all_run_through(st.done)
    &&& all_drained(st.done)
    &&& identities(st.pool).add(identities(st.ready)).add(identities(st.done)) == identities(input)
    &&& drained_at(st.pool, st.clock + total_remaining(st.ready)) == makespan(input)
    &&& makespan(input) <= u32::MAX
    &&& is_finished(st) && st.done.len() > 0 ==> st.done.last().finish_time == Some(st.clock as u32)
}

/// The arrived prefix is a prefix, everything in it has arrived, and the task
/// behind it has not.
pub proof fn lemma_arrived_count(pool: Seq<Task>, clock: int)
    ensures
        0 <= arrived_count(pool, clock) <= pool.len(),
        forall|i: int| 0 <= i < arrived_count(pool, clock) ==> (#[trigger] pool[i]).time_arrival <= clock,
        arrived_count(pool, clock) < pool.len() ==> pool[arrived_count(pool, clock)].time_arrival > clock,
        pool.len() > 0 && pool[0].time_arrival <= clock ==> arrived_count(pool, clock) > 0,
    decreases pool.len(),
{
    if pool.len() > 0 && pool[0].time_arrival <= clock {
        lemma_arrived_count(pool.skip(1), clock);
        let k = arrived_count(pool.skip(1), clock);
        assert forall|i: int| 0 <= i < 1 + k implies (#[trigger] pool[i]).time_arrival <= clock by {
            if i > 0 {
                assert(pool[i] == pool.skip(1)[i - 1]);
            }
        }
        if 1 + k < pool.len() {
            assert(pool[1 + k] == pool.skip(1)[k]);
        }
    }
}

/// Letting tasks arrive at `earlier` and then at `later` is letting them arrive at `later`.
pub proof fn lemma_arrived_count_later(pool: Seq<Task>, earlier: int, later: int)
    requires
        earlier <= later,
    ensures
        arrived_count(pool, later) == arrived_count(pool, earlier) + arrived_count(
            pool.skip(arrived_count(pool, earlier)),
            later,
        ),
    decreases pool.len(),
{
    if pool.len() > 0 && pool[0].time_arrival <= earlier {
        lemma_arrived_count_later(pool.skip(1), earlier, later);
        lemma_arrived_count(pool.skip(1), earlier);
        let k = arrived_count(pool.skip(1), earlier);
        assert(pool.skip(1).skip(k) =~= pool.skip(1 + k));
    } else {
        assert(pool.skip(0) =~= pool);
    }
}

/// A task in flight stays in flight as the clock advances.
pub proof fn lemma_in_flight_later(s: Seq<Task>, earlier: int, later: int)
    requires
        earlier <= later,
        all_in_flight(s, earlier),
    ensures
        all_in_flight(s, later),
{
    assert forall|i: int| 0 <= i < s.len() implies (#[trigger] s[i]).is_in_flight(later) by {
        assert(s[i].is_in_flight(earlier));
    }
}

/// Arrival moves tasks from the pool to the ready tasks and changes nothing else.
pub proof fn lemma_arrival(pool: Seq<Task>, ready: Seq<Task>, clock: int)
    requires
        all_fresh(pool),
        all_in_flight(ready, clock),
    ensures
        ({
            let k = arrived_count(pool, clock);
            &&& 0 <= k <= pool.len()
            &&& all_fresh(pool.skip(k))
            &&& all_in_flight(ready + pool.take(k), clock)
            &&& identities(pool.skip(k)).add(identities(ready + pool.take(k))) == identities(
                pool,
            ).add(identities(ready))
            &&& total_remaining(pool.skip(k)) + total_remaining(ready + pool.take(k))
                == total_remaining(pool) + total_remaining(ready)
        }),
{
    let k = arrived_count(pool, clock);
    lemma_arrived_count(pool, clock);
    lemma_split(pool, k);
    lemma_identities_concat(ready, pool.take(k));
    lemma_total_remaining_concat(ready, pool.take(k));
    assert forall|i: int| 0 <= i < pool.skip(k).len() implies (#[trigger] pool.skip(k)[i]).is_fresh() by {
        assert(pool[i + k].is_fresh());
    }
    let joined = ready + pool.take(k);
    assert forall|i: int| 0 <= i < joined.len() implies (#[trigger] joined[i]).is_in_flight(clock) by {
        if i < ready.len() {
            assert(ready[i].is_in_flight(clock));
        } else {
            assert(joined[i] == pool[i - ready.len()]);
            assert(pool[i - ready.len()].is_fresh());
        }
    }
    assert(identities(pool.skip(k)).add(identities(joined)) =~= identities(pool).add(
        identities(ready),
    ));
}

/// Tasks that all have work left owe work together, unless there are none.
pub proof fn lemma_work_positive(s: Seq<Task>)
    requires
        s.len() > 0,
        forall|i: int| 0 <= i < s.len() ==> (#[trigger] s[i]).remaining_time > 0,
    ensures
        total_remaining(s) > 0,
{
    lemma_total_remaining_nonneg(s.drop_last());
    assert(s.last().remaining_time > 0);
}

/// An unfinished state owes work.
pub proof fn lemma_unfinished_owes_work(st: SimState, input: Seq<Task>)
    requires
        sim_inv(st, input),
        !is_finished(st),
    ensures
        work_left(st) > 0,
{
    lemma_total_remaining_nonneg(st.pool);
    lemma_total_remaining_nonneg(st.ready);
    if st.pool.len() > 0 {
        assert forall|i: int| 0 <= i < st.pool.len() implies (#[trigger] st.pool[i]).remaining_time > 0 by {
            assert(st.pool[i].is_fresh());
        }
        lemma_work_positive(st.pool);
    } else {
        assert forall|i: int| 0 <= i < st.ready.len() implies (#[trigger] st.ready[i]).remaining_time
            > 0 by {
            assert(st.ready[i].is_in_flight(st.clock));
        }
        lemma_work_positive(st.ready);
    }
}

/// The processor is done no earlier than it is free.
pub proof fn lemma_drained_at_lower(pool: Seq<Task>, clock: int)
    ensures
        clock <= drained_at(pool, clock),
    decreases pool.len(),
{
    if pool.len() > 0 {
        lemma_drained_at_lower(pool.skip(1), dispatch_time(clock, pool[0]) + pool[0].burst_time);
    }
}

/// Whether tasks that have arrived wait in the pool or among the work at hand
/// makes no difference to when the processor is done.
pub proof fn lemma_drained_at_arrival(pool: Seq<Task>, clock: int, free: int)
    requires
        all_fresh(pool),
        clock <= free,
    ensures
        drained_at(
            pool.skip(arrived_count(pool, clock)),
            free + total_remaining(pool.take(arrived_count(pool, clock))),
        ) == drained_at(pool, free),
    decreases pool.len(),
{
    if pool.len() > 0 && pool[0].time_arrival <= clock {
        let rest = pool.skip(1);
        let k = arrived_count(rest, clock);
        assert(pool[0].is_fresh());
        assert forall|i: int| 0 <= i < rest.len() implies (#[trigger] rest[i]).is_fresh() by {
            assert(pool[i + 1].is_fresh());
        }
        lemma_drained_at_arrival(rest, clock, free + pool[0].burst_time);
        lemma_arrived_count(rest, clock);
        assert(rest.skip(k) =~= pool.skip(k + 1));
        assert(pool.take(k + 1) =~= seq![pool[0]] + rest.take(k));
        lemma_total_remaining_concat(seq![pool[0]], rest.take(k));
        lemma_single(pool[0]);
    } else {
        assert(pool.skip(0) =~= pool);
        assert(pool.take(0) =~= Seq::<Task>::empty());
    }
}

/// Running the first `n` tasks of a list and then the others is running the list.
pub proof fn lemma_drained_at_sorted(sorted: Seq<Task>, n: int)
    requires
        0 <= n <= sorted.len(),
    ensures
        drained_at(sorted.skip(n), clock_after(sorted, n)) == drained_at(sorted, 0),
    decreases n,
{
    if n == 0 {
        assert(sorted.skip(0) =~= sorted);
    } else {
        lemma_drained_at_sorted(sorted, n - 1);
        assert(sorted.skip(n - 1).skip(1) =~= sorted.skip(n));
        assert(sorted.skip(n - 1)[0] == sorted[n - 1]);
    }
}

/// Settling an unfinished state keeps the invariant and the work owed, never
/// turns the clock back, and leaves a task ready and no arrived task in the pool.
#[verifier::rlimit(40)]
pub proof fn lemma_settle(st: SimState, input: Seq<Task>)
    requires
        sim_inv(st, input),
        !is_finished(st),
    ensures
        sim_inv(settle(st), input),
        settle(st).ready.len() > 0,
        st.clock <= settle(st).clock,
        work_left(settle(st)) == work_left(st),
        settle(st).done == st.done,
        drained_at(settle(st).pool, settle(st).clock + total_remaining(settle(st).ready))
            == drained_at(st.pool, st.clock + total_remaining(st.ready)),
        forall|i: int|
            0 <= i < settle(st).pool.len() ==> (#[trigger] settle(st).pool[i]).time_arrival > settle(
                st,
            ).clock,
{
    let idle = st.ready.len() == 0 && arrived_count(st.pool, st.clock) == 0;
    let after = settle(st);
    let k = arrived_count(st.pool, after.clock);
    let free = after.clock + total_remaining(st.ready);
    lemma_arrived_count(st.pool, st.clock);
    lemma_arrived_count(st.pool, after.clock);
    lemma_total_remaining_nonneg(st.pool);
    lemma_total_remaining_nonneg(st.ready);
    if idle {
        assert(st.pool.len() > 0);
        assert(st.pool[0].time_arrival > st.clock);
        assert(drained_at(st.pool, free) == drained_at(st.pool, st.clock + total_remaining(st.ready)));
    }
    lemma_in_flight_later(st.ready, st.clock, after.clock);
    lemma_arrival(st.pool, st.ready, after.clock);
    lemma_total_remaining_concat(st.ready, st.pool.take(k));
    lemma_drained_at_arrival(st.pool, after.clock, free);
    lemma_total_remaining_nonneg(after.ready);
    lemma_drained_at_lower(after.pool, after.clock + total_remaining(after.ready));
    assert(identities(after.pool).add(identities(after.ready)).add(identities(after.done))
        =~= identities(input));
    assert forall|i: int| 0 <= i < after.pool.len() implies (#[trigger] after.pool[i]).time_arrival
        > after.clock by {
        assert(after.pool[i] == st.pool[i + k]);
        assert(st.pool[k].time_arrival <= st.pool[i + k].time_arrival);
    }
    assert forall|i: int, j: int| 0 <= i <= j < after.pool.len() implies after.pool[i].time_arrival
        <= after.pool[j].time_arrival by {
        assert(after.pool[i] == st.pool[i + k]);
        assert(after.pool[j] == st.pool[j + k]);
    }
}

/// A run over an accepted task list starts in a state that meets the invariant.
pub proof fn lemma_initial_state(input: Seq<Task>)
    requires
        all_fresh(input),
        horizon_fits(input),
    ensures
        sim_inv(initial_state(arrival_sorted(input)), input),
        work_left(initial_state(arrival_sorted(input))) == total_remaining(input),
{
    let sorted = arrival_sorted(input);
    let st = initial_state(sorted);
    let from = lemma_arrival_sorted(input);
    lemma_drained_at_sorted(sorted, sorted.len() as int);
    assert(sorted.skip(sorted.len() as int) =~= Seq::<Task>::empty());
    assert(identities(st.pool).add(identities(st.ready)).add(identities(st.done)) =~= identities(
        input,
    ));
    assert forall|i: int| 0 <= i < sorted.len() implies (#[trigger] sorted[i]).is_fresh() by {
        assert(sorted[i] == input[from[i]]);
        assert(input[from[i]].is_fresh());
    }
}

/// Records that the processor has nothing to run until the next arrival, and
/// sets the clock to it.
pub fn handle_idle_time(current_time: &mut u32, next_arrival_time: u32, trace: &mut Vec<Event>)
    ensures
        *final(current_time) == next_arrival_time,
        final(trace)@ == old(trace)@.push(
            Event::Idle { from: *old(current_time), to: next_arrival_time },
        ),
{
    trace.push(Event::Idle { from: *current_time, to: next_arrival_time });
    *current_time = next_arrival_time;
}

} // verus!
