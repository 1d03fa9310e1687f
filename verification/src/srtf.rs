//! Shortest-remaining-time-first: the choice is made anew at every time unit.

use vstd::prelude::*;
use crate::intake::{makespan, rejection, take_in};
use crate::order::{arrival_sorted, is_arrival_ordered, lemma_remove_sums, lemma_update_sums};
use crate::sim::{
    after_running, arrived_count, finished_at, handle_idle_time, initial_state, is_finished,
    lemma_arrived_count, lemma_drained_at_lower, lemma_initial_state, lemma_settle,
    lemma_unfinished_owes_work, settle, sim_inv, state_of, work_left, Event, Outcome, SimState,
};
use crate::task::{
    all_completed, all_drained, all_run_through, identities, lemma_run_through_is_completed,
    lemma_total_remaining_nonneg, total_remaining, SchedError, Task,
};

verus! {

/// The position of the task to run: the first among those with the least
/// remaining time.
pub open spec fn first_shortest(s: Seq<Task>) -> int
    decreases s.len(),
{
    if s.len() <= 1 {
        0
    } else {
        let i = first_shortest(s.drop_last());
        if s.last().remaining_time < s[i].remaining_time {
            s.len() - 1
        } else {
            i
        }
    }
}

/// The task chosen has the least remaining time of all, and every task in front
/// of it has more.
pub proof fn lemma_first_shortest(s: Seq<Task>)
    requires
        s.len() > 0,
    ensures
        0 <= first_shortest(s) < s.len(),
        forall|j: int|
            0 <= j < s.len() ==> s[first_shortest(s)].remaining_time <= (#[trigger] s[j]).remaining_time,
        forall|j: int|
            0 <= j < first_shortest(s) ==> s[first_shortest(s)].remaining_time
                < (#[trigger] s[j]).remaining_time,
    decreases s.len(),
{
    if s.len() > 1 {
        let head = s.drop_last();
        lemma_first_shortest(head);
        let i = first_shortest(head);
        assert(head[i] == s[i]);
        assert forall|j: int| 0 <= j < s.len() implies s[first_shortest(s)].remaining_time <= (
        #[trigger] s[j]).remaining_time by {
            if j < head.len() {
                assert(head[j] == s[j]);
            }
        }
        assert forall|j: int| 0 <= j < first_shortest(s) implies s[first_shortest(s)].remaining_time
            < (#[trigger] s[j]).remaining_time by {
            assert(head[j] == s[j]);
        }
    }
}

/// One step of an unfinished state: settle, then run the ready task with the
/// least remaining time for one unit. A task that has work left keeps its place
/// among the ready tasks, so that of two tasks with equal remaining time the one
/// that arrived first, or came first in the input, is chosen.
pub open spec fn srtf_step(st: SimState) -> SimState {
    let s = settle(st);
    let i = first_shortest(s.ready);
    let t = s.ready[i];
    let clock = s.clock + 1;
    let ran = after_running(t, s.clock, 1);
    let trace = if t.start_time is None {
        s.trace.push(Event::Start { pid: t.pid, time: s.clock as u32 })
    } else {
        s.trace
    };
    if ran.remaining_time > 0 {
        SimState { pool: s.pool, ready: s.ready.update(i, ran), clock, done: s.done, trace }
    } else {
        SimState {
            pool: s.pool,
            ready: s.ready.remove(i),
            clock,
            done: s.done.push(finished_at(ran, clock)),
            trace: trace.push(Event::Finish { pid: t.pid, time: clock as u32 }),
        }
    }
}

/// The state after at most `steps` steps, fewer if the run finishes.
pub open spec fn srtf_run(st: SimState, steps: nat) -> SimState
    decreases steps,
{
    if steps == 0 || is_finished(st) {
        st
    } else {
        srtf_run(srtf_step(st), (steps - 1) as nat)
    }
}

/// The final state of a run over `tasks`. Every step does one unit of work, so
/// as many steps as there are units of work finish the run.
pub open spec fn srtf_schedule(tasks: Seq<Task>) -> SimState {
    srtf_run(initial_state(arrival_sorted(tasks)), total_remaining(tasks) as nat)
}

/// A step keeps the invariant, does one unit of work and advances the clock by
/// one. The task it runs has the least remaining time of the ready tasks, and
/// those are the unfinished tasks that have arrived: every ready task has arrived
/// and has work left, and no pooled task has arrived.
#[verifier::rlimit(40)]
pub proof fn lemma_srtf_step(st: SimState, input: Seq<Task>)
    requires
        sim_inv(st, input),
        !is_finished(st),
    ensures
        sim_inv(srtf_step(st), input),
        work_left(srtf_step(st)) == work_left(st) - 1,
        srtf_step(st).clock == settle(st).clock + 1,
        forall|j: int|
            0 <= j < settle(st).ready.len() ==> settle(st).ready[first_shortest(
                settle(st).ready,
            )].remaining_time <= (#[trigger] settle(st).ready[j]).remaining_time,
        forall|j: int|
            0 <= j < settle(st).ready.len() ==> (#[trigger] settle(st).ready[j]).time_arrival
                <= settle(st).clock && settle(st).ready[j].remaining_time > 0,
        forall|j: int|
            0 <= j < settle(st).pool.len() ==> (#[trigger] settle(st).pool[j]).time_arrival > settle(
                st,
            ).clock,
{
    let s = settle(st);
    lemma_settle(st, input);
    lemma_first_shortest(s.ready);
    lemma_unfinished_owes_work(s, input);
    let i = first_shortest(s.ready);
    let t = s.ready[i];
    let clock = s.clock + 1;
    let ran = after_running(t, s.clock, 1);
    let next = srtf_step(st);
    assert(t.is_in_flight(s.clock));
    assert forall|j: int| 0 <= j < s.ready.len() implies (#[trigger] s.ready[j]).time_arrival
        <= s.clock && s.ready[j].remaining_time > 0 by {
        assert(s.ready[j].is_in_flight(s.clock));
    }
    lemma_remove_sums(s.ready, i);
    lemma_drained_at_lower(s.pool, s.clock + total_remaining(s.ready));
    lemma_total_remaining_nonneg(s.ready.remove(i));
    lemma_total_remaining_nonneg(s.pool);
    if ran.remaining_time > 0 {
        lemma_update_sums(s.ready, i, ran);
        assert(ran.is_in_flight(clock));
        assert forall|j: int| 0 <= j < next.ready.len() implies (#[trigger] next.ready[j]).is_in_flight(
            clock,
        ) by {
            if j != i {
                assert(s.ready[j].is_in_flight(s.clock));
            }
        }
    } else {
        let fin = finished_at(ran, clock);
        assert(s.done.push(fin).drop_last() =~= s.done);
        assert(fin.is_run_through());
        assert forall|j: int| 0 <= j < next.done.len() implies (#[trigger] next.done[j]).is_run_through()
            && next.done[j].remaining_time == 0 by {
            if j < s.done.len() {
                assert(s.done[j].is_run_through());
                assert(s.done[j].remaining_time == 0);
            }
        }
        assert forall|j: int| 0 <= j < next.ready.len() implies (#[trigger] next.ready[j]).is_in_flight(
            clock,
        ) by {
            if j < i {
                assert(s.ready[j].is_in_flight(s.clock));
            } else {
                assert(s.ready[j + 1].is_in_flight(s.clock));
            }
        }
        assert(fin.identity() == t.identity());
        assert(identities(next.done) == identities(s.done).insert(t.identity()));
        assert(identities(next.pool).add(identities(next.ready)).add(identities(next.done))
            =~= identities(s.pool).add(identities(s.ready)).add(identities(s.done)));
    }
    assert(next.clock + total_remaining(next.ready) == s.clock + total_remaining(s.ready));
}

/// What holds of a run beyond the general invariant: the ready tasks stand in
/// arrival order, and none of them arrived later than a pooled task. Tasks that
/// arrive together stand in the order of the pool, which is that of the input.
pub open spec fn srtf_order(st: SimState) -> bool {
    &&& is_arrival_ordered(st.ready)
    &&& forall|i: int, j: int|
        0 <= i < st.ready.len() && 0 <= j < st.pool.len() ==> st.ready[i].time_arrival
            <= st.pool[j].time_arrival
}

/// A step keeps the ready tasks in arrival order.
#[verifier::rlimit(40)]
pub proof fn lemma_srtf_step_order(st: SimState, input: Seq<Task>)
    requires
        sim_inv(st, input),
        srtf_order(st),
        !is_finished(st),
    ensures
        srtf_order(settle(st)),
        srtf_order(srtf_step(st)),
{
    let s = settle(st);
    lemma_settle(st, input);
    lemma_arrived_count(st.pool, s.clock);
    let k = arrived_count(st.pool, s.clock);
    let n = st.ready.len() as int;
    assert forall|i: int, j: int| 0 <= i <= j < s.ready.len() implies s.ready[i].time_arrival
        <= s.ready[j].time_arrival by {
        if j < n {
            assert(s.ready[i] == st.ready[i] && s.ready[j] == st.ready[j]);
        } else if i < n {
            assert(s.ready[i] == st.ready[i] && s.ready[j] == st.pool[j - n]);
        } else {
            assert(s.ready[i] == st.pool[i - n] && s.ready[j] == st.pool[j - n]);
        }
    }
    assert forall|i: int, j: int|
        0 <= i < s.ready.len() && 0 <= j < s.pool.len() implies s.ready[i].time_arrival
        <= s.pool[j].time_arrival by {
        assert(s.pool[j] == st.pool[j + k]);
        if i < n {
            assert(s.ready[i] == st.ready[i]);
        } else {
            assert(s.ready[i] == st.pool[i - n]);
        }
    }
    lemma_first_shortest(s.ready);
    let c = first_shortest(s.ready);
    let next = srtf_step(st);
    assert forall|i: int, j: int| 0 <= i <= j < next.ready.len() implies next.ready[i].time_arrival
        <= next.ready[j].time_arrival by {
        if next.ready.len() == s.ready.len() {
            assert(next.ready[i].time_arrival == s.ready[i].time_arrival);
            assert(next.ready[j].time_arrival == s.ready[j].time_arrival);
        } else {
            let a = if i < c { i } else { i + 1 };
            let b = if j < c { j } else { j + 1 };
            assert(next.ready[i] == s.ready[a] && next.ready[j] == s.ready[b]);
        }
    }
    assert forall|i: int, j: int|
        0 <= i < next.ready.len() && 0 <= j < next.pool.len() implies next.ready[i].time_arrival
        <= next.pool[j].time_arrival by {
        assert(next.pool[j] == s.pool[j]);
        if next.ready.len() == s.ready.len() {
            assert(next.ready[i].time_arrival == s.ready[i].time_arrival);
        } else {
            let a = if i < c { i } else { i + 1 };
            assert(next.ready[i] == s.ready[a]);
        }
    }
}

/// `places[i]` is where the ready task at `i` stands in `sorted`: the places
/// ascend, all of them lie in front of the pool, and the pool is the rest of
/// `sorted`.
pub open spec fn stands_at(st: SimState, sorted: Seq<Task>, places: Seq<int>) -> bool {
    &&& st.pool.len() <= sorted.len()
    &&& st.pool == sorted.skip(sorted.len() - st.pool.len())
    &&& places.len() == st.ready.len()
    &&& forall|i: int|
        0 <= i < places.len() ==> 0 <= #[trigger] places[i] < sorted.len() - st.pool.len()
            && st.ready[i].identity() == sorted[places[i]].identity()
    &&& forall|i: int, j: int|
        0 <= i < j < places.len() ==> #[trigger] places[i] < #[trigger] places[j]
}

/// The ready tasks stand in the order that they have in `sorted`.
pub open spec fn in_sorted_order(st: SimState, sorted: Seq<Task>) -> bool {
    exists|places: Seq<int>| stands_at(st, sorted, places)
}

/// Settling keeps the ready tasks in the order that they have in `sorted`.
#[verifier::rlimit(40)]
pub proof fn lemma_settle_places(st: SimState, sorted: Seq<Task>)
    requires
        in_sorted_order(st, sorted),
        !is_finished(st),
    ensures
        in_sorted_order(settle(st), sorted),
{
    let s = settle(st);
    lemma_arrived_count(st.pool, s.clock);
    let k = arrived_count(st.pool, s.clock);
    let n = st.ready.len() as int;
    let m = sorted.len() - st.pool.len();
    let places = choose|places: Seq<int>| stands_at(st, sorted, places);
    let settled = places + Seq::new(k as nat, |j: int| m + j);
    assert(s.pool =~= sorted.skip(sorted.len() - s.pool.len()));
    assert forall|i: int| 0 <= i < settled.len() implies 0 <= #[trigger] settled[i] < sorted.len()
        - s.pool.len() && s.ready[i].identity() == sorted[settled[i]].identity() by {
        if i < n {
            assert(settled[i] == places[i] && s.ready[i] == st.ready[i]);
        } else {
            assert(settled[i] == m + (i - n));
            assert(s.ready[i] == st.pool[i - n]);
            assert(st.pool[i - n] == sorted[m + (i - n)]);
        }
    }
    assert forall|i: int, j: int| 0 <= i < j < settled.len() implies #[trigger] settled[i]
        < #[trigger] settled[j] by {
        if j < n {
            assert(settled[i] == places[i] && settled[j] == places[j]);
        } else if i < n {
            assert(settled[i] == places[i] && settled[j] == m + (j - n));
        } else {
            assert(settled[i] == m + (i - n) && settled[j] == m + (j - n));
        }
    }
    assert(stands_at(s, sorted, settled));
}

/// A step keeps the ready tasks in the order that they have in `sorted`.
#[verifier::rlimit(40)]
pub proof fn lemma_srtf_step_places(st: SimState, input: Seq<Task>, sorted: Seq<Task>)
    requires
        sim_inv(st, input),
        in_sorted_order(st, sorted),
        !is_finished(st),
    ensures
        in_sorted_order(settle(st), sorted),
        in_sorted_order(srtf_step(st), sorted),
{
    let s = settle(st);
    let next = srtf_step(st);
    lemma_settle(st, input);
    lemma_settle_places(st, sorted);
    lemma_first_shortest(s.ready);
    let c = first_shortest(s.ready);
    let settled = choose|places: Seq<int>| stands_at(s, sorted, places);
    assert(next.pool == s.pool);
    if next.ready.len() == s.ready.len() {
        assert(next.ready == s.ready.update(c, next.ready[c]));
        assert forall|i: int| 0 <= i < settled.len() implies 0 <= #[trigger] settled[i]
            < sorted.len() - next.pool.len() && next.ready[i].identity()
            == sorted[settled[i]].identity() by {
            assert(next.ready[i].identity() == s.ready[i].identity());
        }
        assert(stands_at(next, sorted, settled));
    } else {
        assert(next.ready == s.ready.remove(c));
        let left = settled.remove(c);
        assert forall|i: int| 0 <= i < left.len() implies 0 <= #[trigger] left[i] < sorted.len()
            - next.pool.len() && next.ready[i].identity() == sorted[left[i]].identity() by {
            let a = if i < c { i } else { i + 1 };
            assert(left[i] == settled[a] && next.ready[i] == s.ready[a]);
        }
        assert forall|i: int, j: int| 0 <= i < j < left.len() implies #[trigger] left[i]
            < #[trigger] left[j] by {
            let a = if i < c { i } else { i + 1 };
            let b = if j < c { j } else { j + 1 };
            assert(left[i] == settled[a] && left[j] == settled[b]);
        }
        assert(stands_at(next, sorted, left));
    }
}

/// `x` arrives strictly before `y` and needs no more processor time.
pub open spec fn outranks(x: Task, y: Task) -> bool {
    x.time_arrival < y.time_arrival && x.burst_time <= y.burst_time
}

/// What the choice of the shortest remaining time means for two tasks of which
/// one outranks the other: the other is not dispatched before the first has
/// finished. No finish lies after the clock, and no finished task arrived
/// later than a pooled one.
pub open spec fn srtf_precedence(st: SimState) -> bool {
    &&& forall|x: Task| #[trigger] st.done.contains(x) ==> x.finish_time->0 <= st.clock
    &&& forall|x: Task, y: Task|
        #[trigger] st.done.contains(x) && #[trigger] st.done.contains(y) && outranks(x, y)
            ==> x.finish_time->0 <= y.start_time->0
    &&& forall|x: Task, y: Task|
        #[trigger] st.done.contains(x) && #[trigger] st.ready.contains(y) && outranks(x, y)
            && y.start_time is Some ==> x.finish_time->0 <= y.start_time->0
    &&& forall|x: Task, y: Task|
        #[trigger] st.ready.contains(x) && #[trigger] st.ready.contains(y) && outranks(x, y)
            ==> y.start_time is None
    &&& forall|x: Task, y: Task|
        #[trigger] st.ready.contains(x) && #[trigger] st.done.contains(y) ==> !outranks(x, y)
    &&& forall|x: Task, y: Task|
        #[trigger] st.done.contains(x) && #[trigger] st.pool.contains(y) ==> x.time_arrival
            <= y.time_arrival
}

/// A step keeps what `srtf_precedence` states.
#[verifier::rlimit(40)]
pub proof fn lemma_srtf_step_precedence(st: SimState, input: Seq<Task>)
    requires
        sim_inv(st, input),
        srtf_order(st),
        srtf_precedence(st),
        !is_finished(st),
    ensures
        srtf_precedence(srtf_step(st)),
{
    let s = settle(st);
    let next = srtf_step(st);
    lemma_settle(st, input);
    lemma_srtf_step(st, input);
    lemma_srtf_step_order(st, input);
    lemma_first_shortest(s.ready);
    let c = first_shortest(s.ready);
    let t = s.ready[c];
    let ran = after_running(t, s.clock, 1);
    let fin = finished_at(ran, s.clock + 1);
    let k = arrived_count(st.pool, s.clock);
    lemma_arrived_count(st.pool, s.clock);
    assert(t.is_in_flight(s.clock));
    assert(s.ready.contains(t));
    // Where the tasks of the settled state come from.
    assert forall|x: Task| #[trigger] s.ready.contains(x) implies st.ready.contains(x) || (
    st.pool.contains(x) && x.is_fresh()) by {
        let i = choose|i: int| 0 <= i < s.ready.len() && s.ready[i] == x;
        if i < st.ready.len() {
            assert(st.ready[i] == x);
        } else {
            assert(st.pool[i - st.ready.len()] == x);
            assert(st.pool[i - st.ready.len()].is_fresh());
        }
    }
    assert forall|x: Task| #[trigger] s.pool.contains(x) implies st.pool.contains(x) by {
        let i = choose|i: int| 0 <= i < s.pool.len() && s.pool[i] == x;
        assert(st.pool[i + k] == x);
    }
    assert forall|x: Task, y: Task| #[trigger]
        st.ready.contains(x) && #[trigger] st.pool.contains(y) implies x.time_arrival
        <= y.time_arrival by {
        let i = choose|i: int| 0 <= i < st.ready.len() && st.ready[i] == x;
        let j = choose|j: int| 0 <= j < st.pool.len() && st.pool[j] == y;
        assert(st.ready[i].time_arrival <= st.pool[j].time_arrival);
    }
    assert(s.done == st.done);
    assert(srtf_precedence(s));
    // No ready task outranks the chosen one unless the chosen one was never dispatched,
    // and then the one that outranks it would have been chosen.
    assert forall|x: Task| #[trigger] s.ready.contains(x) && outranks(x, t) implies false by {
        let i = choose|i: int| 0 <= i < s.ready.len() && s.ready[i] == x;
        assert(t.start_time is None);
        assert(s.ready[i].is_in_flight(s.clock));
        if i < c {
            assert(s.ready[c].remaining_time < s.ready[i].remaining_time);
        } else {
            assert(s.ready[c].time_arrival <= s.ready[i].time_arrival);
        }
    }
    // Where the tasks of the next state come from.
    assert forall|x: Task| #[trigger] next.ready.contains(x) implies x == ran || s.ready.contains(
        x,
    ) by {
        let i = choose|i: int| 0 <= i < next.ready.len() && next.ready[i] == x;
        if ran.remaining_time > 0 {
            if i != c {
                assert(s.ready[i] == x);
            }
        } else {
            let a = if i < c { i } else { i + 1 };
            assert(s.ready[a] == x);
        }
    }
    assert forall|x: Task| #[trigger] next.done.contains(x) implies s.done.contains(x) || (x == fin
        && ran.remaining_time == 0) by {
        let i = choose|i: int| 0 <= i < next.done.len() && next.done[i] == x;
        if i < s.done.len() {
            assert(s.done[i] == x);
        }
    }
    assert forall|x: Task| #[trigger] next.pool.contains(x) implies s.pool.contains(x) by {}
    assert forall|y: Task| #[trigger] s.pool.contains(y) implies t.time_arrival
        <= y.time_arrival by {
        let j = choose|j: int| 0 <= j < s.pool.len() && s.pool[j] == y;
        assert(s.ready[c].time_arrival <= s.pool[j].time_arrival);
    }
    assert(srtf_precedence(next)) by {
        assert forall|x: Task| #[trigger] next.done.contains(x) implies x.finish_time->0
            <= next.clock by {
            assert(s.done.contains(x) || x == fin);
        }
        assert forall|x: Task, y: Task| #[trigger]
            next.done.contains(x) && #[trigger] next.done.contains(y) && outranks(
                x,
                y,
            ) implies x.finish_time->0 <= y.start_time->0 by {
            if s.done.contains(x) && s.done.contains(y) {
            } else if s.done.contains(x) {
                assert(outranks(x, t));
            } else if s.done.contains(y) {
                assert(outranks(t, y));
            }
        }
        assert forall|x: Task, y: Task| #[trigger]
            next.done.contains(x) && #[trigger] next.ready.contains(y) && outranks(x, y)
                && y.start_time is Some implies x.finish_time->0 <= y.start_time->0 by {
            if !s.done.contains(x) {
                assert(s.ready.contains(y) ==> outranks(t, y));
                assert(y == ran ==> !outranks(x, y));
            } else if !s.ready.contains(y) || y == ran {
                assert(outranks(x, t));
            }
        }
        assert forall|x: Task, y: Task| #[trigger]
            next.ready.contains(x) && #[trigger] next.ready.contains(y) && outranks(
                x,
                y,
            ) implies y.start_time is None by {
            let xs = if s.ready.contains(x) { x } else { t };
            let ys = if s.ready.contains(y) { y } else { t };
            assert(s.ready.contains(xs) && s.ready.contains(ys));
            assert(outranks(xs, ys));
        }
        assert forall|x: Task, y: Task| #[trigger]
            next.ready.contains(x) && #[trigger] next.done.contains(y) implies !outranks(x, y) by {
            let xs = if s.ready.contains(x) { x } else { t };
            assert(s.ready.contains(xs));
            if outranks(x, y) {
                assert(outranks(xs, y));
                if !s.done.contains(y) {
                    assert(outranks(xs, t));
                }
            }
        }
        assert forall|x: Task, y: Task| #[trigger]
            next.done.contains(x) && #[trigger] next.pool.contains(y) implies x.time_arrival
            <= y.time_arrival by {
            assert(s.pool.contains(y));
        }
    }
}

/// Every state of a run keeps the general invariant, the arrival order of the
/// ready tasks and the precedence of tasks that outrank others, however many
/// steps were taken.
pub proof fn lemma_srtf_reach(st: SimState, steps: nat, input: Seq<Task>)
    requires
        sim_inv(st, input),
        srtf_order(st),
        srtf_precedence(st),
        in_sorted_order(st, arrival_sorted(input)),
    ensures
        sim_inv(srtf_run(st, steps), input),
        srtf_order(srtf_run(st, steps)),
        srtf_precedence(srtf_run(st, steps)),
        in_sorted_order(srtf_run(st, steps), arrival_sorted(input)),
    decreases steps,
{
    if steps > 0 && !is_finished(st) {
        lemma_srtf_step(st, input);
        lemma_srtf_step_order(st, input);
        lemma_srtf_step_precedence(st, input);
        lemma_srtf_step_places(st, input, arrival_sorted(input));
        lemma_srtf_reach(srtf_step(st), (steps - 1) as nat, input);
    }
}

/// Before the first step nothing is ready and the pool is all of the sorted list.
pub proof fn lemma_initial_places(sorted: Seq<Task>)
    ensures
        in_sorted_order(initial_state(sorted), sorted),
{
    assert(sorted.skip(0) =~= sorted);
    assert(stands_at(initial_state(sorted), sorted, Seq::<int>::empty()));
}

/// The state after one step more is the step of the state before, as long as
/// the run is unfinished.
pub proof fn lemma_srtf_run_next(st: SimState, steps: nat)
    requires
        !is_finished(srtf_run(st, steps)),
    ensures
        srtf_run(st, steps + 1) == srtf_step(srtf_run(st, steps)),
    decreases steps,
{
    if steps == 0 {
        assert(srtf_run(st, 0) == st);
        assert(srtf_run(srtf_step(st), 0) == srtf_step(st));
        assert(srtf_run(st, 1) == srtf_run(srtf_step(st), 0));
    } else {
        let before = (steps - 1) as nat;
        assert(!is_finished(st));
        assert(srtf_run(st, steps) == srtf_run(srtf_step(st), before));
        lemma_srtf_run_next(srtf_step(st), before);
        assert(srtf_run(st, steps + 1) == srtf_run(srtf_step(st), before + 1));
    }
}

/// At every unit of a run over an accepted task list the task that runs has the
/// least remaining time of all tasks that have arrived and are unfinished, and
/// of those with the least it is the one that arrived first, tasks that
/// arrived together taken in input order.
///
/// `units` steps into the run, the ready tasks after settling are the arrived
/// unfinished tasks, in arrival order and in the order that they have in the
/// sorted input, where tasks that arrive together keep their input order
/// (`lemma_arrival_sorted`); no pooled task has arrived; the step
/// runs the ready task at `first_shortest` for the unit from the settled clock;
/// no ready task has less remaining time and every one in front of it has more.
pub proof fn lemma_srtf_every_unit(tasks: Seq<Task>, units: nat)
    requires
        rejection(tasks) is None,
    ensures
        ({
            let start = initial_state(arrival_sorted(tasks));
            let st = srtf_run(start, units);
            let s = settle(st);
            let chosen = first_shortest(s.ready);
            &&& sim_inv(st, tasks)
            &&& !is_finished(st) ==> {
                &&& srtf_run(start, units + 1) == srtf_step(st)
                &&& srtf_step(st).clock == s.clock + 1
                &&& 0 <= chosen < s.ready.len()
                &&& is_arrival_ordered(s.ready)
                &&& in_sorted_order(s, arrival_sorted(tasks))
                &&& forall|j: int|
                    0 <= j < s.ready.len() ==> (#[trigger] s.ready[j]).time_arrival <= s.clock
                        && s.ready[j].remaining_time > 0
                &&& forall|j: int|
                    0 <= j < s.pool.len() ==> (#[trigger] s.pool[j]).time_arrival > s.clock
                &&& forall|j: int|
                    0 <= j < s.ready.len() ==> s.ready[chosen].remaining_time <= (
                    #[trigger] s.ready[j]).remaining_time
                &&& forall|j: int|
                    0 <= j < chosen ==> s.ready[chosen].remaining_time < (
                    #[trigger] s.ready[j]).remaining_time
            }
        }),
{
    let start = initial_state(arrival_sorted(tasks));
    lemma_initial_state(tasks);
    lemma_initial_places(arrival_sorted(tasks));
    lemma_srtf_reach(start, units, tasks);
    let st = srtf_run(start, units);
    if !is_finished(st) {
        lemma_srtf_step_places(st, tasks, arrival_sorted(tasks));
        lemma_srtf_run_next(start, units);
        lemma_srtf_step(st, tasks);
        lemma_srtf_step_order(st, tasks);
        lemma_settle(st, tasks);
        lemma_first_shortest(settle(st).ready);
    }
}

/// Steps enough for the work owed finish a run and keep the invariant.
pub proof fn lemma_srtf_run(st: SimState, steps: nat, input: Seq<Task>)
    requires
        sim_inv(st, input),
        work_left(st) <= steps,
    ensures
        sim_inv(srtf_run(st, steps), input),
        is_finished(srtf_run(st, steps)),
    decreases steps,
{
    if !is_finished(st) {
        lemma_unfinished_owes_work(st, input);
        lemma_srtf_step(st, input);
        lemma_srtf_run(srtf_step(st), (steps - 1) as nat, input);
    }
}

/// A run over an accepted task list finishes; every task comes out once, with
/// the identity it went in with, completed and with no work left: it started no
/// earlier than it arrived and finished no earlier than its start plus its
/// burst. The run ends at the makespan. A task that arrived strictly before
/// another and needs no more processor time has finished before the other starts.
pub proof fn lemma_srtf_schedule(tasks: Seq<Task>)
    requires
        rejection(tasks) is None,
    ensures
        is_finished(srtf_schedule(tasks)),
        all_completed(srtf_schedule(tasks).done),
        all_run_through(srtf_schedule(tasks).done),
        all_drained(srtf_schedule(tasks).done),
        identities(srtf_schedule(tasks).done) == identities(tasks),
        srtf_schedule(tasks).clock == makespan(tasks),
        forall|i: int, j: int|
            0 <= i < srtf_schedule(tasks).done.len() && 0 <= j < srtf_schedule(tasks).done.len()
                && outranks(srtf_schedule(tasks).done[i], srtf_schedule(tasks).done[j])
                ==> srtf_schedule(tasks).done[i].finish_time->0 <= srtf_schedule(
                tasks,
            ).done[j].start_time->0,
        tasks.len() > 0 ==> srtf_schedule(tasks).done.last().finish_time == Some(
            makespan(tasks) as u32,
        ),
{
    let sorted = arrival_sorted(tasks);
    lemma_initial_state(tasks);
    lemma_total_remaining_nonneg(tasks);
    lemma_srtf_run(initial_state(sorted), total_remaining(tasks) as nat, tasks);
    lemma_initial_places(sorted);
    lemma_srtf_reach(initial_state(sorted), total_remaining(tasks) as nat, tasks);
    let done = srtf_schedule(tasks).done;
    assert forall|i: int, j: int|
        0 <= i < done.len() && 0 <= j < done.len() && outranks(
            done[i],
            done[j],
        ) implies done[i].finish_time->0 <= done[j].start_time->0 by {
        assert(done.contains(done[i]) && done.contains(done[j]));
    }
    let end = srtf_schedule(tasks);
    assert(identities(end.pool) =~= vstd::multiset::Multiset::empty());
    assert(identities(end.ready) =~= vstd::multiset::Multiset::empty());
    assert(identities(end.done) =~= identities(tasks));
    lemma_run_through_is_completed(end.done);
    if tasks.len() > 0 {
        assert(identities(tasks).count(tasks.last().identity()) > 0);
        assert(end.done.len() > 0);
    }
}

/// Moves the tasks at the front of `tasks` that have arrived by `current_time`
/// to the back of `active`, in their order.
pub fn move_tasks_to_active(current_time: u32, tasks: &mut Vec<Task>, active: &mut Vec<Task>)
    ensures
        final(tasks)@ == old(tasks)@.skip(arrived_count(old(tasks)@, current_time as int)),
        final(active)@ == old(active)@ + old(tasks)@.take(
            arrived_count(old(tasks)@, current_time as int),
        ),
{
    let ghost pool = tasks@;
    let ghost line = active@;
    let ghost mut moved: int = 0;
    proof {
        assert(pool.skip(0) =~= pool);
        assert(line + pool.take(0) =~= line);
    }
    while tasks.len() > 0 && tasks[0].time_arrival <= current_time
        invariant
            0 <= moved <= pool.len(),
            tasks@ == pool.skip(moved),
            active@ == line + pool.take(moved),
            arrived_count(pool, current_time as int) == moved + arrived_count(
                tasks@,
                current_time as int,
            ),
        decreases tasks.len(),
    {
        let t = tasks.remove(0);
        active.push(t);
        proof {
            assert(pool.skip(moved).remove(0) =~= pool.skip(moved + 1));
            assert(pool.skip(moved).skip(1) =~= pool.skip(moved + 1));
            assert((line + pool.take(moved)).push(t) =~= line + pool.take(moved + 1));
            moved = moved + 1;
        }
    }
}

/// Finds the task to run next: the first among those with the least remaining
/// time, or none where no task is active.
pub fn shortest_remaining(active: &Vec<Task>) -> (found: Option<usize>)
    ensures
        active@.len() == 0 <==> found is None,
        found matches Some(i) ==> {
            &&& i == first_shortest(active@)
            &&& i < active@.len()
            &&& forall|j: int|
                0 <= j < active@.len() ==> active@[i as int].remaining_time <= (
                #[trigger] active@[j]).remaining_time
            &&& forall|j: int|
                0 <= j < i ==> active@[i as int].remaining_time < (#[trigger] active@[j]).remaining_time
        },
{
    if active.len() == 0 {
        return None;
    }
    let mut best: usize = 0;
    let mut j: usize = 1;
    proof {
        assert(active@.take(1).len() == 1);
    }
    while j < active.len()
        invariant
            1 <= j <= active.len(),
            best < j,
            best == first_shortest(active@.take(j as int)),
        decreases active.len() - j,
    {
        proof {
            assert(active@.take(j + 1).drop_last() =~= active@.take(j as int));
            assert(active@.take(j + 1).last() == active@[j as int]);
            assert(active@.take(j + 1)[best as int] == active@[best as int]);
        }
        if active[j].remaining_time < active[best].remaining_time {
            best = j;
        }
        j += 1;
    }
    proof {
        assert(active@.take(j as int) =~= active@);
        lemma_first_shortest(active@);
    }
    Some(best)
}

/// What a run over `tasks` hands back: the reason why the list is declined, if
/// there is one, and else the finished tasks and the trace of the schedule.
pub open spec fn is_srtf_result(tasks: Seq<Task>, r: Result<Outcome, SchedError>) -> bool {
    match r {
        Ok(out) => {
            &&& rejection(tasks) is None
            &&& out.completed@ == srtf_schedule(tasks).done
            &&& out.trace@ == srtf_schedule(tasks).trace
        },
        Err(e) => rejection(tasks) == Some(e),
    }
}

/// Runs the tasks shortest remaining time first.
///
/// Declines a list that `rejection` names a reason for. Otherwise hands back the
/// completed tasks in completion order, and the trace.
pub fn srtf(tasks: Vec<Task>) -> (r: Result<Outcome, SchedError>)
    ensures
        is_srtf_result(tasks@, r),
        r matches Ok(out) ==> {
            &&& is_finished(srtf_schedule(tasks@))
            &&& all_completed(out.completed@)
            &&& all_run_through(out.completed@)
            &&& all_drained(out.completed@)
            &&& identities(out.completed@) == identities(tasks@)
            &&& tasks@.len() > 0 ==> out.completed@.last().finish_time == Some(
                makespan(tasks@) as u32,
            )
            &&& forall|i: int, j: int|
                0 <= i < out.completed@.len() && 0 <= j < out.completed@.len() && outranks(
                    out.completed@[i],
                    out.completed@[j],
                ) ==> out.completed@[i].finish_time->0 <= out.completed@[j].start_time->0
        },
{
    let ghost input = tasks@;
    let mut pool = match take_in(tasks) {
        Ok(sorted) => sorted,
        Err(e) => {
            return Err(e);
        },
    };
    let mut active: Vec<Task> = Vec::new();
    let mut clock: u32 = 0;
    let mut completed: Vec<Task> = Vec::new();
    let mut trace: Vec<Event> = Vec::new();
    let ghost mut budget: nat = total_remaining(input) as nat;
    proof {
        lemma_total_remaining_nonneg(input);
        lemma_initial_state(input);
        assert(state_of(pool@, active@, clock as int, completed@, trace@) == initial_state(pool@));
    }
    while pool.len() > 0 || active.len() > 0
        invariant
            sim_inv(state_of(pool@, active@, clock as int, completed@, trace@), input),
            srtf_run(state_of(pool@, active@, clock as int, completed@, trace@), budget)
                == srtf_schedule(input),
            work_left(state_of(pool@, active@, clock as int, completed@, trace@)) <= budget,
        decreases budget,
    {
        let ghost st = state_of(pool@, active@, clock as int, completed@, trace@);
        let ghost s = settle(st);
        proof {
            lemma_unfinished_owes_work(st, input);
            lemma_settle(st, input);
            lemma_srtf_step(st, input);
            lemma_unfinished_owes_work(s, input);
            lemma_arrived_count(st.pool, st.clock);
        }
        move_tasks_to_active(clock, &mut pool, &mut active);
        if active.len() == 0 {
            proof {
                assert(pool@ =~= st.pool);
                assert(active@ =~= st.ready);
            }
            let next = pool[0].time_arrival;
            handle_idle_time(&mut clock, next, &mut trace);
            move_tasks_to_active(clock, &mut pool, &mut active);
        }
        assert(state_of(pool@, active@, clock as int, completed@, trace@) == s);
        match shortest_remaining(&active) {
            Some(index) => {
                let mut task = active[index];
                proof {
                    assert(task.is_in_flight(s.clock));
                    lemma_total_remaining_nonneg(s.ready);
                    lemma_total_remaining_nonneg(s.pool);
                }
                if task.start_time.is_none() {
                    task.start_time = Some(clock);
                    trace.push(Event::Start { pid: task.pid, time: clock });
                }
                clock = clock + 1;
                task.remaining_time = task.remaining_time - 1;
                if task.remaining_time == 0 {
                    task.finish_time = Some(clock);
                    trace.push(Event::Finish { pid: task.pid, time: clock });
                    active.remove(index);
                    completed.push(task);
                } else {
                    active.set(index, task);
                }
            },
            None => {
                assert(false);
            },
        }
        proof {
            assert(state_of(pool@, active@, clock as int, completed@, trace@) == srtf_step(st));
            budget = (budget - 1) as nat;
        }
    }
    proof {
        lemma_srtf_schedule(input);
    }
    Ok(Outcome { completed, trace })
}

} // verus!
