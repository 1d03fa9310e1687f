//! Stable ordering of tasks by arrival time.

use vstd::prelude::*;
use crate::task::{
    identities, lemma_identities_concat, lemma_single, lemma_split, lemma_total_remaining_concat,
    total_remaining, Task,
};

verus! {

/// No task of `s` arrives later than one that follows it.
pub open spec fn is_arrival_ordered(s: Seq<Task>) -> bool {
    forall|i: int, j: int| 0 <= i <= j < s.len() ==> s[i].time_arrival <= s[j].time_arrival
}

/// Where a task arriving at `arrival` goes in `s`: behind the last task that
/// arrives no later.
pub open spec fn insert_index(s: Seq<Task>, arrival: u32) -> int
    decreases s.len(),
{
    if s.len() == 0 {
        0
    } else if s.last().time_arrival <= arrival {
        s.len() as int
    } else {
        insert_index(s.drop_last(), arrival)
    }
}

/// The tasks of `s` by ascending arrival time, tasks of equal arrival time in
/// the order they have in `s`.
pub open spec fn arrival_sorted(s: Seq<Task>) -> Seq<Task>
    decreases s.len(),
{
    if s.len() == 0 {
        Seq::empty()
    } else {
        let head = arrival_sorted(s.drop_last());
        head.insert(insert_index(head, s.last().time_arrival), s.last())
    }
}

/// A position `j` that has only later arrivals behind it and an arrival no
/// later in front of it is the insertion index.
pub proof fn lemma_insert_index_unique(s: Seq<Task>, arrival: u32, j: int)
    requires
        0 <= j <= s.len(),
        forall|k: int| j <= k < s.len() ==> s[k].time_arrival > arrival,
        j > 0 ==> s[j - 1].time_arrival <= arrival,
    ensures
        insert_index(s, arrival) == j,
    decreases s.len(),
{
    if s.len() > 0 && j < s.len() {
        lemma_insert_index_unique(s.drop_last(), arrival, j);
    }
}

/// `out` holds the tasks of `input` rearranged: `from[k]` is the input position
/// of `out[k]`, no position is used twice, arrival times ascend, and of two tasks
/// that arrive together the one earlier in `input` comes first.
pub open spec fn is_stable_arrangement(input: Seq<Task>, out: Seq<Task>, from: Seq<int>) -> bool {
    &&& out.len() == input.len()
    &&& from.len() == input.len()
    &&& forall|k: int|
        0 <= k < out.len() ==> 0 <= #[trigger] from[k] < input.len() && out[k].identity()
            == input[from[k]].identity()
    &&& forall|k: int, l: int|
        0 <= k < l < out.len() ==> out[k].time_arrival < out[l].time_arrival || (out[k].time_arrival
            == out[l].time_arrival && #[trigger] from[k] < #[trigger] from[l])
}

/// Inserting a task adds its identity and its work and nothing else.
pub proof fn lemma_insert_sums(s: Seq<Task>, j: int, t: Task)
    requires
        0 <= j <= s.len(),
    ensures
        identities(s.insert(j, t)) == identities(s).insert(t.identity()),
        total_remaining(s.insert(j, t)) == total_remaining(s) + t.remaining_time,
{
    lemma_split(s, j);
    lemma_single(t);
    lemma_identities_concat(s.take(j), seq![t]);
    lemma_identities_concat(s.take(j) + seq![t], s.skip(j));
    lemma_total_remaining_concat(s.take(j), seq![t]);
    lemma_total_remaining_concat(s.take(j) + seq![t], s.skip(j));
    assert(s.insert(j, t) =~= s.take(j) + seq![t] + s.skip(j));
    assert(identities(s.insert(j, t)) =~= identities(s).insert(t.identity()));
}

/// Removing a task takes away its identity and its work and nothing else.
pub proof fn lemma_remove_sums(s: Seq<Task>, i: int)
    requires
        0 <= i < s.len(),
    ensures
        identities(s) == identities(s.remove(i)).insert(s[i].identity()),
        total_remaining(s) == total_remaining(s.remove(i)) + s[i].remaining_time,
{
    assert(s =~= s.remove(i).insert(i, s[i]));
    lemma_insert_sums(s.remove(i), i, s[i]);
}

/// Replacing a task by one of the same identity keeps the identities and
/// changes the work by the difference between the two.
pub proof fn lemma_update_sums(s: Seq<Task>, i: int, t: Task)
    requires
        0 <= i < s.len(),
        t.identity() == s[i].identity(),
    ensures
        identities(s.update(i, t)) == identities(s),
        total_remaining(s.update(i, t)) == total_remaining(s) - s[i].remaining_time
            + t.remaining_time,
{
    assert(s.update(i, t) =~= s.remove(i).insert(i, t));
    lemma_insert_sums(s.remove(i), i, t);
    lemma_remove_sums(s, i);
}

/// The insertion index is a position in `s`: only later arrivals stand behind
/// it, and an arrival no later stands in front of it.
pub proof fn lemma_insert_index(s: Seq<Task>, arrival: u32)
    ensures
        0 <= insert_index(s, arrival) <= s.len(),
        forall|k: int| insert_index(s, arrival) <= k < s.len() ==> s[k].time_arrival > arrival,
        insert_index(s, arrival) > 0 ==> s[insert_index(s, arrival) - 1].time_arrival <= arrival,
    decreases s.len(),
{
    if s.len() > 0 && s.last().time_arrival > arrival {
        lemma_insert_index(s.drop_last(), arrival);
        let j = insert_index(s, arrival);
        assert forall|k: int| j <= k < s.len() implies s[k].time_arrival > arrival by {
            if k < s.len() - 1 {
                assert(s.drop_last()[k] == s[k]);
            }
        }
        if j > 0 {
            assert(s.drop_last()[j - 1] == s[j - 1]);
        }
    }
}

/// Sorting by arrival rearranges: the result is in arrival order, holds each
/// task of `s` once, the task at `k` being the one that `s` has at `from[k]`, and
/// tasks that arrive together keep the order they have in `s`.
pub proof fn lemma_arrival_sorted(s: Seq<Task>) -> (from: Seq<int>)
    ensures
        is_arrival_ordered(arrival_sorted(s)),
        identities(arrival_sorted(s)) == identities(s),
        total_remaining(arrival_sorted(s)) == total_remaining(s),
        arrival_sorted(s).len() == s.len(),
        is_stable_arrangement(s, arrival_sorted(s), from),
        forall|k: int| 0 <= k < s.len() ==> #[trigger] arrival_sorted(s)[k] == s[from[k]],
        forall|k: int| 0 <= k < s.len() ==> s.contains(#[trigger] arrival_sorted(s)[k]),
    decreases s.len(),
{
    if s.len() == 0 {
        Seq::empty()
    } else {
        let t = s.last();
        let head = arrival_sorted(s.drop_last());
        let from_head = lemma_arrival_sorted(s.drop_last());
        let j = insert_index(head, t.time_arrival);
        lemma_insert_index(head, t.time_arrival);
        lemma_insert_sums(head, j, t);
        let sorted = arrival_sorted(s);
        let from = from_head.insert(j, s.len() - 1);
        assert(sorted == head.insert(j, t));
        assert forall|k: int| 0 <= k < sorted.len() implies 0 <= #[trigger] from[k] < s.len()
            && sorted[k] == s[from[k]] by {
            if k < j {
                assert(from[k] == from_head[k] && sorted[k] == head[k]);
                assert(head[k] == s.drop_last()[from_head[k]]);
            } else if k > j {
                assert(from[k] == from_head[k - 1] && sorted[k] == head[k - 1]);
                assert(head[k - 1] == s.drop_last()[from_head[k - 1]]);
            }
        }
        assert forall|k: int, l: int| 0 <= k < l < sorted.len() implies sorted[k].time_arrival
            < sorted[l].time_arrival || (sorted[k].time_arrival == sorted[l].time_arrival
            && #[trigger] from[k] < #[trigger] from[l]) by {
            let kb = if k < j { k } else { k - 1 };
            let lb = if l < j { l } else { l - 1 };
            if k != j && l != j {
                assert(from[k] == from_head[kb] && sorted[k] == head[kb]);
                assert(from[l] == from_head[lb] && sorted[l] == head[lb]);
            } else if k == j {
                assert(sorted[l] == head[lb]);
            } else {
                assert(from[k] == from_head[kb] && sorted[k] == head[kb]);
                assert(head[kb].time_arrival <= head[j - 1].time_arrival);
            }
        }
        assert forall|k: int, l: int| 0 <= k <= l < sorted.len() implies sorted[k].time_arrival
            <= sorted[l].time_arrival by {
            if k < l {
                assert(sorted[k].time_arrival < sorted[l].time_arrival || (sorted[k].time_arrival
                    == sorted[l].time_arrival && from[k] < from[l]));
            }
        }
        assert forall|k: int| 0 <= k < s.len() implies s.contains(#[trigger] sorted[k]) by {
            assert(sorted[k] == s[from[k]]);
        }
        from
    }
}

/// Sorts tasks by arrival time, keeping tasks of equal arrival time in their input order.
pub fn sort_tasks_by_arrival(tasks: Vec<Task>) -> (sorted: Vec<Task>)
    ensures
        sorted@ == arrival_sorted(tasks@),
        is_arrival_ordered(sorted@),
        identities(sorted@) == identities(tasks@),
        total_remaining(sorted@) == total_remaining(tasks@),
        sorted@.len() == tasks@.len(),
        forall|i: int| 0 <= i < sorted@.len() ==> tasks@.contains(#[trigger] sorted@[i]),
        exists|from: Seq<int>| is_stable_arrangement(tasks@, sorted@, from),
{
    let mut sorted: Vec<Task> = Vec::new();
    let mut i: usize = 0;
    while i < tasks.len()
        invariant
            i <= tasks.len(),
            sorted@ == arrival_sorted(tasks@.take(i as int)),
            sorted@.len() == i,
        decreases tasks.len() - i,
    {
        let t = tasks[i];
        let mut j: usize = sorted.len();
        while j > 0 && sorted[j - 1].time_arrival > t.time_arrival
            invariant
                j <= sorted.len(),
                forall|k: int| j <= k < sorted@.len() ==> sorted@[k].time_arrival > t.time_arrival,
            decreases j,
        {
            j -= 1;
        }
        proof {
            lemma_insert_index_unique(sorted@, t.time_arrival, j as int);
            assert(tasks@.take(i + 1).drop_last() =~= tasks@.take(i as int));
            assert(tasks@.take(i + 1).last() == t);
        }
        sorted.insert(j, t);
        i += 1;
    }
    proof {
        assert(tasks@.take(i as int) =~= tasks@);
        let from = lemma_arrival_sorted(tasks@);
        assert(is_stable_arrangement(tasks@, sorted@, from));
    }
    sorted
}

} // verus!
