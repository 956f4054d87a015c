//! What a study of many mornings counts: a worker is late exactly when they clock in
//! after the deadline, whatever elevator they were bound to, and every morning of a
//! study adds its own late count, under the same plan, whatever its place.
use vstd::prelude::*;
use crate::config::LATE_AFTER_SECS;
use crate::hyper_simulation::{
    floor_block, is_late, lemma_workers_from_len, num_late, sum_late, sum_late_squared, trial_late, trial_workers,
    workers_from, workers_per_floor,
};
use crate::worker::Worker;

verus! {

proof fn lemma_num_late_filter(ws: Seq<Worker>, pred: spec_fn(Worker) -> bool)
    requires
        forall|i: int| 0 <= i < ws.len() ==> (#[trigger] ws[i]).clock_in_time is Some,
        forall|w: Worker| w.clock_in_time is Some ==> #[trigger] pred(w) == is_late(w),
    ensures
        num_late(ws) == ws.filter(pred).len(),
    decreases ws.len(),
{
    reveal(Seq::filter);
    if ws.len() > 0 {
        let d = ws.drop_last();
        assert forall|i: int| 0 <= i < d.len() implies (#[trigger] d[i]).clock_in_time is Some by {
            assert(d[i] == ws[i]);
        }
        lemma_num_late_filter(d, pred);
        assert(ws.last().clock_in_time is Some);
        assert(pred(ws.last()) == is_late(ws.last()));
    }
}

/// The late workers are exactly those who clocked in after `LATE_AFTER_SECS`.
pub proof fn lemma_num_late_counts(ws: Seq<Worker>)
    requires
        forall|i: int| 0 <= i < ws.len() ==> (#[trigger] ws[i]).clock_in_time is Some,
    ensures
        num_late(ws) == ws.filter(
            |w: Worker| w.clock_in_time is Some && w.clock_in_time.unwrap() > LATE_AFTER_SECS,
        ).len(),
{
    lemma_num_late_filter(
        ws,
        |w: Worker| w.clock_in_time is Some && w.clock_in_time.unwrap() > LATE_AFTER_SECS,
    );
}

/// Whether a worker counts as late depends on their clock-in time alone: two lists of
/// workers with the same clock-in times, whatever their bindings, floors or arrival
/// times, have as many late workers.
pub proof fn lemma_late_ignores_binding(a: Seq<Worker>, b: Seq<Worker>)
    requires
        a.len() == b.len(),
        forall|i: int| 0 <= i < a.len() ==> (#[trigger] a[i]).clock_in_time == b[i].clock_in_time,
    ensures
        num_late(a) == num_late(b),
    decreases a.len(),
{
    if a.len() > 0 {
        let (da, db) = (a.drop_last(), b.drop_last());
        assert forall|i: int| 0 <= i < da.len() implies (#[trigger] da[i]).clock_in_time == db[i].clock_in_time by {
            assert(da[i] == a[i]);
            assert(db[i] == b[i]);
        }
        lemma_late_ignores_binding(da, db);
        assert(a.last().clock_in_time == b.last().clock_in_time);
    }
}

/// The totals over the first `k` mornings depend on those mornings only.
proof fn lemma_sums_prefix(s1: Seq<Seq<isize>>, s2: Seq<Seq<isize>>, plan: Option<Seq<Seq<usize>>>, k: nat)
    requires
        k <= s1.len(),
        k <= s2.len(),
        forall|t: int| 0 <= t < k ==> s1[t] == s2[t],
    ensures
        sum_late(s1, plan, k) == sum_late(s2, plan, k),
        sum_late_squared(s1, plan, k) == sum_late_squared(s2, plan, k),
    decreases k,
{
    if k > 0 {
        lemma_sums_prefix(s1, s2, plan, (k - 1) as nat);
        assert(s1[k - 1] == s2[k - 1]);
    }
}

/// A study of one morning counts that morning's late workers under the plan.
pub proof fn lemma_tally_one(arrivals: Seq<isize>, plan: Option<Seq<Seq<usize>>>)
    ensures
        sum_late(seq![arrivals], plan, 1) == trial_late(arrivals, plan),
        sum_late_squared(seq![arrivals], plan, 1) == trial_late(arrivals, plan) * trial_late(arrivals, plan),
{
    let one = seq![arrivals];
    assert(one[0] == arrivals);
    assert(sum_late(one, plan, 0) == 0);
    assert(sum_late_squared(one, plan, 0) == 0);
    assert(sum_late(one, plan, 1) == sum_late(one, plan, 0) + trial_late(one[0], plan));
    assert(sum_late_squared(one, plan, 1) == sum_late_squared(one, plan, 0) + trial_late(one[0], plan)
        * trial_late(one[0], plan));
}

/// Two studies under one plan, taken together, count what they count apart.
pub proof fn lemma_tally_split(a: Seq<Seq<isize>>, b: Seq<Seq<isize>>, plan: Option<Seq<Seq<usize>>>)
    ensures
        sum_late(a + b, plan, (a.len() + b.len()) as nat) == sum_late(a, plan, a.len()) + sum_late(
            b,
            plan,
            b.len(),
        ),
        sum_late_squared(a + b, plan, (a.len() + b.len()) as nat) == sum_late_squared(a, plan, a.len())
            + sum_late_squared(b, plan, b.len()),
    decreases b.len(),
{
    if b.len() == 0 {
        assert(a + b =~= a);
    } else {
        let d = b.drop_last();
        lemma_tally_split(a, d, plan);
        let n = (a.len() + b.len()) as nat;
        assert forall|t: int| 0 <= t < n - 1 implies (a + b)[t] == (a + d)[t] by {}
        lemma_sums_prefix(a + b, a + d, plan, (n - 1) as nat);
        assert forall|t: int| 0 <= t < b.len() - 1 implies b[t] == d[t] by {}
        lemma_sums_prefix(b, d, plan, (b.len() - 1) as nat);
        assert((a + b)[n - 1] == b[b.len() - 1]);
    }
}

/// Reordering the mornings of a study leaves its totals unchanged: swapping two
/// blocks of mornings changes nothing.
pub proof fn lemma_tally_swap(a: Seq<Seq<isize>>, b: Seq<Seq<isize>>, plan: Option<Seq<Seq<usize>>>)
    ensures
        sum_late(a + b, plan, (a.len() + b.len()) as nat) == sum_late(b + a, plan, (b.len() + a.len()) as nat),
        sum_late_squared(a + b, plan, (a.len() + b.len()) as nat) == sum_late_squared(
            b + a,
            plan,
            (b.len() + a.len()) as nat,
        ),
{
    lemma_tally_split(a, b, plan);
    lemma_tally_split(b, a, plan);
}

/// Every morning of a study, wherever it stands, adds its own late count under the
/// study's plan (and its square): taking morning `t` out of the study takes exactly
/// that away.
pub proof fn lemma_tally_each(trials: Seq<Seq<isize>>, plan: Option<Seq<Seq<usize>>>, t: int)
    requires
        0 <= t < trials.len(),
    ensures
        sum_late(trials, plan, trials.len()) == sum_late(trials.remove(t), plan, (trials.len() - 1) as nat)
            + trial_late(trials[t], plan),
        sum_late_squared(trials, plan, trials.len()) == sum_late_squared(
            trials.remove(t),
            plan,
            (trials.len() - 1) as nat,
        ) + trial_late(trials[t], plan) * trial_late(trials[t], plan),
{
    let front = trials.take(t);
    let one = seq![trials[t]];
    let back = trials.skip(t + 1);
    assert(trials =~= front + (one + back));
    assert(trials.remove(t) =~= front + back);
    lemma_tally_split(front, one + back, plan);
    lemma_tally_split(one, back, plan);
    lemma_tally_split(front, back, plan);
    lemma_tally_one(trials[t], plan);
}

/// Position of the first worker of the office floor `f + 1` among a morning's workers.
spec fn floor_start(f: int) -> int {
    if f <= 0 {
        0
    } else if f == 1 {
        100
    } else if f == 2 {
        220
    } else if f == 3 {
        280
    } else if f == 4 {
        400
    } else if f == 5 {
        480
    } else {
        500
    }
}

/// The office floor of worker `i` of a morning.
pub open spec fn floor_of(i: int) -> i32 {
    if i < 100 {
        1
    } else if i < 220 {
        2
    } else if i < 280 {
        3
    } else if i < 400 {
        4
    } else if i < 480 {
        5
    } else {
        6
    }
}

proof fn lemma_workers_from_at(arrivals: Seq<isize>, f: nat)
    requires
        f <= 6,
        arrivals.len() == 500,
    ensures
        forall|i: int| floor_start(f as int) <= i < 500 ==> (#[trigger] workers_from(
            arrivals,
            workers_per_floor(),
            f,
            floor_start(f as int),
        )[i - floor_start(f as int)]) == (Worker {
            arrival_time: if arrivals[i] <= LATE_AFTER_SECS {
                arrivals[i]
            } else {
                LATE_AFTER_SECS
            },
            target_floor: floor_of(i),
            clock_in_time: None,
            elevator_assignment: None,
        }),
    decreases 6 - f,
{
    if f < 6 {
        let start = floor_start(f as int);
        let n = workers_per_floor()[f as int] as int;
        assert(start + n == floor_start(f + 1int));
        lemma_workers_from_at(arrivals, f + 1);
        lemma_workers_from_len(arrivals, f + 1, floor_start(f + 1int));
        let b = floor_block(arrivals, start, n, (f + 1) as int);
        let rest = workers_from(arrivals, workers_per_floor(), f + 1, floor_start(f + 1int));
        assert(workers_from(arrivals, workers_per_floor(), f, start) == b + rest);
        assert forall|i: int| start <= i < 500 implies (#[trigger] workers_from(
            arrivals,
            workers_per_floor(),
            f,
            start,
        )[i - start]) == (Worker {
            arrival_time: if arrivals[i] <= LATE_AFTER_SECS {
                arrivals[i]
            } else {
                LATE_AFTER_SECS
            },
            target_floor: floor_of(i),
            clock_in_time: None,
            elevator_assignment: None,
        }) by {
            if i < start + n {
                assert((b + rest)[i - start] == b[i - start]);
            } else {
                assert((b + rest)[i - start] == rest[i - floor_start(f + 1int)]);
            }
        }
    }
}

/// The workers of a morning: worker `i` arrives at `arrivals[i]`, or at
/// `LATE_AFTER_SECS` if that is later; the first hundred work on floor 1, the next
/// hundred and twenty on floor 2, then sixty on floor 3, a hundred and twenty on
/// floor 4, eighty on floor 5 and twenty on floor 6; nobody is bound or clocked in.
pub proof fn lemma_trial_workers(arrivals: Seq<isize>)
    requires
        arrivals.len() == 500,
    ensures
        trial_workers(arrivals).len() == 500,
        forall|i: int| 0 <= i < 500 ==> (#[trigger] trial_workers(arrivals)[i]) == (Worker {
            arrival_time: if arrivals[i] <= LATE_AFTER_SECS {
                arrivals[i]
            } else {
                LATE_AFTER_SECS
            },
            target_floor: floor_of(i),
            clock_in_time: None,
            elevator_assignment: None,
        }),
{
    lemma_workers_from_at(arrivals, 0);
    lemma_workers_from_len(arrivals, 0, 0);
    assert forall|i: int| 0 <= i < 500 implies (#[trigger] trial_workers(arrivals)[i]) == (Worker {
        arrival_time: if arrivals[i] <= LATE_AFTER_SECS {
            arrivals[i]
        } else {
            LATE_AFTER_SECS
        },
        target_floor: floor_of(i),
        clock_in_time: None,
        elevator_assignment: None,
    }) by {
        assert(workers_from(arrivals, workers_per_floor(), 0, floor_start(0))[i - floor_start(0)] == trial_workers(
            arrivals,
        )[i]);
    }
}

} // verus!
