//! How a plan binds workers to elevators: each worker, in arrival order, gets the
//! first elevator whose seats for the worker's floor are not yet used up by earlier
//! workers of that floor.
use vstd::prelude::*;
use crate::config::{ELEVATORS, FLOORS};
use crate::hyper_simulation::{
    first_open, lemma_workers_from, lemma_workers_from_len, take_floor_seat, take_seat, total_workers, trial_start,
    trial_workers, workers_per_floor,
};
use crate::invariants::lemma_assign_keeps;
use crate::rules::{assign_from, initialized, sort_by_arrival};
use crate::worker::Worker;

verus! {

/// Number of workers before position `i` in `ws` whose floor is `floor` and who are
/// bound to elevator `k`.
pub open spec fn seats_taken(ws: Seq<Worker>, floor: int, k: int, i: int) -> nat
    decreases i,
{
    if i <= 0 {
        0
    } else {
        seats_taken(ws, floor, k, i - 1) + if ws[i - 1].target_floor == floor && ws[i - 1].elevator_assignment
            == Some(k as usize) {
            1nat
        } else {
            0nat
        }
    }
}

/// Whether worker `i` of `ws` is bound as `plan` asks: to the first elevator whose
/// seats for the worker's floor are not all taken by earlier workers of that floor, or
/// to none when every such seat is taken.
pub open spec fn bound_by_plan_at(ws: Seq<Worker>, plan: Seq<Seq<usize>>, i: int) -> bool {
    let f = ws[i].target_floor as int;
    let row = plan[f - 1];
    match ws[i].elevator_assignment {
        Some(k) => {
            &&& k < row.len()
            &&& seats_taken(ws, f, k as int, i) < row[k as int]
            &&& forall|k2: int| 0 <= k2 < k ==> seats_taken(ws, f, k2, i) >= #[trigger] row[k2]
        },
        None => forall|k2: int| 0 <= k2 < row.len() ==> seats_taken(ws, f, k2, i) >= #[trigger] row[k2],
    }
}

proof fn lemma_first_open_zeros(counts: Seq<usize>, k0: nat)
    requires
        k0 <= counts.len(),
    ensures
        k0 <= first_open(counts, k0) <= counts.len(),
        first_open(counts, k0) < counts.len() ==> counts[first_open(counts, k0) as int] > 0,
        forall|k: int| k0 <= k < first_open(counts, k0) ==> counts[k] == 0,
    decreases counts.len() - k0,
{
    if k0 < counts.len() && counts[k0 as int] == 0 {
        lemma_first_open_zeros(counts, k0 + 1);
    }
}

/// Taking a seat takes it from the lowest-numbered elevator that has one left, one
/// seat fewer for it and no change for the others; with no seat left anywhere it
/// takes none and changes nothing.
pub proof fn lemma_take_seat_first(counts: Seq<usize>)
    requires
        counts.len() <= usize::MAX,
    ensures
        ({
            let (c2, slot) = take_seat(counts);
            match slot {
                Some(j) => {
                    &&& j < counts.len()
                    &&& counts[j as int] > 0
                    &&& forall|k: int| 0 <= k < j ==> #[trigger] counts[k] == 0
                    &&& c2 == counts.update(j as int, (counts[j as int] - 1) as usize)
                },
                None => {
                    &&& c2 == counts
                    &&& forall|k: int| 0 <= k < counts.len() ==> #[trigger] counts[k] == 0
                },
            }
        }),
{
    lemma_first_open_zeros(counts, 0);
}

/// Seats taken before position `n` depend on the workers before `n` alone.
proof fn lemma_seats_prefix(a: Seq<Worker>, b: Seq<Worker>, n: int)
    requires
        0 <= n <= a.len(),
        n <= b.len(),
        forall|m: int| 0 <= m < n ==> a[m] == b[m],
    ensures
        forall|f: int, k: int| #[trigger] seats_taken(a, f, k, n) == seats_taken(b, f, k, n),
    decreases n,
{
    if n > 0 {
        lemma_seats_prefix(a, b, n - 1);
        assert(a[n - 1] == b[n - 1]);
        assert forall|f: int, k: int| #[trigger] seats_taken(a, f, k, n) == seats_taken(b, f, k, n) by {
            assert(seats_taken(a, f, k, n - 1) == seats_taken(b, f, k, n - 1));
        }
    }
}

proof fn lemma_bound_prefix(a: Seq<Worker>, b: Seq<Worker>, plan: Seq<Seq<usize>>, m: int)
    requires
        0 <= m < a.len(),
        m < b.len(),
        forall|j: int| 0 <= j <= m ==> a[j] == b[j],
        bound_by_plan_at(a, plan, m),
    ensures
        bound_by_plan_at(b, plan, m),
{
    lemma_seats_prefix(a, b, m);
    assert(a[m] == b[m]);
}

proof fn lemma_assign_binds_from(ws: Seq<Worker>, pl: Seq<Seq<usize>>, plan: Seq<Seq<usize>>, i: nat)
    requires
        i <= ws.len(),
        pl.len() == plan.len(),
        forall|f: int| 0 <= f < plan.len() ==> (#[trigger] pl[f]).len() == plan[f].len(),
        forall|f: int| 0 <= f < plan.len() ==> (#[trigger] plan[f]).len() <= usize::MAX,
        forall|f: int, k: int|
            0 <= f < plan.len() && 0 <= k < plan[f].len() ==> pl[f][k] + seats_taken(ws, f + 1, k, i as int)
                == #[trigger] plan[f][k],
        forall|j: int| 0 <= j < ws.len() ==> 1 <= (#[trigger] ws[j]).target_floor <= plan.len(),
        forall|j: int| i <= j < ws.len() ==> (#[trigger] ws[j]).elevator_assignment is None,
        forall|j: int| 0 <= j < i ==> #[trigger] bound_by_plan_at(ws, plan, j),
    ensures
        forall|j: int| 0 <= j < ws.len() ==> #[trigger] bound_by_plan_at(assign_from(ws, pl, i), plan, j),
    decreases ws.len() - i,
{
    if i < ws.len() {
        let f = ws[i as int].target_floor as int;
        let row = pl[f - 1];
        lemma_take_seat_first(row);
        let (row2, slot) = take_seat(row);
        let pl2 = pl.update(f - 1, row2);
        assert(take_floor_seat(pl, f) == (pl2, slot));
        assert(plan[f - 1].len() == row.len());
        match slot {
            Some(j) => {
                let ws2 = ws.update(i as int, Worker { elevator_assignment: Some(j), ..ws[i as int] });
                lemma_seats_prefix(ws2, ws, i as int);
                assert forall|g: int, k: int|
                    0 <= g < plan.len() && 0 <= k < plan[g].len() implies pl2[g][k] + seats_taken(
                        ws2,
                        g + 1,
                        k,
                        (i + 1) as int,
                    ) == #[trigger] plan[g][k] by {
                    assert(pl[g][k] + seats_taken(ws, g + 1, k, i as int) == plan[g][k]);
                    assert(seats_taken(ws2, g + 1, k, i as int) == seats_taken(ws, g + 1, k, i as int));
                    assert(ws2[i as int].elevator_assignment == Some(j));
                    assert(seats_taken(ws2, g + 1, k, (i + 1) as int) == seats_taken(ws2, g + 1, k, i as int) + if ws2[i as int].target_floor
                        == g + 1 && ws2[i as int].elevator_assignment == Some(k as usize) {
                        1nat
                    } else {
                        0nat
                    });
                    if g == f - 1 && k == j {
                        assert(pl2[g][k] == row[k] - 1);
                    } else {
                        assert(pl2[g][k] == pl[g][k]);
                    }
                }
                assert forall|m: int| 0 <= m < ws2.len() implies 1 <= (#[trigger] ws2[m]).target_floor
                    <= plan.len() by {
                    assert(ws2[m].target_floor == ws[m].target_floor);
                }
                assert(ws2[i as int].target_floor == f);
                assert forall|k2: int| 0 <= k2 < j implies seats_taken(ws2, f, k2, i as int)
                    >= #[trigger] plan[f - 1][k2] by {
                    assert(pl[f - 1][k2] + seats_taken(ws, f, k2, i as int) == plan[f - 1][k2]);
                }
                assert(pl[f - 1][j as int] + seats_taken(ws, f, j as int, i as int) == plan[f - 1][j as int]);
                assert(bound_by_plan_at(ws2, plan, i as int));
                assert forall|m: int| 0 <= m < i + 1 implies #[trigger] bound_by_plan_at(ws2, plan, m) by {
                    if m < i {
                        lemma_bound_prefix(ws, ws2, plan, m);
                    }
                }
                lemma_assign_binds_from(ws2, pl2, plan, i + 1);
                assert(assign_from(ws, pl, i) == assign_from(ws2, pl2, i + 1));
            },
            None => {
                assert(pl2 =~= pl);
                assert forall|g: int, k: int|
                    0 <= g < plan.len() && 0 <= k < plan[g].len() implies pl2[g][k] + seats_taken(
                        ws,
                        g + 1,
                        k,
                        (i + 1) as int,
                    ) == #[trigger] plan[g][k] by {
                    assert(pl[g][k] + seats_taken(ws, g + 1, k, i as int) == plan[g][k]);
                    assert(seats_taken(ws, g + 1, k, (i + 1) as int) == seats_taken(ws, g + 1, k, i as int));
                }
                assert forall|k2: int| 0 <= k2 < row.len() implies seats_taken(ws, f, k2, i as int)
                    >= #[trigger] plan[f - 1][k2] by {
                    assert(pl[f - 1][k2] + seats_taken(ws, f, k2, i as int) == plan[f - 1][k2]);
                }
                assert(bound_by_plan_at(ws, plan, i as int));
                lemma_assign_binds_from(ws, pl2, plan, i + 1);
                assert(assign_from(ws, pl, i) == assign_from(ws, pl2, i + 1));
            },
        }
    }
}

/// Binding unbound workers by a plan gives each worker, in order, the first elevator
/// whose seats for that worker's floor are not used up by the earlier workers of the
/// same floor, and no elevator when all of them are. What happens to workers of other
/// floors, or to a worker left without a seat, changes nothing for a later worker.
/// Nothing but the bindings changes.
pub proof fn lemma_assign_follows_plan(ws: Seq<Worker>, plan: Seq<Seq<usize>>)
    requires
        forall|f: int| 0 <= f < plan.len() ==> (#[trigger] plan[f]).len() <= usize::MAX,
        forall|j: int| 0 <= j < ws.len() ==> 1 <= (#[trigger] ws[j]).target_floor <= plan.len(),
        forall|j: int| 0 <= j < ws.len() ==> (#[trigger] ws[j]).elevator_assignment is None,
    ensures
        assign_from(ws, plan, 0).len() == ws.len(),
        forall|i: int| 0 <= i < ws.len() ==> (#[trigger] assign_from(ws, plan, 0)[i]) == (Worker {
            elevator_assignment: assign_from(ws, plan, 0)[i].elevator_assignment,
            ..ws[i]
        }),
        forall|i: int| #![trigger assign_from(ws, plan, 0)[i]] 0 <= i < ws.len() ==> {
            let out = assign_from(ws, plan, 0);
            let f = ws[i].target_floor as int;
            let row = plan[f - 1];
            match out[i].elevator_assignment {
                Some(k) => {
                    &&& k < row.len()
                    &&& seats_taken(out, f, k as int, i) < row[k as int]
                    &&& forall|k2: int| 0 <= k2 < k ==> seats_taken(out, f, k2, i) >= #[trigger] row[k2]
                },
                None => forall|k2: int| 0 <= k2 < row.len() ==> seats_taken(out, f, k2, i) >= #[trigger] row[k2],
            }
        },
{
    lemma_assign_keeps(ws, plan, 0);
    lemma_assign_binds_from(ws, plan, plan, 0);
    let out = assign_from(ws, plan, 0);
    assert forall|i: int| 0 <= i < ws.len() implies (#[trigger] out[i]) == (Worker {
        elevator_assignment: out[i].elevator_assignment,
        ..ws[i]
    }) by {}
    assert forall|i: int| 0 <= i < ws.len() implies {
        let f = ws[i].target_floor as int;
        let row = plan[f - 1];
        match (#[trigger] out[i]).elevator_assignment {
            Some(k) => {
                &&& k < row.len()
                &&& seats_taken(out, f, k as int, i) < row[k as int]
                &&& forall|k2: int| 0 <= k2 < k ==> seats_taken(out, f, k2, i) >= #[trigger] row[k2]
            },
            None => forall|k2: int| 0 <= k2 < row.len() ==> seats_taken(out, f, k2, i) >= #[trigger] row[k2],
        }
    } by {
        assert(bound_by_plan_at(out, plan, i));
    }
}

/// Every morning of a study starts from a building with the study's plan in force:
/// the simulation holds that plan, the four elevators and all of the morning's
/// workers; under a plan every worker is bound as the plan asks (each gets the first
/// elevator whose seats for the worker's floor earlier workers of that floor have not
/// used up), and with no plan nobody is bound.
pub proof fn lemma_trial_follows_plan(arrivals: Seq<isize>, plan: Option<Seq<Seq<usize>>>)
    requires
        arrivals.len() == total_workers(),
        plan matches Some(p) ==> p.len() == FLOORS && forall|f: int| 0 <= f < p.len() ==> (#[trigger] p[f]).len()
            <= usize::MAX,
    ensures
        initialized(trial_start(arrivals, plan)).plan == plan,
        initialized(trial_start(arrivals, plan)).elevators.len() == ELEVATORS,
        initialized(trial_start(arrivals, plan)).workers.len() == total_workers(),
        plan is None ==> forall|i: int| 0 <= i < total_workers() ==> (
        #[trigger] initialized(trial_start(arrivals, plan)).workers[i]).elevator_assignment is None,
        plan matches Some(p) ==> forall|i: int| 0 <= i < total_workers() ==> #[trigger] bound_by_plan_at(
            initialized(trial_start(arrivals, plan)).workers,
            p,
            i,
        ),
{
    let s = trial_start(arrivals, plan);
    let ws = trial_workers(arrivals);
    lemma_workers_from(arrivals, workers_per_floor(), 0, 0);
    lemma_workers_from_len(arrivals, 0, 0);
    let sorted = sort_by_arrival(ws);
    crate::sort::lemma_sort_by_arrival(ws);
    assert forall|k: int| 0 <= k < sorted.len() implies 1 <= (#[trigger] sorted[k]).target_floor <= FLOORS
        && sorted[k].elevator_assignment is None by {
        assert(sorted.contains(sorted[k]));
        assert(ws.contains(sorted[k]));
        let j = choose|j: int| 0 <= j < ws.len() && ws[j] == sorted[k];
        assert(ws[j] == sorted[k]);
    }
    let s2 = initialized(s);
    match plan {
        Some(p) => {
            lemma_assign_follows_plan(sorted, p);
            lemma_assign_keeps(sorted, p, 0);
            lemma_assign_binds_from(sorted, p, p, 0);
        },
        None => {},
    }
}

} // verus!
