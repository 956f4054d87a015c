//! What one second of the simulation needs in order to run without error: cars
//! within capacity, every listed worker one of the simulation's workers, a car about
//! to climb below the top floor number, and room in the clocked-in count for the riders.
use vstd::prelude::*;
use crate::config::ELEVATOR_CAPACITY;
use crate::elevator::{ElevatorState, ElevatorView};
use crate::invariants::{riding, wf};
use crate::lemmas::{lemma_alight, lemma_board, lemma_num_clocked_in_bound};
use crate::rules::{
    alight, arrivals_from, arrive, board, elevator_tick, finished, next_state, run_steps, tick_elevators,
    SimulationView,
};
use crate::worker::{is_clocked_in, num_clocked_in, Worker};

verus! {

/// Riders of cars `lo .. hi`.
pub open spec fn riders_between(cars: Seq<ElevatorView>, lo: int, hi: int) -> int
    decreases hi - lo,
{
    if hi <= lo {
        0
    } else {
        riders_between(cars, lo, hi - 1) + cars[hi - 1].cur_workers.len()
    }
}

/// A car that can take its second: within capacity, carrying only workers of the
/// simulation, and, if about to climb, below the top floor number.
pub open spec fn car_ready(c: ElevatorView, num_workers: int) -> bool {
    &&& c.cur_workers.len() <= ELEVATOR_CAPACITY
    &&& forall|k: int| 0 <= k < c.cur_workers.len() ==> #[trigger] c.cur_workers[k] < num_workers
    &&& (c.state == ElevatorState::GoingUp && c.time_left <= 0) ==> c.cur_floor < i32::MAX
}

/// Cars `e` and up can take their second, in order.
pub open spec fn ready_from(s: SimulationView, e: int) -> bool {
    &&& forall|k: int| 0 <= k < s.waiting.len() ==> #[trigger] s.waiting[k] < s.workers.len()
    &&& forall|f: int| e <= f < s.elevators.len() ==> car_ready(#[trigger] s.elevators[f], s.workers.len() as int)
    &&& s.clocked_in + riders_between(s.elevators, e, s.elevators.len() as int) <= usize::MAX
}

/// Every car can take its second, in order.
pub open spec fn step_ready(s: SimulationView) -> bool {
    ready_from(s, 0)
}

proof fn lemma_riders_between_split(cars: Seq<ElevatorView>, lo: int, hi: int)
    requires
        lo < hi,
    ensures
        riders_between(cars, lo, hi) == cars[lo].cur_workers.len() + riders_between(cars, lo + 1, hi),
        riders_between(cars, lo + 1, hi) >= 0,
    decreases hi - lo,
{
    reveal_with_fuel(riders_between, 2);
    if hi - 1 > lo {
        lemma_riders_between_split(cars, lo, hi - 1);
    }
}

proof fn lemma_riders_between_frame(a: Seq<ElevatorView>, b: Seq<ElevatorView>, lo: int, hi: int)
    requires
        forall|f: int| lo <= f < hi ==> (#[trigger] a[f]).cur_workers == b[f].cur_workers,
    ensures
        riders_between(a, lo, hi) == riders_between(b, lo, hi),
    decreases hi - lo,
{
    if hi > lo {
        lemma_riders_between_frame(a, b, lo, hi - 1);
    }
}

/// A car that can take its second does so, and the cars after it can still take theirs.
pub proof fn lemma_tick_ready(t: SimulationView, e: int)
    requires
        0 <= e < t.elevators.len(),
        ready_from(t, e),
    ensures
        ready_from(elevator_tick(t, e), e + 1),
        elevator_tick(t, e).elevators.len() == t.elevators.len(),
        elevator_tick(t, e).workers.len() == t.workers.len(),
        t.clocked_in <= elevator_tick(t, e).clocked_in <= t.clocked_in + t.elevators[e].cur_workers.len(),
        t.clocked_in + t.elevators[e].cur_workers.len() <= usize::MAX,
{
    let t2 = elevator_tick(t, e);
    let c = t.elevators[e];
    let n = t.elevators.len() as int;
    lemma_riders_between_split(t.elevators, e, n);
    lemma_riders_between_frame(t.elevators, t2.elevators, e + 1, n);
    assert forall|f: int| e + 1 <= f < n implies car_ready(#[trigger] t2.elevators[f], t2.workers.len() as int) by {
        assert(t2.elevators[f] == t.elevators[f]);
        assert(car_ready(t.elevators[f], t.workers.len() as int));
    }
    if c.time_left > 0 && c.state == ElevatorState::GroundFill {
        let space = ELEVATOR_CAPACITY - c.cur_workers.len();
        lemma_board(t.waiting, t.workers, e, space);
        let (b, r) = board(t.waiting, t.workers, e, space);
        assert forall|k: int| 0 <= k < r.len() implies #[trigger] r[k] < t2.workers.len() by {
            assert(r.contains(r[k]));
            let j = choose|j: int| 0 <= j < t.waiting.len() && t.waiting[j] == r[k];
        }
    } else if c.time_left <= 0 && c.state == ElevatorState::GoingUp {
        lemma_alight(c.cur_workers, t.workers, c.cur_floor + 1);
    }
}

/// The workers who arrive are workers of the simulation.
pub proof fn lemma_arrivals_bound(ws: Seq<Worker>, i: nat, t: int)
    ensures
        forall|k: int| 0 <= k < arrivals_from(ws, i, t).len() ==> #[trigger] arrivals_from(ws, i, t)[k] < ws.len(),
    decreases ws.len() - i,
{
    if i < ws.len() {
        lemma_arrivals_bound(ws, i + 1, t);
        let rest = arrivals_from(ws, i + 1, t);
        if ws[i as int].arrival_time == t {
            let a = seq![i as usize] + rest;
            assert forall|k: int| 0 <= k < a.len() implies #[trigger] a[k] < ws.len() by {
                if k > 0 {
                    assert(a[k] == rest[k - 1]);
                }
            }
        }
    }
}

/// Arrivals keep every car able to take its second.
pub proof fn lemma_arrive_ready(s: SimulationView)
    requires
        step_ready(s),
    ensures
        step_ready(arrive(SimulationView { cur_time: s.cur_time + 1, ..s })),
{
    let s2 = arrive(SimulationView { cur_time: s.cur_time + 1, ..s });
    let a = arrivals_from(s.workers, 0, s.cur_time + 1);
    lemma_arrivals_bound(s.workers, 0, s.cur_time + 1);
    assert forall|k: int| 0 <= k < s2.waiting.len() implies #[trigger] s2.waiting[k] < s2.workers.len() by {
        if k >= s.waiting.len() {
            assert(s2.waiting[k] == a[k - s.waiting.len()]);
        } else {
            assert(s2.waiting[k] == s.waiting[k]);
        }
    }
}

// ---------------------------------------------------------------------------
// The invariant leaves room for every rider in the clocked-in count.

/// Indices of the workers who have not clocked in.
pub open spec fn unclocked_set(ws: Seq<Worker>) -> Set<usize> {
    Set::new(|i: usize| (i as int) < ws.len() && !is_clocked_in(ws[i as int]))
}

/// Workers riding cars `0 .. k`.
pub open spec fn rider_set(cars: Seq<ElevatorView>, k: int) -> Set<usize> {
    Set::new(|i: usize| exists|f: int| 0 <= f < k && #[trigger] cars[f].cur_workers.contains(i))
}

proof fn lemma_unclocked_set(ws: Seq<Worker>)
    requires
        ws.len() <= usize::MAX,
    ensures
        unclocked_set(ws).finite(),
        unclocked_set(ws).len() + num_clocked_in(ws) == ws.len(),
    decreases ws.len(),
{
    if ws.len() == 0 {
        assert(unclocked_set(ws) =~= Set::empty());
    } else {
        let d = ws.drop_last();
        lemma_unclocked_set(d);
        let last = (ws.len() - 1) as usize;
        if is_clocked_in(ws.last()) {
            assert(unclocked_set(ws) =~= unclocked_set(d));
        } else {
            assert(unclocked_set(ws) =~= unclocked_set(d).insert(last));
            assert(!unclocked_set(d).contains(last));
        }
    }
}

proof fn lemma_rider_set(cars: Seq<ElevatorView>, k: int)
    requires
        0 <= k <= cars.len(),
        forall|f: int| 0 <= f < k ==> (#[trigger] cars[f]).cur_workers.no_duplicates(),
        forall|f: int, g: int, i: usize|
            0 <= f < k && 0 <= g < k && f != g ==> !(#[trigger] cars[f].cur_workers.contains(i)
                && #[trigger] cars[g].cur_workers.contains(i)),
    ensures
        rider_set(cars, k).finite(),
        rider_set(cars, k).len() == riders_between(cars, 0, k),
    decreases k,
{
    if k == 0 {
        assert(rider_set(cars, k) =~= Set::empty());
    } else {
        lemma_rider_set(cars, k - 1);
        let prev = rider_set(cars, k - 1);
        let mine = cars[k - 1].cur_workers.to_set();
        cars[k - 1].cur_workers.unique_seq_to_set();
        assert(rider_set(cars, k) =~= prev + mine);
        assert(prev.disjoint(mine)) by {
            assert forall|i: usize| prev.contains(i) implies !mine.contains(i) by {
                let f = choose|f: int| 0 <= f < k - 1 && #[trigger] cars[f].cur_workers.contains(i);
            }
        }
        vstd::set_lib::lemma_set_disjoint_lens(prev, mine);
    }
}

/// Under the invariant, the riders of all cars are workers who have not clocked in,
/// so the clocked-in count plus the riders is at most the number of workers.
pub proof fn lemma_wf_ready(s: SimulationView)
    requires
        wf(s),
    ensures
        step_ready(s),
        s.clocked_in + riders_between(s.elevators, 0, s.elevators.len() as int) <= s.workers.len(),
{
    let n = s.elevators.len() as int;
    assert forall|f: int| 0 <= f < n implies (#[trigger] s.elevators[f]).cur_workers.no_duplicates() by {
        assert(crate::invariants::car_ok(s.elevators[f], s.workers));
    }
    assert forall|f: int, g: int, i: usize|
        0 <= f < n && 0 <= g < n && f != g implies !(#[trigger] s.elevators[f].cur_workers.contains(i)
            && #[trigger] s.elevators[g].cur_workers.contains(i)) by {
        assert(!(riding(s, f, i) && riding(s, g, i)));
    }
    lemma_rider_set(s.elevators, n);
    lemma_unclocked_set(s.workers);
    assert(rider_set(s.elevators, n).subset_of(unclocked_set(s.workers))) by {
        assert forall|i: usize| rider_set(s.elevators, n).contains(i) implies unclocked_set(s.workers).contains(i) by {
            let f = choose|f: int| 0 <= f < n && #[trigger] s.elevators[f].cur_workers.contains(i);
            assert(crate::invariants::car_ok(s.elevators[f], s.workers));
            assert(riding(s, f, i));
            assert(crate::invariants::placed(s, i));
            let k = choose|k: int| 0 <= k < s.elevators[f].cur_workers.len() && s.elevators[f].cur_workers[k] == i;
        }
    }
    vstd::set_lib::lemma_len_subset(rider_set(s.elevators, n), unclocked_set(s.workers));
    assert forall|f: int| 0 <= f < n implies car_ready(#[trigger] s.elevators[f], s.workers.len() as int) by {
        let c = s.elevators[f];
        assert(crate::invariants::car_ok(c, s.workers));
        if c.state == ElevatorState::GoingUp {
            assert(s.workers[c.cur_workers[0] as int].target_floor > c.cur_floor);
        }
    }
}


/// The run from `s` counts everyone clocked in after `n` seconds, its clock has room
/// for them, and every second before then can run without error.
pub open spec fn runs_safely_to_finish(s: SimulationView, n: nat) -> bool {
    &&& finished(run_steps(s, n))
    &&& s.cur_time + n <= isize::MAX
    &&& forall|j: nat| j < n ==> step_ready(#[trigger] run_steps(s, j))
}

proof fn lemma_ticks_time(s: SimulationView, k: nat)
    ensures
        tick_elevators(s, k).cur_time == s.cur_time,
    decreases k,
{
    if k > 0 {
        lemma_ticks_time(s, (k - 1) as nat);
    }
}

/// Each second advances the clock by one.
pub proof fn lemma_run_time(s: SimulationView, n: nat)
    ensures
        run_steps(s, n).cur_time == s.cur_time + n,
    decreases n,
{
    if n > 0 {
        lemma_ticks_time(arrive(SimulationView { cur_time: s.cur_time + 1, ..s }), s.elevators.len());
        lemma_run_time(next_state(s), (n - 1) as nat);
    }
}

/// Under the invariant, a run that finishes within the clock's range runs safely.
pub proof fn lemma_wf_runs_safely(s: SimulationView, n: nat)
    requires
        wf(s),
        finished(run_steps(s, n)),
        s.cur_time + n <= isize::MAX,
    ensures
        runs_safely_to_finish(s, n),
{
    assert forall|j: nat| j < n implies step_ready(#[trigger] run_steps(s, j)) by {
        crate::invariants::lemma_run_wf(s, j);
        lemma_wf_ready(run_steps(s, j));
    }
}

} // verus!
