//! Facts about one second that hold on any state, ordered or not: what stays the same,
//! who may clock in and when, and the shape every car keeps.
use vstd::prelude::*;
use crate::config::ELEVATOR_CAPACITY;
use crate::elevator::{state_duration, ElevatorState, ElevatorView};
use crate::invariants::same_people;
use crate::lemmas::{lemma_alight, lemma_board};
use crate::rules::{alight, arrivals_from, arrive, board, elevator_tick, next_state, tick_elevators, SimulationView};
use crate::safety::lemma_arrivals_bound;
use crate::worker::{may_board, Worker};

verus! {

/// What one second of cars `0 .. k` leaves alone: the clock, the plan, the number of
/// cars, each worker's arrival, floor and binding, and the cars not yet reached. A
/// worker's clock-in time changes only to the current second, and the count of
/// clocked-in workers never falls.
pub proof fn lemma_ticks_frame(s: SimulationView, k: nat)
    requires
        k <= s.elevators.len(),
    ensures
        ({
            let t = tick_elevators(s, k);
            &&& t.cur_time == s.cur_time
            &&& t.plan == s.plan
            &&& t.elevators.len() == s.elevators.len()
            &&& same_people(s.workers, t.workers)
            &&& forall|i: int| 0 <= i < s.workers.len() ==> (#[trigger] t.workers[i]).clock_in_time == s.workers[i].clock_in_time
                || t.workers[i].clock_in_time == Some(s.cur_time as isize)
            &&& t.clocked_in >= s.clocked_in
            &&& forall|f: int| k <= f < s.elevators.len() ==> #[trigger] t.elevators[f] == s.elevators[f]
        }),
    decreases k,
{
    if k > 0 {
        lemma_ticks_frame(s, (k - 1) as nat);
        let p = tick_elevators(s, (k - 1) as nat);
        let t = tick_elevators(s, k);
        assert(t == elevator_tick(p, k - 1));
        assert forall|i: int| 0 <= i < s.workers.len() implies (#[trigger] t.workers[i]).clock_in_time == s.workers[i].clock_in_time
            || t.workers[i].clock_in_time == Some(s.cur_time as isize) by {
            assert(p.workers[i].clock_in_time == s.workers[i].clock_in_time
                || p.workers[i].clock_in_time == Some(s.cur_time as isize));
        }
    }
}

/// The shape every car keeps: within capacity, its timer within its state's duration,
/// in the lobby while boarding, empty while descending, carrying someone while
/// climbing, and every rider a worker of the simulation bound for a floor above it.
pub open spec fn car_shape(c: ElevatorView, workers: Seq<Worker>) -> bool {
    &&& c.cur_workers.len() <= ELEVATOR_CAPACITY
    &&& 0 <= c.time_left <= state_duration(c.state)
    &&& c.state == ElevatorState::GroundFill ==> c.cur_floor == 0
    &&& c.state == ElevatorState::GoingDown ==> c.cur_workers.len() == 0
    &&& c.state == ElevatorState::GoingUp ==> c.cur_workers.len() > 0
    &&& forall|k: int|
        0 <= k < c.cur_workers.len() ==> {
            let w = #[trigger] c.cur_workers[k];
            &&& w < workers.len()
            &&& workers[w as int].target_floor > c.cur_floor
        }
}

/// Every car has its shape, every waiting worker is a worker of the simulation, and
/// every worker is bound for a floor above the lobby.
pub open spec fn shape_ok(s: SimulationView) -> bool {
    &&& forall|k: int| 0 <= k < s.waiting.len() ==> #[trigger] s.waiting[k] < s.workers.len()
    &&& forall|i: int| 0 <= i < s.workers.len() ==> #[trigger] s.workers[i].target_floor >= 1
    &&& forall|e: int| 0 <= e < s.elevators.len() ==> car_shape(#[trigger] s.elevators[e], s.workers)
}

proof fn lemma_tick_shape(s: SimulationView, e: int)
    requires
        shape_ok(s),
        0 <= e < s.elevators.len(),
    ensures
        shape_ok(elevator_tick(s, e)),
        elevator_tick(s, e).elevators.len() == s.elevators.len(),
{
    let t = elevator_tick(s, e);
    let c = s.elevators[e];
    let ws = s.workers;
    assert(car_shape(c, ws));
    let c2 = t.elevators[e];
    if c.time_left > 0 && c.state == ElevatorState::GroundFill {
        let space = ELEVATOR_CAPACITY - c.cur_workers.len();
        lemma_board(s.waiting, ws, e, space);
        let (b, r) = board(s.waiting, ws, e, space);
        assert(c2.cur_workers == c.cur_workers + b);
        assert forall|k: int| 0 <= k < c2.cur_workers.len() implies {
            let w = #[trigger] c2.cur_workers[k];
            &&& w < ws.len()
            &&& ws[w as int].target_floor > c2.cur_floor
        } by {
            if k >= c.cur_workers.len() {
                let w = b[k - c.cur_workers.len()];
                assert(c2.cur_workers[k] == w);
                assert(b.contains(w));
                assert(s.waiting.contains(w));
                let j = choose|j: int| 0 <= j < s.waiting.len() && s.waiting[j] == w;
                assert(ws[w as int].target_floor >= 1);
            } else {
                assert(c2.cur_workers[k] == c.cur_workers[k]);
            }
        }
        assert forall|k: int| 0 <= k < r.len() implies #[trigger] r[k] < ws.len() by {
            assert(r.contains(r[k]));
            let j = choose|j: int| 0 <= j < s.waiting.len() && s.waiting[j] == r[k];
        }
    } else if c.time_left <= 0 && c.state == ElevatorState::GoingUp {
        let floor = c.cur_floor + 1;
        lemma_alight(c.cur_workers, ws, floor);
        let (off, stay) = alight(c.cur_workers, ws, floor);
        assert forall|k: int| 0 <= k < stay.len() implies {
            let w = #[trigger] stay[k];
            &&& w < t.workers.len()
            &&& t.workers[w as int].target_floor > floor
        } by {
            assert(stay.contains(stay[k]));
            let j = choose|j: int| 0 <= j < c.cur_workers.len() && c.cur_workers[j] == stay[k];
        }
        if stay.len() > 0 && !crate::rules::any_above(stay, ws, floor) {
            assert(ws[stay[0] as int].target_floor > floor);
        }
    } else if c.time_left <= 0 && c.state == ElevatorState::FloorOpen && c.cur_workers.len() > 0 {
        assert(ws[c.cur_workers[0] as int].target_floor > c.cur_floor);
    }
    assert forall|f: int| 0 <= f < t.elevators.len() implies car_shape(#[trigger] t.elevators[f], t.workers) by {
        if f != e {
            assert(t.elevators[f] == s.elevators[f]);
            assert(car_shape(s.elevators[f], ws));
        }
    }
}

/// Cars `0 .. k` taking their second keep every car's shape.
pub proof fn lemma_ticks_shape(s: SimulationView, k: nat)
    requires
        shape_ok(s),
        k <= s.elevators.len(),
    ensures
        shape_ok(tick_elevators(s, k)),
        tick_elevators(s, k).elevators.len() == s.elevators.len(),
    decreases k,
{
    if k > 0 {
        lemma_ticks_shape(s, (k - 1) as nat);
        lemma_tick_shape(tick_elevators(s, (k - 1) as nat), k - 1);
    }
}

/// A second of the simulation keeps every car's shape: no car exceeds its capacity,
/// descends with riders, or carries a rider at or above the rider's floor.
pub proof fn lemma_next_shape(s: SimulationView)
    requires
        shape_ok(s),
    ensures
        shape_ok(next_state(s)),
{
    let a = arrive(SimulationView { cur_time: s.cur_time + 1, ..s });
    let arr = arrivals_from(s.workers, 0, s.cur_time + 1);
    lemma_arrivals_bound(s.workers, 0, s.cur_time + 1);
    assert forall|k: int| 0 <= k < a.waiting.len() implies #[trigger] a.waiting[k] < a.workers.len() by {
        if k >= s.waiting.len() {
            assert(a.waiting[k] == arr[k - s.waiting.len()]);
        } else {
            assert(a.waiting[k] == s.waiting[k]);
        }
    }
    assert forall|e: int| 0 <= e < a.elevators.len() implies car_shape(#[trigger] a.elevators[e], a.workers) by {
        assert(car_shape(s.elevators[e], s.workers));
    }
    lemma_ticks_shape(a, s.elevators.len());
}


/// Every listed worker, waiting or riding, is a worker of the simulation.
pub open spec fn indices_valid(s: SimulationView) -> bool {
    &&& forall|k: int| 0 <= k < s.waiting.len() ==> #[trigger] s.waiting[k] < s.workers.len()
    &&& forall|e: int, k: int|
        0 <= e < s.elevators.len() && 0 <= k < s.elevators[e].cur_workers.len()
            ==> #[trigger] s.elevators[e].cur_workers[k] < s.workers.len()
}

/// Every rider may ride the car it is in: it is bound to that car or to none.
pub open spec fn riders_bound(s: SimulationView) -> bool {
    forall|e: int, k: int|
        0 <= e < s.elevators.len() && 0 <= k < s.elevators[e].cur_workers.len()
            ==> may_board(s.workers[#[trigger] s.elevators[e].cur_workers[k] as int], e)
}

proof fn lemma_tick_binding(s: SimulationView, e: int)
    requires
        indices_valid(s),
        riders_bound(s),
        0 <= e < s.elevators.len(),
    ensures
        ({
            let t = elevator_tick(s, e);
            &&& indices_valid(t)
            &&& riders_bound(t)
            &&& t.elevators.len() == s.elevators.len()
            &&& forall|f: int| 0 <= f < s.elevators.len() && f != e ==> #[trigger] t.elevators[f] == s.elevators[f]
            &&& forall|i: usize| #[trigger] t.elevators[e].cur_workers.contains(i)
                ==> s.elevators[e].cur_workers.contains(i) || s.waiting.contains(i)
            &&& forall|i: usize| #[trigger] t.waiting.contains(i) ==> s.waiting.contains(i)
        }),
{
    let t = elevator_tick(s, e);
    let c = s.elevators[e];
    let ws = s.workers;
    let c2 = t.elevators[e];
    if c.time_left > 0 && c.state == ElevatorState::GroundFill {
        let space = ELEVATOR_CAPACITY - c.cur_workers.len();
        lemma_board(s.waiting, ws, e, space);
        let (b, r) = board(s.waiting, ws, e, space);
        assert(c2.cur_workers == c.cur_workers + b);
        assert forall|i: usize| #[trigger] c2.cur_workers.contains(i) implies c.cur_workers.contains(i) || s.waiting.contains(i) by {
            let k = choose|k: int| 0 <= k < c2.cur_workers.len() && c2.cur_workers[k] == i;
            if k >= c.cur_workers.len() {
                assert(b[k - c.cur_workers.len()] == i);
                assert(b.contains(i));
            } else {
                assert(c.cur_workers[k] == i);
            }
        }
        assert forall|f: int, k: int| 0 <= f < t.elevators.len() && 0 <= k < t.elevators[f].cur_workers.len()
            implies #[trigger] t.elevators[f].cur_workers[k] < t.workers.len()
            && may_board(t.workers[t.elevators[f].cur_workers[k] as int], f) by {
            if f == e && k >= c.cur_workers.len() {
                let w = b[k - c.cur_workers.len()];
                assert(c2.cur_workers[k] == w);
                assert(b.contains(w));
                let j = choose|j: int| 0 <= j < s.waiting.len() && s.waiting[j] == w;
            } else if f == e {
                assert(c2.cur_workers[k] == c.cur_workers[k]);
            } else {
                assert(t.elevators[f] == s.elevators[f]);
            }
        }
        assert forall|k: int| 0 <= k < r.len() implies #[trigger] r[k] < t.workers.len() by {
            assert(r.contains(r[k]));
            let j = choose|j: int| 0 <= j < s.waiting.len() && s.waiting[j] == r[k];
        }
    } else if c.time_left <= 0 && c.state == ElevatorState::GoingUp {
        let floor = c.cur_floor + 1;
        lemma_alight(c.cur_workers, ws, floor);
        let (off, stay) = alight(c.cur_workers, ws, floor);
        assert forall|f: int, k: int| 0 <= f < t.elevators.len() && 0 <= k < t.elevators[f].cur_workers.len()
            implies #[trigger] t.elevators[f].cur_workers[k] < t.workers.len()
            && may_board(t.workers[t.elevators[f].cur_workers[k] as int], f) by {
            if f == e {
                assert(stay.contains(stay[k]));
                let j = choose|j: int| 0 <= j < c.cur_workers.len() && c.cur_workers[j] == stay[k];
                assert(c2.cur_workers[k] == stay[k]);
            } else {
                assert(t.elevators[f] == s.elevators[f]);
            }
        }
    } else {
        assert(c2.cur_workers == c.cur_workers);
        assert forall|f: int, k: int| 0 <= f < t.elevators.len() && 0 <= k < t.elevators[f].cur_workers.len()
            implies #[trigger] t.elevators[f].cur_workers[k] < t.workers.len()
            && may_board(t.workers[t.elevators[f].cur_workers[k] as int], f) by {
            if f != e {
                assert(t.elevators[f] == s.elevators[f]);
            }
        }
    }
}

/// Cars `0 .. k` taking their second keep every rider in a car it may ride: the
/// workers who join a car come from the lobby and are allowed in that car, and no
/// one joins the lobby.
pub proof fn lemma_ticks_binding(s: SimulationView, k: nat)
    requires
        indices_valid(s),
        riders_bound(s),
        k <= s.elevators.len(),
    ensures
        ({
            let t = tick_elevators(s, k);
            &&& indices_valid(t)
            &&& riders_bound(t)
            &&& t.elevators.len() == s.elevators.len()
            &&& forall|e: int, i: usize| 0 <= e < s.elevators.len() && #[trigger] t.elevators[e].cur_workers.contains(i)
                ==> s.elevators[e].cur_workers.contains(i) || s.waiting.contains(i)
            &&& forall|i: usize| #[trigger] t.waiting.contains(i) ==> s.waiting.contains(i)
            &&& forall|f: int| k <= f < s.elevators.len() ==> #[trigger] t.elevators[f] == s.elevators[f]
        }),
    decreases k,
{
    if k > 0 {
        lemma_ticks_binding(s, (k - 1) as nat);
        let p = tick_elevators(s, (k - 1) as nat);
        lemma_tick_binding(p, k - 1);
        let t = tick_elevators(s, k);
        assert forall|e: int, i: usize| 0 <= e < s.elevators.len() && #[trigger] t.elevators[e].cur_workers.contains(i)
            implies s.elevators[e].cur_workers.contains(i) || s.waiting.contains(i) by {
            if e == k - 1 {
                assert(p.elevators[e] == s.elevators[e]);
                if !p.elevators[e].cur_workers.contains(i) {
                    assert(p.waiting.contains(i));
                }
            } else {
                assert(t.elevators[e] == p.elevators[e]);
                assert(p.elevators[e].cur_workers.contains(i));
            }
        }
        assert forall|i: usize| #[trigger] t.waiting.contains(i) implies s.waiting.contains(i) by {
            assert(p.waiting.contains(i));
        }
    }
}

} // verus!
