//! The invariant of a running simulation and the proof that every second keeps it.
use vstd::prelude::*;
use crate::config::ELEVATOR_CAPACITY;
use crate::elevator::{fresh_elevator, state_duration, with_state, ElevatorState, ElevatorView};
use crate::lemmas::{lemma_max_target, lemma_max_target_same, lemma_initial_waiting, lemma_arrivals, lemma_alight, lemma_board, lemma_clock_in_all_count, lemma_num_clocked_in_bound};
use crate::rules::{
    alight, any_above, arrive, assign_from, initialized, initial_waiting, sort_by_arrival, arrivals_from, board, next_state, run_steps, clock_in_all, clocked, elevator_tick, sorted_by_arrival,
    tick_elevators, with_elevator, SimulationView,
};
use crate::worker::{is_clocked_in, max_target, num_clocked_in, Worker};

verus! {

/// Worker `i` rides in elevator `e`.
pub open spec fn riding(s: SimulationView, e: int, i: usize) -> bool {
    s.elevators[e].cur_workers.contains(i)
}

/// Worker `i` rides in some elevator.
pub open spec fn in_car(s: SimulationView, i: usize) -> bool {
    exists|e: int| 0 <= e < s.elevators.len() && #[trigger] riding(s, e, i)
}

/// Worker `i` is in the building and has not clocked in: waiting or riding.
pub open spec fn placed(s: SimulationView, i: usize) -> bool {
    s.waiting.contains(i) || in_car(s, i)
}

/// What holds of every car: it is within capacity, carries each rider once, and
/// every rider's floor is above the car; its state fits where it is.
pub open spec fn car_ok(el: ElevatorView, workers: Seq<Worker>) -> bool {
    &&& el.cur_workers.len() <= ELEVATOR_CAPACITY
    &&& el.cur_workers.no_duplicates()
    &&& 0 <= el.time_left <= state_duration(el.state)
    &&& 0 <= el.cur_floor <= max_target(workers)
    &&& forall|k: int|
        0 <= k < el.cur_workers.len() ==> (#[trigger] el.cur_workers[k]) < workers.len()
            && workers[el.cur_workers[k] as int].target_floor > el.cur_floor
    &&& el.state == ElevatorState::GoingUp ==> el.cur_workers.len() > 0
    &&& el.state == ElevatorState::GroundFill ==> el.cur_floor == 0
    &&& el.state == ElevatorState::GoingDown ==> el.cur_workers.len() == 0 && el.cur_floor >= 1
    &&& el.state == ElevatorState::FloorOpen ==> el.cur_floor >= 1
}

/// What holds of the people: each worker not yet arrived is nowhere, each arrived
/// worker is in exactly one place (the lobby, one car, or clocked in), and the
/// simulation's count of clocked-in workers is right.
pub open spec fn people_ok(s: SimulationView) -> bool {
    &&& 0 <= s.cur_time <= isize::MAX
    &&& s.workers.len() <= usize::MAX
    &&& s.clocked_in == num_clocked_in(s.workers)
    &&& sorted_by_arrival(s.workers)
    &&& forall|i: int| 0 <= i < s.workers.len() ==> #[trigger] s.workers[i].target_floor >= 1
    &&& forall|k: int| 0 <= k < s.waiting.len() ==> #[trigger] s.waiting[k] < s.workers.len()
    &&& s.waiting.no_duplicates()
    &&& forall|e1: int, e2: int, i: usize|
        0 <= e1 < s.elevators.len() && 0 <= e2 < s.elevators.len() && e1 != e2 ==> !(
        #[trigger] riding(s, e1, i) && #[trigger] riding(s, e2, i))
    &&& forall|e: int, i: usize|
        0 <= e < s.elevators.len() ==> !(#[trigger] riding(s, e, i) && s.waiting.contains(i))
    &&& forall|i: usize|
        i < s.workers.len() && #[trigger] placed(s, i) ==> !is_clocked_in(s.workers[i as int])
    &&& forall|i: usize|
        i < s.workers.len() ==> ((#[trigger] placed(s, i) || is_clocked_in(s.workers[i as int]))
            <==> s.workers[i as int].arrival_time <= s.cur_time)
    &&& forall|i: int|
        0 <= i < s.workers.len() && is_clocked_in(#[trigger] s.workers[i]) ==> s.workers[i].arrival_time
            <= s.workers[i].clock_in_time.unwrap() <= s.cur_time
}

/// The same workers, in the same order: only their clock-in times may differ.
pub open spec fn same_people(a: Seq<Worker>, b: Seq<Worker>) -> bool {
    &&& a.len() == b.len()
    &&& forall|i: int|
        0 <= i < a.len() ==> {
            &&& (#[trigger] b[i]).arrival_time == a[i].arrival_time
            &&& b[i].target_floor == a[i].target_floor
            &&& b[i].elevator_assignment == a[i].elevator_assignment
        }
}

/// The invariant of a running simulation.
pub open spec fn wf(s: SimulationView) -> bool {
    &&& people_ok(s)
    &&& forall|e: int| 0 <= e < s.elevators.len() ==> car_ok(#[trigger] s.elevators[e], s.workers)
}

/// Changing an elevator without changing who rides in it keeps the people's invariant.
proof fn lemma_same_riders(s: SimulationView, e: int, el: ElevatorView)
    requires
        people_ok(s),
        0 <= e < s.elevators.len(),
        el.cur_workers == s.elevators[e].cur_workers,
    ensures
        people_ok(with_elevator(s, e, el)),
{
    let s2 = with_elevator(s, e, el);
    assert forall|f: int, i: usize| 0 <= f < s.elevators.len() implies riding(s2, f, i) == riding(s, f, i) by {
        if f == e {
            assert(s2.elevators[f].cur_workers == s.elevators[f].cur_workers);
        }
    }
    assert forall|i: usize| placed(s2, i) == placed(s, i) by {
        if in_car(s2, i) {
            let f = choose|f: int| 0 <= f < s2.elevators.len() && #[trigger] riding(s2, f, i);
            assert(riding(s, f, i));
        }
        if in_car(s, i) {
            let f = choose|f: int| 0 <= f < s.elevators.len() && #[trigger] riding(s, f, i);
            assert(riding(s2, f, i));
        }
    }
}

/// One second of one elevator keeps the invariant.
pub proof fn lemma_tick_wf(s: SimulationView, e: int)
    requires
        wf(s),
        0 <= e < s.elevators.len(),
    ensures
        wf(elevator_tick(s, e)),
        elevator_tick(s, e).elevators.len() == s.elevators.len(),
        elevator_tick(s, e).cur_time == s.cur_time,
        elevator_tick(s, e).plan == s.plan,
        elevator_tick(s, e).workers.len() == s.workers.len(),
        same_people(s.workers, elevator_tick(s, e).workers),
{
    let el = s.elevators[e];
    let s2 = elevator_tick(s, e);
    assert(car_ok(el, s.workers));
    if el.time_left > 0 {
        if el.state == ElevatorState::GroundFill {
            lemma_tick_board(s, e);
        } else {
            let el2 = ElevatorView { time_left: el.time_left - 1, ..el };
            lemma_same_riders(s, e, el2);
            assert forall|f: int| 0 <= f < s2.elevators.len() implies car_ok(#[trigger] s2.elevators[f], s2.workers) by {
                if f != e {
                    assert(car_ok(s.elevators[f], s.workers));
                }
            }
        }
    } else {
        match el.state {
            ElevatorState::GoingUp => {
                lemma_tick_going_up(s, e);
            },
            _ => {
                let el2 = s2.elevators[e];
                assert(el2.cur_workers == el.cur_workers);
                if el.state == ElevatorState::FloorOpen && el.cur_workers.len() > 0 {
                    assert(s.workers[el.cur_workers[0] as int].target_floor > el.cur_floor);
                }
                assert(s2 == with_elevator(s, e, el2));
                lemma_same_riders(s, e, el2);
                assert forall|f: int| 0 <= f < s2.elevators.len() implies car_ok(#[trigger] s2.elevators[f], s2.workers) by {
                    if f != e {
                        assert(car_ok(s.elevators[f], s.workers));
                    }
                }
            },
        }
    }
}

/// Boarding in the lobby keeps the invariant.
proof fn lemma_tick_board(s: SimulationView, e: int)
    requires
        wf(s),
        0 <= e < s.elevators.len(),
        s.elevators[e].time_left > 0,
        s.elevators[e].state == ElevatorState::GroundFill,
    ensures
        wf(elevator_tick(s, e)),
        elevator_tick(s, e).elevators.len() == s.elevators.len(),
        elevator_tick(s, e).cur_time == s.cur_time,
        elevator_tick(s, e).plan == s.plan,
        elevator_tick(s, e).workers.len() == s.workers.len(),
        same_people(s.workers, elevator_tick(s, e).workers),
{
    let el = s.elevators[e];
    assert(car_ok(el, s.workers));
    let space = ELEVATOR_CAPACITY - el.cur_workers.len();
    let (b, r) = board(s.waiting, s.workers, e, space);
    lemma_board(s.waiting, s.workers, e, space);
    let s2 = elevator_tick(s, e);
    let riders = el.cur_workers + b;
    assert(s2.elevators[e].cur_workers == riders);
    assert(s2.waiting == r);
    assert forall|x: usize| riders.contains(x) <==> (el.cur_workers.contains(x) || b.contains(x)) by {
        if riders.contains(x) {
            let k = choose|k: int| 0 <= k < riders.len() && riders[k] == x;
            if k >= el.cur_workers.len() {
                assert(b[k - el.cur_workers.len()] == x);
            }
        }
        if b.contains(x) {
            let k = choose|k: int| 0 <= k < b.len() && b[k] == x;
            assert(riders[k + el.cur_workers.len()] == x);
        }
        if el.cur_workers.contains(x) {
            let k = choose|k: int| 0 <= k < el.cur_workers.len() && el.cur_workers[k] == x;
            assert(riders[k] == x);
        }
    }
    // who is where
    assert forall|f: int, i: usize| 0 <= f < s.elevators.len() && f != e implies riding(s2, f, i) == riding(s, f, i) by {}
    assert forall|i: usize| riding(s2, e, i) == (riding(s, e, i) || b.contains(i)) by {}
    assert forall|i: usize| placed(s2, i) == placed(s, i) by {
        if placed(s2, i) {
            if s2.waiting.contains(i) {
            } else {
                let f = choose|f: int| 0 <= f < s2.elevators.len() && #[trigger] riding(s2, f, i);
                if f != e {
                    assert(riding(s, f, i));
                } else if riding(s, e, i) {
                } else {
                    assert(s.waiting.contains(i));
                }
            }
        }
        if placed(s, i) {
            if s.waiting.contains(i) {
                if b.contains(i) {
                    assert(riding(s2, e, i));
                }
            } else {
                let f = choose|f: int| 0 <= f < s.elevators.len() && #[trigger] riding(s, f, i);
                assert(riding(s2, f, i));
            }
        }
    }
    // the car
    assert(riders.len() <= ELEVATOR_CAPACITY);
    assert forall|p: int, q: int| 0 <= p < q < riders.len() implies riders[p] != riders[q] by {
        if p < el.cur_workers.len() && q >= el.cur_workers.len() {
            assert(b.contains(riders[q]));
            assert(riding(s, e, riders[p]));
        } else if p >= el.cur_workers.len() {
            assert(riders[p] == b[p - el.cur_workers.len()]);
            assert(riders[q] == b[q - el.cur_workers.len()]);
        }
    }
    assert forall|k: int| 0 <= k < riders.len() implies (#[trigger] riders[k]) < s.workers.len()
        && s.workers[riders[k] as int].target_floor > 0 by {
        if k >= el.cur_workers.len() {
            assert(b.contains(riders[k]));
            assert(s.waiting.contains(riders[k]));
            let j = choose|j: int| 0 <= j < s.waiting.len() && s.waiting[j] == riders[k];
            assert(s.waiting[j] < s.workers.len());
        }
        assert(s.workers[riders[k] as int].target_floor >= 1);
    }
    assert(car_ok(s2.elevators[e], s2.workers));
    assert forall|f: int| 0 <= f < s2.elevators.len() implies car_ok(#[trigger] s2.elevators[f], s2.workers) by {
        if f != e {
            assert(car_ok(s.elevators[f], s.workers));
        }
    }
    // the people
    assert forall|k: int| 0 <= k < r.len() implies #[trigger] r[k] < s.workers.len() by {
        assert(r.contains(r[k]));
        let j = choose|j: int| 0 <= j < s.waiting.len() && s.waiting[j] == r[k];
    }
    assert forall|e1: int, e2: int, i: usize|
        0 <= e1 < s.elevators.len() && 0 <= e2 < s.elevators.len() && e1 != e2 implies !(
        #[trigger] riding(s2, e1, i) && #[trigger] riding(s2, e2, i)) by {
        if e1 == e && riding(s2, e1, i) && !riding(s, e1, i) {
            assert(s.waiting.contains(i));
            assert(!riding(s, e2, i));
        }
        if e2 == e && riding(s2, e2, i) && !riding(s, e2, i) {
            assert(s.waiting.contains(i));
            assert(!riding(s, e1, i));
        }
    }
    assert forall|f: int, i: usize| 0 <= f < s.elevators.len() implies !(#[trigger] riding(s2, f, i) && s2.waiting.contains(i)) by {
        if riding(s2, f, i) && s2.waiting.contains(i) {
            assert(s.waiting.contains(i));
            if f == e && !riding(s, e, i) {
                assert(b.contains(i));
            }
        }
    }
    assert(people_ok(s2));
}

/// A car moving up a floor, with its riders for that floor getting off, keeps the invariant.
proof fn lemma_tick_going_up(s: SimulationView, e: int)
    requires
        wf(s),
        0 <= e < s.elevators.len(),
        s.elevators[e].time_left <= 0,
        s.elevators[e].state == ElevatorState::GoingUp,
    ensures
        wf(elevator_tick(s, e)),
        elevator_tick(s, e).elevators.len() == s.elevators.len(),
        elevator_tick(s, e).cur_time == s.cur_time,
        elevator_tick(s, e).plan == s.plan,
        elevator_tick(s, e).workers.len() == s.workers.len(),
        same_people(s.workers, elevator_tick(s, e).workers),
{
    let el = s.elevators[e];
    assert(car_ok(el, s.workers));
    let floor = el.cur_floor + 1;
    let (off, stay) = alight(el.cur_workers, s.workers, floor);
    lemma_alight(el.cur_workers, s.workers, floor);
    let s2 = elevator_tick(s, e);
    let ws2 = s2.workers;
    assert(s.workers[el.cur_workers[0] as int].target_floor > el.cur_floor);
    assert(floor <= i32::MAX);
    assert(s2.elevators[e].cur_workers == stay);
    assert(s2.elevators[e].cur_floor == floor);
    // riders who get off were riding, so were placed and had not clocked in
    assert forall|k: int| 0 <= k < off.len() implies off[k] < s.workers.len()
        && !is_clocked_in(#[trigger] s.workers[off[k] as int]) by {
        assert(off.contains(off[k]));
        assert(el.cur_workers.contains(off[k]));
        let j = choose|j: int| 0 <= j < el.cur_workers.len() && el.cur_workers[j] == off[k];
        assert(riding(s, e, off[k]));
        assert(placed(s, off[k]));
    }
    if off.len() > 0 {
        lemma_clock_in_all_count(s.workers, off, s.cur_time);
    }
    lemma_num_clocked_in_bound(ws2);
    lemma_max_target(s.workers);
    lemma_max_target_same(s.workers, ws2);
    assert(floor <= s.workers[el.cur_workers[0] as int].target_floor);
    assert forall|i: int| 0 <= i < s.workers.len() implies ws2[i].target_floor == s.workers[i].target_floor
        && ws2[i].arrival_time == s.workers[i].arrival_time by {}
    // who is where
    assert forall|f: int, i: usize| 0 <= f < s.elevators.len() && f != e implies riding(s2, f, i) == riding(s, f, i) by {}
    assert forall|i: usize| riding(s2, e, i) implies riding(s, e, i) by {}
    assert forall|i: usize| placed(s2, i) implies placed(s, i) by {
        if in_car(s2, i) {
            let f = choose|f: int| 0 <= f < s2.elevators.len() && #[trigger] riding(s2, f, i);
            assert(riding(s, f, i));
        }
    }
    assert forall|i: usize| placed(s, i) && !off.contains(i) implies placed(s2, i) by {
        if placed(s, i) && !off.contains(i) && !s.waiting.contains(i) {
            let f = choose|f: int| 0 <= f < s.elevators.len() && #[trigger] riding(s, f, i);
            assert(riding(s2, f, i));
        }
    }
    assert forall|i: usize| off.contains(i) implies !placed(s2, i) by {
        if off.contains(i) {
            assert(riding(s, e, i));
            assert(!stay.contains(i));
            assert(!s.waiting.contains(i));
            if in_car(s2, i) {
                let f = choose|f: int| 0 <= f < s2.elevators.len() && #[trigger] riding(s2, f, i);
                assert(riding(s, f, i));
            }
        }
    }
    assert forall|i: int| 0 <= i < s.workers.len() implies is_clocked_in(#[trigger] ws2[i]) == (is_clocked_in(s.workers[i]) || (off.len() > 0 && off.contains(i as usize))) by {}
    // the car
    assert forall|k: int| 0 <= k < stay.len() implies (#[trigger] stay[k]) < ws2.len()
        && ws2[stay[k] as int].target_floor > floor by {
        assert(stay.contains(stay[k]));
        let j = choose|j: int| 0 <= j < el.cur_workers.len() && el.cur_workers[j] == stay[k];
    }
    if !any_above(stay, s.workers, floor) && stay.len() > 0 {
        assert(ws2[stay[0] as int].target_floor > floor);
    }
    if off.len() > 0 {
        assert(s2.workers == clock_in_all(s.workers, off, s.cur_time));
    } else {
        assert(ws2 == s.workers);
        assert(stay == el.cur_workers);
    }
    assert(car_ok(s2.elevators[e], ws2));
    assert forall|f: int| 0 <= f < s2.elevators.len() implies car_ok(#[trigger] s2.elevators[f], ws2) by {
        if f != e {
            let c = s.elevators[f];
            assert(car_ok(c, s.workers));
            assert forall|k: int| 0 <= k < c.cur_workers.len() implies (#[trigger] c.cur_workers[k]) < ws2.len()
                && ws2[c.cur_workers[k] as int].target_floor > c.cur_floor by {}
        }
    }
    // the people
    assert forall|e1: int, e2: int, i: usize|
        0 <= e1 < s.elevators.len() && 0 <= e2 < s.elevators.len() && e1 != e2 implies !(
        #[trigger] riding(s2, e1, i) && #[trigger] riding(s2, e2, i)) by {
        if riding(s2, e1, i) && riding(s2, e2, i) {
            assert(riding(s, e1, i) && riding(s, e2, i));
        }
    }
    assert forall|f: int, i: usize| 0 <= f < s.elevators.len() implies !(#[trigger] riding(s2, f, i) && s2.waiting.contains(i)) by {
        if riding(s2, f, i) {
            assert(riding(s, f, i));
        }
    }
    assert forall|i: usize| i < ws2.len() && #[trigger] placed(s2, i) implies !is_clocked_in(ws2[i as int]) by {
        assert(placed(s, i));
    }
    assert forall|i: usize| i < ws2.len() implies ((#[trigger] placed(s2, i) || is_clocked_in(ws2[i as int]))
        <==> ws2[i as int].arrival_time <= s2.cur_time) by {
        assert(placed(s, i) || is_clocked_in(s.workers[i as int]) <==> s.workers[i as int].arrival_time <= s.cur_time);
        if off.contains(i) {
            assert(el.cur_workers.contains(i));
            assert(riding(s, e, i));
            assert(placed(s, i));
        }
    }
    assert forall|i: int| 0 <= i < ws2.len() && is_clocked_in(#[trigger] ws2[i]) implies ws2[i].arrival_time
        <= ws2[i].clock_in_time.unwrap() <= s2.cur_time by {
        if off.len() > 0 && off.contains(i as usize) {
            assert(placed(s, i as usize));
            assert(clocked(s.workers[i], s.cur_time).clock_in_time.unwrap() == s.cur_time);
        }
    }
    assert(sorted_by_arrival(ws2));
    assert(people_ok(s2));
}

/// Elevators `0 .. k` each taking their second keep the invariant.
pub proof fn lemma_tick_elevators_wf(s: SimulationView, k: nat)
    requires
        wf(s),
        k <= s.elevators.len(),
    ensures
        wf(tick_elevators(s, k)),
        tick_elevators(s, k).elevators.len() == s.elevators.len(),
        tick_elevators(s, k).cur_time == s.cur_time,
        tick_elevators(s, k).plan == s.plan,
        tick_elevators(s, k).workers.len() == s.workers.len(),
        same_people(s.workers, tick_elevators(s, k).workers),
    decreases k,
{
    if k > 0 {
        lemma_tick_elevators_wf(s, (k - 1) as nat);
        lemma_tick_wf(tick_elevators(s, (k - 1) as nat), k - 1);
    }
}


/// The clock advancing a second and the workers arriving then joining the line keep
/// the invariant.
pub proof fn lemma_arrive_wf(s: SimulationView)
    requires
        wf(s),
        s.cur_time < isize::MAX,
    ensures
        wf(arrive(SimulationView { cur_time: s.cur_time + 1, ..s })),
{
    let s1 = SimulationView { cur_time: s.cur_time + 1, ..s };
    let s2 = arrive(s1);
    let t = s.cur_time + 1;
    let a = arrivals_from(s.workers, 0, t);
    lemma_arrivals(s.workers, 0, t);
    assert(s2.waiting == s.waiting + a);
    assert forall|x: usize| s2.waiting.contains(x) <==> (s.waiting.contains(x) || a.contains(x)) by {
        if s2.waiting.contains(x) {
            let k = choose|k: int| 0 <= k < s2.waiting.len() && s2.waiting[k] == x;
            if k >= s.waiting.len() {
                assert(a[k - s.waiting.len()] == x);
            }
        }
        if a.contains(x) {
            let k = choose|k: int| 0 <= k < a.len() && a[k] == x;
            assert(s2.waiting[k + s.waiting.len()] == x);
        }
        if s.waiting.contains(x) {
            let k = choose|k: int| 0 <= k < s.waiting.len() && s.waiting[k] == x;
            assert(s2.waiting[k] == x);
        }
    }
    assert forall|f: int, i: usize| 0 <= f < s.elevators.len() implies riding(s2, f, i) == riding(s, f, i) by {}
    assert forall|i: usize| in_car(s2, i) == in_car(s, i) by {
        if in_car(s2, i) {
            let f = choose|f: int| 0 <= f < s2.elevators.len() && #[trigger] riding(s2, f, i);
            assert(riding(s, f, i));
        }
        if in_car(s, i) {
            let f = choose|f: int| 0 <= f < s.elevators.len() && #[trigger] riding(s, f, i);
            assert(riding(s2, f, i));
        }
    }
    assert forall|i: usize| a.contains(i) implies !placed(s, i) && !is_clocked_in(s.workers[i as int]) by {}
    assert forall|i: usize| placed(s2, i) == (placed(s, i) || a.contains(i)) by {}
    assert forall|k: int| 0 <= k < s2.waiting.len() implies #[trigger] s2.waiting[k] < s2.workers.len() by {
        if k >= s.waiting.len() {
            assert(a.contains(a[k - s.waiting.len()]));
        }
    }
    assert forall|p: int, q: int| 0 <= p < q < s2.waiting.len() implies s2.waiting[p] != s2.waiting[q] by {
        if p < s.waiting.len() && q >= s.waiting.len() {
            assert(a.contains(s2.waiting[q]));
            assert(s.waiting.contains(s2.waiting[p]));
        } else if p >= s.waiting.len() {
            assert(s2.waiting[p] == a[p - s.waiting.len()]);
            assert(s2.waiting[q] == a[q - s.waiting.len()]);
        }
    }
    assert forall|f: int, i: usize| 0 <= f < s.elevators.len() implies !(#[trigger] riding(s2, f, i) && s2.waiting.contains(i)) by {
        if riding(s2, f, i) && a.contains(i) {
            assert(in_car(s, i));
        }
    }
    assert forall|i: usize| i < s2.workers.len() implies ((#[trigger] placed(s2, i) || is_clocked_in(s2.workers[i as int]))
        <==> s2.workers[i as int].arrival_time <= s2.cur_time) by {
        assert(placed(s, i) || is_clocked_in(s.workers[i as int]) <==> s.workers[i as int].arrival_time <= s.cur_time);
    }
    assert forall|e1: int, e2: int, i: usize|
        0 <= e1 < s.elevators.len() && 0 <= e2 < s.elevators.len() && e1 != e2 implies !(
        #[trigger] riding(s2, e1, i) && #[trigger] riding(s2, e2, i)) by {
        assert(!(riding(s, e1, i) && riding(s, e2, i)));
    }
    assert forall|e: int| 0 <= e < s2.elevators.len() implies car_ok(#[trigger] s2.elevators[e], s2.workers) by {
        assert(car_ok(s.elevators[e], s.workers));
    }
    assert(people_ok(s2));
}

/// One second of the simulation keeps the invariant.
pub proof fn lemma_next_wf(s: SimulationView)
    requires
        wf(s),
        s.cur_time < isize::MAX,
    ensures
        wf(next_state(s)),
        next_state(s).cur_time == s.cur_time + 1,
        next_state(s).elevators.len() == s.elevators.len(),
        next_state(s).plan == s.plan,
        next_state(s).workers.len() == s.workers.len(),
        same_people(s.workers, next_state(s).workers),
{
    let s2 = arrive(SimulationView { cur_time: s.cur_time + 1, ..s });
    lemma_arrive_wf(s);
    lemma_tick_elevators_wf(s2, s.elevators.len());
}

/// Any number of seconds of the simulation keep the invariant, as long as the clock
/// does not overflow.
pub proof fn lemma_run_wf(s: SimulationView, n: nat)
    requires
        wf(s),
        s.cur_time + n <= isize::MAX,
    ensures
        wf(run_steps(s, n)),
        run_steps(s, n).cur_time == s.cur_time + n,
        run_steps(s, n).elevators.len() == s.elevators.len(),
        run_steps(s, n).plan == s.plan,
        run_steps(s, n).workers.len() == s.workers.len(),
        same_people(s.workers, run_steps(s, n).workers),
    decreases n,
{
    if n > 0 {
        lemma_next_wf(s);
        lemma_run_wf(next_state(s), (n - 1) as nat);
    }
}


/// Binding workers to elevators changes nothing but their bindings.
pub proof fn lemma_assign_keeps(ws: Seq<Worker>, plan: Seq<Seq<usize>>, i: nat)
    ensures
        assign_from(ws, plan, i).len() == ws.len(),
        forall|j: int| 0 <= j < ws.len() ==> {
            let w = #[trigger] assign_from(ws, plan, i)[j];
            &&& w.arrival_time == ws[j].arrival_time
            &&& w.target_floor == ws[j].target_floor
            &&& w.clock_in_time == ws[j].clock_in_time
        },
    decreases ws.len() - i,
{
    if i < ws.len() {
        let (plan2, slot) = crate::hyper_simulation::take_floor_seat(plan, ws[i as int].target_floor as int);
        let ws2 = match slot {
            Some(j) => ws.update(i as int, Worker { elevator_assignment: Some(j), ..ws[i as int] }),
            None => ws,
        };
        lemma_assign_keeps(ws2, plan2, i + 1);
    }
}

/// No worker clocked in means a count of zero.
pub proof fn lemma_num_clocked_in_none(ws: Seq<Worker>)
    requires
        forall|i: int| 0 <= i < ws.len() ==> !is_clocked_in(#[trigger] ws[i]),
    ensures
        num_clocked_in(ws) == 0,
    decreases ws.len(),
{
    if ws.len() > 0 {
        let d = ws.drop_last();
        assert forall|i: int| 0 <= i < d.len() implies !is_clocked_in(#[trigger] d[i]) by {
            assert(d[i] == ws[i]);
        }
        lemma_num_clocked_in_none(d);
    }
}

/// A fresh simulation (no worker clocked in, none counted, every worker bound for a
/// floor above the lobby) satisfies the invariant once initialized.
pub proof fn lemma_initialized_wf(s: SimulationView)
    requires
        s.workers.len() <= usize::MAX,
        s.clocked_in == 0,
        forall|i: int| 0 <= i < s.workers.len() ==> !is_clocked_in(#[trigger] s.workers[i]),
        forall|i: int| 0 <= i < s.workers.len() ==> #[trigger] s.workers[i].target_floor >= 1,
    ensures
        wf(initialized(s)),
{
    let s2 = initialized(s);
    let sorted = sort_by_arrival(s.workers);
    crate::sort::lemma_sort_by_arrival(s.workers);
    let ws = s2.workers;
    assert forall|i: int| 0 <= i < sorted.len() implies !is_clocked_in(#[trigger] sorted[i])
        && sorted[i].target_floor >= 1 by {
        assert(sorted.contains(sorted[i]));
        assert(s.workers.contains(sorted[i]));
        let k = choose|k: int| 0 <= k < s.workers.len() && s.workers[k] == sorted[i];
        assert(!is_clocked_in(s.workers[k]));
        assert(s.workers[k].target_floor >= 1);
    }
    match s.plan {
        Some(p) => {
            lemma_assign_keeps(sorted, p, 0);
        },
        None => {},
    }
    assert forall|i: int| 0 <= i < ws.len() implies !is_clocked_in(#[trigger] ws[i]) && ws[i].target_floor >= 1
        && ws[i].arrival_time == sorted[i].arrival_time by {}
    lemma_num_clocked_in_none(ws);
    assert(sorted_by_arrival(ws));
    lemma_initial_waiting(ws, 0);
    assert forall|e: int, i: usize| 0 <= e < s2.elevators.len() implies !riding(s2, e, i) by {
        assert(s2.elevators[e] == fresh_elevator());
    }
    assert forall|i: usize| !in_car(s2, i) by {}
    assert forall|k: int| 0 <= k < s2.waiting.len() implies #[trigger] s2.waiting[k] < s2.workers.len() by {
        assert(s2.waiting.contains(s2.waiting[k]));
    }
    assert forall|e: int| 0 <= e < s2.elevators.len() implies car_ok(#[trigger] s2.elevators[e], s2.workers) by {
        assert(s2.elevators[e] == fresh_elevator());
    }
    assert(people_ok(s2));
}


/// Under the invariant, one second of car `e` leaves every clock-in time already set as it was.
proof fn lemma_tick_keeps_clocks(s: SimulationView, e: int)
    requires
        wf(s),
        0 <= e < s.elevators.len(),
    ensures
        forall|i: int| 0 <= i < s.workers.len() && is_clocked_in(s.workers[i])
            ==> (#[trigger] elevator_tick(s, e).workers[i]).clock_in_time == s.workers[i].clock_in_time,
        elevator_tick(s, e).clocked_in >= s.clocked_in,
{
    let el = s.elevators[e];
    if el.time_left <= 0 && el.state == ElevatorState::GoingUp {
        let floor = el.cur_floor + 1;
        lemma_alight(el.cur_workers, s.workers, floor);
        let (off, stay) = alight(el.cur_workers, s.workers, floor);
        assert forall|i: int| 0 <= i < s.workers.len() && is_clocked_in(s.workers[i])
            implies (#[trigger] elevator_tick(s, e).workers[i]).clock_in_time == s.workers[i].clock_in_time by {
            if off.contains(i as usize) {
                assert(el.cur_workers.contains(i as usize));
                assert(riding(s, e, i as usize));
                assert(placed(s, i as usize));
            }
        }
    }
}

/// Under the invariant, cars `0 .. k` taking their second leave every clock-in time
/// already set as it was.
proof fn lemma_ticks_keep_clocks(s: SimulationView, k: nat)
    requires
        wf(s),
        k <= s.elevators.len(),
    ensures
        forall|i: int| 0 <= i < s.workers.len() && is_clocked_in(s.workers[i])
            ==> (#[trigger] tick_elevators(s, k).workers[i]).clock_in_time == s.workers[i].clock_in_time,
        tick_elevators(s, k).clocked_in >= s.clocked_in,
    decreases k,
{
    if k > 0 {
        lemma_ticks_keep_clocks(s, (k - 1) as nat);
        lemma_tick_elevators_wf(s, (k - 1) as nat);
        let p = tick_elevators(s, (k - 1) as nat);
        lemma_tick_keeps_clocks(p, k - 1);
        assert forall|i: int| 0 <= i < s.workers.len() && is_clocked_in(s.workers[i])
            implies (#[trigger] tick_elevators(s, k).workers[i]).clock_in_time == s.workers[i].clock_in_time by {
            assert(p.workers[i].clock_in_time == s.workers[i].clock_in_time);
        }
    }
}

/// A clock-in time, once set, never changes, and the count of clocked-in workers
/// never falls, however many seconds the simulation runs.
pub proof fn lemma_clock_in_stable(s: SimulationView, n: nat)
    requires
        wf(s),
        s.cur_time + n <= isize::MAX,
    ensures
        run_steps(s, n).clocked_in >= s.clocked_in,
        forall|i: int| 0 <= i < s.workers.len() && is_clocked_in(s.workers[i])
            ==> (#[trigger] run_steps(s, n).workers[i]).clock_in_time == s.workers[i].clock_in_time,
    decreases n,
{
    if n > 0 {
        let a = arrive(SimulationView { cur_time: s.cur_time + 1, ..s });
        lemma_arrive_wf(s);
        lemma_ticks_keep_clocks(a, s.elevators.len());
        lemma_next_wf(s);
        let nx = next_state(s);
        lemma_clock_in_stable(nx, (n - 1) as nat);
        assert forall|i: int| 0 <= i < s.workers.len() && is_clocked_in(s.workers[i])
            implies (#[trigger] run_steps(s, n).workers[i]).clock_in_time == s.workers[i].clock_in_time by {
            assert(nx.workers[i].clock_in_time == s.workers[i].clock_in_time);
        }
    }
}


/// In every state reached from a fresh simulation (nobody clocked in or counted, every
/// worker bound above the lobby) by `initialize` and any number of seconds, one more
/// second never lowers the clocked-in count, leaves it equal to the number of workers
/// clocked in, and changes no clock-in time already set.
pub proof fn lemma_reached_clock_law(s: SimulationView, n: nat)
    requires
        s.workers.len() <= usize::MAX,
        s.clocked_in == 0,
        forall|i: int| 0 <= i < s.workers.len() ==> !is_clocked_in(#[trigger] s.workers[i]),
        forall|i: int| 0 <= i < s.workers.len() ==> #[trigger] s.workers[i].target_floor >= 1,
        n + 1 <= isize::MAX,
    ensures
        ({
            let r = run_steps(initialized(s), n);
            let r2 = next_state(r);
            &&& r2.clocked_in >= r.clocked_in
            &&& r2.clocked_in == num_clocked_in(r2.workers)
            &&& forall|i: int| 0 <= i < r.workers.len() && is_clocked_in(r.workers[i])
                ==> (#[trigger] r2.workers[i]).clock_in_time == r.workers[i].clock_in_time
        }),
{
    let s0 = initialized(s);
    lemma_initialized_wf(s);
    lemma_run_wf(s0, n);
    let r = run_steps(s0, n);
    lemma_next_wf(r);
    lemma_clock_in_stable(r, 1);
    assert(run_steps(r, 1) == next_state(r)) by {
        reveal_with_fuel(run_steps, 2);
    }
}

} // verus!
