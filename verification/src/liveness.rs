//! Every simulation that starts well finishes: each worker eventually clocks in.
//!
//! The proof gives each state a potential that every second strictly lowers:
//! the spare places of the cars plus twice the workers yet to clock in (which no
//! second raises, and boarding or clocking in lowers), weighed above the time left
//! until the last arrival and each car's time until it next lets someone off or
//! is back in the lobby.
use vstd::prelude::*;
use crate::config::{ELEVATOR_CAPACITY, ELEVATOR_GROUND_FILL_TIME, ELEVATOR_TRAVEL_TIME};
use crate::elevator::{ElevatorState, ElevatorView};
use crate::invariants::{
    car_ok, in_car, lemma_arrive_wf, lemma_initialized_wf, lemma_run_wf, lemma_next_wf, lemma_tick_elevators_wf, placed, riding, same_people, wf,
};
use crate::lemmas::{lemma_alight, lemma_board};
use crate::rules::{
    alight, arrive, board, elevator_tick, finished, initialized, next_state, run_steps, tick_elevators,
    SimulationView,
};
use crate::lemmas::{lemma_max_target, lemma_max_target_same, lemma_num_clocked_in_all, lemma_num_clocked_in_bound};
use crate::worker::is_clocked_in;
use crate::worker::{max_target, may_board, Worker};

verus! {

/// Seconds for a car to climb or descend one floor: the travel time, then the move.
pub open spec fn floor_time() -> int {
    ELEVATOR_TRAVEL_TIME + 1
}

/// Whether some waiting worker may board car `e`.
pub open spec fn eligible_waiting(waiting: Seq<usize>, workers: Seq<Worker>, e: int) -> bool {
    exists|k: int| 0 <= k < waiting.len() && may_board(workers[waiting[k] as int], e)
}

/// The lowest floor any rider is bound for.
pub open spec fn min_target(riders: Seq<usize>, workers: Seq<Worker>) -> int
    decreases riders.len(),
{
    if riders.len() == 0 {
        0
    } else if riders.len() == 1 {
        workers[riders[0] as int].target_floor as int
    } else {
        let rest = min_target(riders.drop_first(), workers);
        let here = workers[riders[0] as int].target_floor as int;
        if here <= rest {
            here
        } else {
            rest
        }
    }
}

/// A car's time until it next lets someone off (if it carries riders) or until it is
/// back in the lobby (if it is empty); an empty car in the lobby counts one when its
/// timer is out and someone is waiting for it, else nothing.
pub open spec fn car_potential(c: ElevatorView, workers: Seq<Worker>, waiting: Seq<usize>, e: int) -> int {
    if c.cur_workers.len() > 0 {
        let m = min_target(c.cur_workers, workers);
        match c.state {
            ElevatorState::GroundFill => c.time_left + 1 + floor_time() * m,
            ElevatorState::GoingUp => c.time_left + 1 + floor_time() * (m - c.cur_floor - 1),
            ElevatorState::FloorOpen => c.time_left + 1 + floor_time() * (m - c.cur_floor),
            ElevatorState::GoingDown => 0,
        }
    } else {
        match c.state {
            ElevatorState::GroundFill => if c.time_left == 0 && eligible_waiting(waiting, workers, e) {
                1
            } else {
                0
            },
            ElevatorState::GoingUp => 0,
            ElevatorState::FloorOpen => c.time_left + 1 + floor_time() * c.cur_floor,
            ElevatorState::GoingDown => c.time_left + 1 + floor_time() * (c.cur_floor - 1),
        }
    }
}

/// An empty car in the lobby.
pub open spec fn idle_in_lobby(c: ElevatorView) -> bool {
    c.cur_workers.len() == 0 && c.state == ElevatorState::GroundFill
}

/// What a second that lets nobody board or get off does to car `e`: an idle car stays
/// worth nothing (and, with time left, had nobody to take), any other car's potential drops.
pub open spec fn quiet_car_step(c: ElevatorView, c2: ElevatorView, workers: Seq<Worker>, waiting: Seq<usize>, e: int) -> bool {
    if idle_in_lobby(c) {
        &&& car_potential(c2, workers, waiting, e) == 0
        &&& c.time_left > 0 ==> !eligible_waiting(waiting, workers, e)
    } else {
        car_potential(c2, workers, waiting, e) < car_potential(c, workers, waiting, e)
    }
}

/// The lowest target is one of the riders' targets and no higher than any of them.
pub proof fn lemma_min_target(riders: Seq<usize>, workers: Seq<Worker>)
    requires
        riders.len() > 0,
    ensures
        forall|k: int| 0 <= k < riders.len() ==> min_target(riders, workers) <= workers[#[trigger] riders[k] as int].target_floor,
        exists|k: int| 0 <= k < riders.len() && min_target(riders, workers) == workers[#[trigger] riders[k] as int].target_floor,
    decreases riders.len(),
{
    if riders.len() > 1 {
        let rest = riders.drop_first();
        lemma_min_target(rest, workers);
        assert forall|k: int| 0 <= k < riders.len() implies min_target(riders, workers) <= workers[#[trigger] riders[k] as int].target_floor by {
            if k > 0 {
                assert(riders[k] == rest[k - 1]);
            }
        }
        let k = choose|k: int| 0 <= k < rest.len() && min_target(rest, workers) == workers[#[trigger] rest[k] as int].target_floor;
        assert(rest[k] == riders[k + 1]);
        if min_target(riders, workers) == workers[riders[0] as int].target_floor {
        } else {
            assert(min_target(riders, workers) == workers[riders[k + 1] as int].target_floor);
        }
    } else {
        assert(min_target(riders, workers) == workers[riders[0] as int].target_floor);
    }
}

/// Places left in car `c`.
pub open spec fn spare(c: ElevatorView) -> int {
    ELEVATOR_CAPACITY - c.cur_workers.len()
}

/// One second of car `e` lowers the spare places plus twice the workers left by the
/// number who board or get off, and a second in which nobody does is quiet for the car.
pub proof fn lemma_car_tick(t: SimulationView, e: int)
    requires
        wf(t),
        0 <= e < t.elevators.len(),
    ensures
        ({
            let t2 = elevator_tick(t, e);
            let c = t.elevators[e];
            let c2 = t2.elevators[e];
            &&& forall|f: int| 0 <= f < t.elevators.len() && f != e ==> t2.elevators[f] == t.elevators[f]
            &&& t2.elevators.len() == t.elevators.len()
            &&& spare(c2) + 2 * (t.workers.len() - t2.clocked_in) <= spare(c) + 2 * (t.workers.len() - t.clocked_in)
            &&& spare(c2) + 2 * (t.workers.len() - t2.clocked_in) == spare(c) + 2 * (t.workers.len() - t.clocked_in) ==> {
                &&& t2.waiting == t.waiting
                &&& t2.workers == t.workers
                &&& t2.clocked_in == t.clocked_in
                &&& quiet_car_step(c, c2, t.workers, t.waiting, e)
            }
        }),
{
    let t2 = elevator_tick(t, e);
    let c = t.elevators[e];
    let c2 = t2.elevators[e];
    let ws = t.workers;
    assert(car_ok(c, ws));
    if c.cur_workers.len() > 0 {
        lemma_min_target(c.cur_workers, ws);
    }
    if c.time_left > 0 {
        if c.state == ElevatorState::GroundFill {
            let space = ELEVATOR_CAPACITY - c.cur_workers.len();
            lemma_board(t.waiting, ws, e, space);
            let (b, r) = board(t.waiting, ws, e, space);
            assert(c2.cur_workers == c.cur_workers + b);
            if b.len() == 0 {
                assert(c2.cur_workers =~= c.cur_workers);
                if c.cur_workers.len() > 0 {
                    assert(min_target(c2.cur_workers, ws) == min_target(c.cur_workers, ws));
                }
            }
        }
    } else {
        match c.state {
            ElevatorState::GoingUp => {
                let floor = c.cur_floor + 1;
                lemma_alight(c.cur_workers, ws, floor);
                let (off, stay) = alight(c.cur_workers, ws, floor);
                if off.len() == 0 {
                    assert(stay == c.cur_workers);
                    let m = min_target(c.cur_workers, ws);
                    let k = choose|k: int| 0 <= k < c.cur_workers.len() && m == ws[#[trigger] c.cur_workers[k] as int].target_floor;
                    assert(c.cur_workers[k] == stay[k]);
                    assert(m != floor);
                    assert(ws[c.cur_workers[k] as int].target_floor > c.cur_floor);
                    assert(ws[stay[0] as int].target_floor > floor) by {
                        assert(ws[c.cur_workers[0] as int].target_floor > c.cur_floor);
                        assert(ws[stay[0] as int].target_floor != floor);
                    }
                }
            },
            ElevatorState::FloorOpen => {
                if c.cur_workers.len() > 0 {
                    assert(ws[c.cur_workers[0] as int].target_floor > c.cur_floor);
                }
            },
            _ => {},
        }
    }
}


/// Spare places of cars `0 .. k`.
pub open spec fn spare_sum(cars: Seq<ElevatorView>, k: nat) -> int
    decreases k,
{
    if k == 0 {
        0
    } else {
        spare_sum(cars, (k - 1) as nat) + spare(cars[k - 1])
    }
}

/// How much is left to do: twice the workers yet to clock in, plus the spare places
/// of the cars. Boarding lowers it by the number who board, clocking in by the number
/// who clock in; nothing raises it.
pub open spec fn progress(s: SimulationView) -> int {
    2 * (s.workers.len() - s.clocked_in) + spare_sum(s.elevators, s.elevators.len())
}

/// Changing one car changes the spare places by the change in that car.
proof fn lemma_spare_sum_change(a: Seq<ElevatorView>, b: Seq<ElevatorView>, e: int, k: nat)
    requires
        k <= a.len(),
        a.len() == b.len(),
        forall|f: int| 0 <= f < a.len() && f != e ==> a[f] == b[f],
    ensures
        spare_sum(b, k) == spare_sum(a, k) + if 0 <= e < k { spare(b[e]) - spare(a[e]) } else { 0 },
    decreases k,
{
    if k > 0 {
        lemma_spare_sum_change(a, b, e, (k - 1) as nat);
    }
}

/// Cars `0 .. k` taking their second never raise what is left to do; if they leave it
/// as it was, nobody boarded or got off, and each of them took a quiet step.
pub proof fn lemma_ticks_quiet(t: SimulationView, k: nat)
    requires
        wf(t),
        k <= t.elevators.len(),
    ensures
        ({
            let tk = tick_elevators(t, k);
            &&& tk.elevators.len() == t.elevators.len()
            &&& progress(tk) <= progress(t)
            &&& forall|f: int| k <= f < t.elevators.len() ==> tk.elevators[f] == t.elevators[f]
            &&& progress(tk) == progress(t) ==> {
                &&& tk.waiting == t.waiting
                &&& tk.workers == t.workers
                &&& tk.clocked_in == t.clocked_in
                &&& forall|f: int| 0 <= f < k ==> quiet_car_step(t.elevators[f], #[trigger] tk.elevators[f], t.workers, t.waiting, f)
            }
        }),
    decreases k,
{
    if k > 0 {
        let k1 = (k - 1) as nat;
        lemma_ticks_quiet(t, k1);
        lemma_tick_elevators_wf(t, k1);
        let prev = tick_elevators(t, k1);
        let tk = tick_elevators(t, k);
        lemma_car_tick(prev, k - 1);
        lemma_tick_wf_len(prev, k - 1);
        lemma_spare_sum_change(prev.elevators, tk.elevators, k - 1, prev.elevators.len());
        assert(prev.workers.len() == t.workers.len());
        if progress(tk) == progress(t) {
            assert(progress(prev) == progress(t));
            assert forall|f: int| 0 <= f < k implies quiet_car_step(t.elevators[f], #[trigger] tk.elevators[f], t.workers, t.waiting, f) by {
                if f < k - 1 {
                    assert(tk.elevators[f] == prev.elevators[f]);
                }
            }
        }
    }
}

proof fn lemma_tick_wf_len(t: SimulationView, e: int)
    requires
        wf(t),
        0 <= e < t.elevators.len(),
    ensures
        elevator_tick(t, e).workers.len() == t.workers.len(),
        elevator_tick(t, e).elevators.len() == t.elevators.len(),
{
    crate::invariants::lemma_tick_wf(t, e);
}


/// The potentials of cars `0 .. k`.
pub open spec fn potential_sum(cars: Seq<ElevatorView>, workers: Seq<Worker>, waiting: Seq<usize>, k: nat) -> int
    decreases k,
{
    if k == 0 {
        0
    } else {
        potential_sum(cars, workers, waiting, (k - 1) as nat) + car_potential(cars[k - 1], workers, waiting, k - 1)
    }
}

/// Seconds until the last worker arrives.
pub open spec fn arrival_wait(s: SimulationView) -> int {
    if s.workers.len() > 0 && s.workers.last().arrival_time > s.cur_time {
        s.workers.last().arrival_time - s.cur_time
    } else {
        0
    }
}

/// The potential of a state: time until the last arrival plus the cars' potentials.
pub open spec fn potential(s: SimulationView) -> int {
    arrival_wait(s) + potential_sum(s.elevators, s.workers, s.waiting, s.elevators.len())
}

/// No car's potential exceeds this, for workers `workers`.
pub open spec fn car_bound(workers: Seq<Worker>) -> int {
    ELEVATOR_GROUND_FILL_TIME + 1 + floor_time() * max_target(workers)
}

/// No state's potential exceeds this; no second raises it.
pub open spec fn potential_cap(s: SimulationView) -> int {
    arrival_wait(s) + s.elevators.len() * car_bound(s.workers)
}

/// The measure that every second of an unfinished simulation strictly lowers; a run
/// therefore lasts at most this many seconds.
pub open spec fn measure(s: SimulationView) -> int {
    progress(s) * (potential_cap(s) + 1) + potential(s)
}

/// Every worker bound to an elevator is bound to one that exists.
pub open spec fn assignments_valid(s: SimulationView) -> bool {
    forall|i: int|
        0 <= i < s.workers.len() ==> match #[trigger] s.workers[i].elevator_assignment {
            Some(a) => a < s.elevators.len(),
            None => true,
        }
}

proof fn lemma_car_potential_bound(c: ElevatorView, workers: Seq<Worker>, waiting: Seq<usize>, e: int)
    requires
        car_ok(c, workers),
    ensures
        0 <= car_potential(c, workers, waiting, e) <= car_bound(workers),
{
    lemma_max_target(workers);
    if c.cur_workers.len() > 0 {
        lemma_min_target(c.cur_workers, workers);
        let k = choose|k: int| 0 <= k < c.cur_workers.len() && min_target(c.cur_workers, workers) == workers[#[trigger] c.cur_workers[k] as int].target_floor;
        assert(workers[c.cur_workers[k] as int].target_floor > c.cur_floor);
    }
}

proof fn lemma_potential_sum_bound(cars: Seq<ElevatorView>, workers: Seq<Worker>, waiting: Seq<usize>, k: nat)
    requires
        k <= cars.len(),
        forall|f: int| 0 <= f < cars.len() ==> car_ok(#[trigger] cars[f], workers),
    ensures
        0 <= potential_sum(cars, workers, waiting, k) <= k * car_bound(workers),
    decreases k,
{
    if k > 0 {
        lemma_potential_sum_bound(cars, workers, waiting, (k - 1) as nat);
        lemma_car_potential_bound(cars[k - 1], workers, waiting, k - 1);
        let cb = car_bound(workers);
        assert((k - 1) * cb + cb == k * cb) by (nonlinear_arith);
    }
}

proof fn lemma_spare_sum_bound(cars: Seq<ElevatorView>, k: nat)
    requires
        k <= cars.len(),
        forall|f: int| 0 <= f < cars.len() ==> (#[trigger] cars[f]).cur_workers.len() <= ELEVATOR_CAPACITY,
    ensures
        0 <= spare_sum(cars, k) <= k * ELEVATOR_CAPACITY,
    decreases k,
{
    if k > 0 {
        lemma_spare_sum_bound(cars, (k - 1) as nat);
    }
}

/// The parts of the measure are within their bounds in every state that satisfies the invariant.
pub proof fn lemma_measure_parts(s: SimulationView)
    requires
        wf(s),
    ensures
        0 <= spare_sum(s.elevators, s.elevators.len()),
        0 <= progress(s) <= 2 * s.workers.len() + s.elevators.len() * ELEVATOR_CAPACITY,
        0 <= potential(s) <= potential_cap(s),
        0 <= arrival_wait(s),
        0 <= measure(s),
{
    lemma_num_clocked_in_bound(s.workers);
    assert forall|f: int| 0 <= f < s.elevators.len() implies (#[trigger] s.elevators[f]).cur_workers.len() <= ELEVATOR_CAPACITY by {
        assert(car_ok(s.elevators[f], s.workers));
    }
    lemma_spare_sum_bound(s.elevators, s.elevators.len());
    lemma_potential_sum_bound(s.elevators, s.workers, s.waiting, s.elevators.len());
    let p = progress(s);
    let k = potential_cap(s);
    assert(p * (k + 1) >= 0) by (nonlinear_arith)
        requires
            p >= 0,
            k >= 0,
    ;
}

/// Pointwise lower car potentials give a lower sum; one strictly lower one, a strictly lower sum.
proof fn lemma_potential_sum_le(
    a: Seq<ElevatorView>,
    wa: Seq<usize>,
    b: Seq<ElevatorView>,
    wb: Seq<usize>,
    workers: Seq<Worker>,
    k: nat,
)
    requires
        forall|f: int| 0 <= f < k ==> car_potential(#[trigger] b[f], workers, wb, f) <= car_potential(a[f], workers, wa, f),
    ensures
        potential_sum(b, workers, wb, k) <= potential_sum(a, workers, wa, k),
        (exists|f: int| 0 <= f < k && car_potential(#[trigger] b[f], workers, wb, f) < car_potential(a[f], workers, wa, f))
            ==> potential_sum(b, workers, wb, k) < potential_sum(a, workers, wa, k),
    decreases k,
{
    if k > 0 {
        lemma_potential_sum_le(a, wa, b, wb, workers, (k - 1) as nat);
        if exists|f: int| 0 <= f < k && car_potential(#[trigger] b[f], workers, wb, f) < car_potential(a[f], workers, wa, f) {
            let f = choose|f: int| 0 <= f < k && car_potential(#[trigger] b[f], workers, wb, f) < car_potential(a[f], workers, wa, f);
            if f < k - 1 {
                assert(exists|g: int| 0 <= g < k - 1 && car_potential(#[trigger] b[g], workers, wb, g) < car_potential(a[g], workers, wa, g));
            }
        }
    }
}

/// One second of an unfinished simulation strictly lowers the measure.
pub proof fn lemma_measure_decreases(s: SimulationView)
    requires
        wf(s),
        assignments_valid(s),
        s.elevators.len() > 0,
        !finished(s),
        s.cur_time < isize::MAX,
    ensures
        wf(next_state(s)),
        assignments_valid(next_state(s)),
        next_state(s).elevators.len() == s.elevators.len(),
        next_state(s).cur_time == s.cur_time + 1,
        0 <= measure(next_state(s)) < measure(s),
{
    let n = s.elevators.len();
    let arr = arrive(SimulationView { cur_time: s.cur_time + 1, ..s });
    let nx = next_state(s);
    lemma_next_wf(s);
    lemma_arrive_wf(s);
    lemma_ticks_quiet(arr, n);
    assert(nx == tick_elevators(arr, n));
    assert(progress(arr) == progress(s));
    lemma_measure_parts(s);
    lemma_measure_parts(nx);
    let ws = s.workers;
    // the cap does not rise
    assert(same_people(ws, nx.workers));
    if ws.len() > 0 {
        assert(nx.workers.last().arrival_time == ws.last().arrival_time);
    }
    assert(arrival_wait(nx) <= arrival_wait(s));
    lemma_max_target_same(ws, nx.workers);
    assert(potential_cap(nx) <= potential_cap(s));
    let p = progress(s);
    let p2 = progress(nx);
    let k = potential_cap(s);
    let k2 = potential_cap(nx);
    if p2 < p {
        assert(p2 * (k2 + 1) <= (p - 1) * (k + 1)) by (nonlinear_arith)
            requires
                0 <= p2 <= p - 1,
                0 <= k2 <= k,
        ;
        assert((p - 1) * (k + 1) + k < p * (k + 1)) by (nonlinear_arith);
        assert(measure(nx) == p2 * (k2 + 1) + potential(nx));
        assert(potential(nx) <= k2);
        assert(measure(s) == p * (k + 1) + potential(s));
    } else {
        // a quiet second: nobody boarded or got off
        assert(nx.waiting == arr.waiting);
        assert(nx.workers == ws);
        assert(arr.elevators == s.elevators);
        assert forall|f: int| 0 <= f < n implies car_potential(#[trigger] nx.elevators[f], ws, nx.waiting, f)
            <= car_potential(s.elevators[f], ws, s.waiting, f) by {
            assert(quiet_car_step(s.elevators[f], nx.elevators[f], ws, arr.waiting, f));
            assert(car_ok(s.elevators[f], ws));
            lemma_car_potential_bound(s.elevators[f], ws, s.waiting, f);
        }
        lemma_potential_sum_le(s.elevators, s.waiting, nx.elevators, nx.waiting, ws, n);
        lemma_quiet_progress(s);
        assert(potential(nx) < potential(s));
        assert(p * (k2 + 1) <= p * (k + 1)) by (nonlinear_arith)
            requires
                0 <= p,
                k2 <= k,
        ;
        assert(measure(nx) == p * (k2 + 1) + potential(nx));
        assert(measure(s) == p * (k + 1) + potential(s));
    }
}

/// In a quiet second of an unfinished simulation, the time to the last arrival or
/// some car's potential drops.
proof fn lemma_quiet_progress(s: SimulationView)
    requires
        wf(s),
        assignments_valid(s),
        s.elevators.len() > 0,
        !finished(s),
        s.cur_time < isize::MAX,
        ({
            let n = s.elevators.len();
            let arr = arrive(SimulationView { cur_time: s.cur_time + 1, ..s });
            let nx = next_state(s);
            &&& nx.waiting == arr.waiting
            &&& nx.workers == s.workers
            &&& arrival_wait(nx) <= arrival_wait(s)
            &&& forall|f: int| 0 <= f < n ==> quiet_car_step(s.elevators[f], #[trigger] nx.elevators[f], s.workers, arr.waiting, f)
        }),
    ensures
        ({
            let nx = next_state(s);
            ||| arrival_wait(nx) < arrival_wait(s)
            ||| exists|f: int| 0 <= f < s.elevators.len()
                && car_potential(#[trigger] nx.elevators[f], s.workers, nx.waiting, f) < car_potential(s.elevators[f], s.workers, s.waiting, f)
        }),
{
    let n = s.elevators.len();
    let arr = arrive(SimulationView { cur_time: s.cur_time + 1, ..s });
    let nx = next_state(s);
    let ws = s.workers;
    lemma_next_wf(s);
    if arrival_wait(nx) == arrival_wait(s) && forall|f: int| 0 <= f < n ==>
        car_potential(#[trigger] nx.elevators[f], ws, nx.waiting, f) >= car_potential(s.elevators[f], ws, s.waiting, f) {
        // every worker has arrived
        if ws.len() > 0 {
            assert(ws.last().arrival_time <= s.cur_time);
        }
        // every car is idle in the lobby with nothing to show
        assert forall|f: int| 0 <= f < n implies idle_in_lobby(#[trigger] s.elevators[f])
            && car_potential(s.elevators[f], ws, s.waiting, f) == 0 by {
            assert(quiet_car_step(s.elevators[f], nx.elevators[f], ws, arr.waiting, f));
            assert(car_potential(nx.elevators[f], ws, nx.waiting, f) >= car_potential(s.elevators[f], ws, s.waiting, f));
            if !idle_in_lobby(s.elevators[f]) {
                assert(car_potential(s.elevators[f], ws, arr.waiting, f) == car_potential(s.elevators[f], ws, s.waiting, f));
            }
        }
        // some worker has not clocked in, and is waiting
        lemma_num_clocked_in_all(ws);
        lemma_num_clocked_in_bound(ws);
        let i = choose|i: int| 0 <= i < ws.len() && !is_clocked_in(#[trigger] ws[i]);
        assert(ws[i].arrival_time <= ws.last().arrival_time);
        assert(placed(s, i as usize) || is_clocked_in(ws[i as int]));
        if in_car(s, i as usize) {
            let f = choose|f: int| 0 <= f < s.elevators.len() && #[trigger] riding(s, f, i as usize);
            assert(idle_in_lobby(s.elevators[f]));
        }
        assert(s.waiting.contains(i as usize));
        let k = choose|k: int| 0 <= k < s.waiting.len() && s.waiting[k] == i as usize;
        // so some idle car could have taken that worker
        let c: int = match ws[i].elevator_assignment {
            Some(a) => a as int,
            None => 0,
        };
        assert(0 <= c < n);
        assert(may_board(ws[i], c));
        assert(eligible_waiting(s.waiting, ws, c));
        assert(arr.waiting[k] == s.waiting[k]);
        assert(eligible_waiting(arr.waiting, ws, c));
        assert(quiet_car_step(s.elevators[c], nx.elevators[c], ws, arr.waiting, c));
        assert(car_potential(s.elevators[c], ws, s.waiting, c) == 0);
        assert(false);
    }
}

/// A simulation that satisfies the invariant, has at least one elevator and binds
/// workers only to elevators that exist finishes: after some number of seconds every
/// worker has clocked in. The number of seconds is at most the measure, and the
/// clock must have room for that many (the measure bounds the run's length; it can be
/// far larger than the run itself).
pub proof fn lemma_finishes(s: SimulationView)
    requires
        wf(s),
        assignments_valid(s),
        s.elevators.len() > 0,
        s.cur_time + measure(s) <= isize::MAX,
    ensures
        exists|n: nat| finished(#[trigger] run_steps(s, n)) && s.cur_time + n <= isize::MAX,
    decreases measure(s),
{
    lemma_measure_parts(s);
    if finished(s) {
        assert(finished(run_steps(s, 0)));
    } else {
        lemma_num_clocked_in_bound(s.workers);
        assert(progress(s) >= 2);
        assert(measure(s) >= 2) by (nonlinear_arith)
            requires
                progress(s) >= 2,
                potential_cap(s) >= 0,
                potential(s) >= 0,
                measure(s) == progress(s) * (potential_cap(s) + 1) + potential(s),
        ;
        lemma_measure_decreases(s);
        let nx = next_state(s);
        lemma_finishes(nx);
        let m = choose|m: nat| finished(#[trigger] run_steps(nx, m)) && nx.cur_time + m <= isize::MAX;
        assert(run_steps(s, m + 1) == run_steps(nx, m));
    }
}


/// A fresh simulation (nobody clocked in or counted, every worker bound for a floor
/// above the lobby), with at least one elevator and a plan that binds workers only to
/// elevators that exist, once initialized runs until every worker has clocked in, each
/// no earlier than they arrived, provided the clock has room for the measure of the
/// initialized state (a bound on the run's length).
pub proof fn lemma_everyone_clocks_in(s: SimulationView)
    requires
        s.workers.len() <= usize::MAX,
        s.clocked_in == 0,
        forall|i: int| 0 <= i < s.workers.len() ==> !is_clocked_in(#[trigger] s.workers[i]),
        forall|i: int| 0 <= i < s.workers.len() ==> #[trigger] s.workers[i].target_floor >= 1,
        s.elevators.len() > 0,
        assignments_valid(initialized(s)),
        measure(initialized(s)) <= isize::MAX,
    ensures
        exists|n: nat| {
            let f = #[trigger] run_steps(initialized(s), n);
            &&& finished(f)
            &&& f.workers.len() == s.workers.len()
            &&& forall|i: int| 0 <= i < f.workers.len() ==> {
                &&& is_clocked_in(#[trigger] f.workers[i])
                &&& f.workers[i].arrival_time <= f.workers[i].clock_in_time.unwrap() <= f.cur_time
            }
        },
{
    let s0 = initialized(s);
    lemma_initialized_wf(s);
    crate::sort::lemma_sort_by_arrival(s.workers);
    match s.plan {
        Some(p) => crate::invariants::lemma_assign_keeps(crate::rules::sort_by_arrival(s.workers), p, 0),
        None => {},
    }
    lemma_finishes(s0);
    let n = choose|n: nat| finished(#[trigger] run_steps(s0, n)) && s0.cur_time + n <= isize::MAX;
    lemma_run_wf(s0, n);
    let f = run_steps(s0, n);
    lemma_num_clocked_in_bound(f.workers);
    lemma_num_clocked_in_all(f.workers);
    assert forall|i: int| 0 <= i < f.workers.len() implies {
        &&& is_clocked_in(#[trigger] f.workers[i])
        &&& f.workers[i].arrival_time <= f.workers[i].clock_in_time.unwrap() <= f.cur_time
    } by {}
}

} // verus!
