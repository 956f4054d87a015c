//! The rules of the simulation, stated over mathematical values: what one second
//! of simulated time does to the building.
use vstd::prelude::*;
use crate::config::{ELEVATOR_CAPACITY, FLOORS};
use crate::elevator::{fresh_elevator, with_state, ElevatorState, ElevatorView};
use crate::worker::{may_board, Worker};

verus! {

/// The mathematical value of a [`crate::simulation::Simulation`].
pub struct SimulationView {
    pub elevators: Seq<ElevatorView>,
    pub workers: Seq<Worker>,
    /// Seconds since the start of the morning.
    pub cur_time: int,
    /// Indices of the workers waiting in the lobby, in the order they arrived.
    pub waiting: Seq<usize>,
    /// Number of workers who have clocked in, as counted by the simulation.
    pub clocked_in: int,
    /// The plan that binds workers to elevators, if there is one.
    pub plan: Option<Seq<Seq<usize>>>,
}

// ---------------------------------------------------------------------------
// Ordering workers by arrival.

/// The first position at or after `k` in `r` whose worker arrives later than `key`.
pub open spec fn insert_pos(r: Seq<Worker>, key: int, k: nat) -> nat
    decreases r.len() - k,
{
    if k >= r.len() {
        r.len()
    } else if r[k as int].arrival_time > key {
        k
    } else {
        insert_pos(r, key, k + 1)
    }
}

/// `w` inserted into `r` after every worker arriving no later than `w`.
pub open spec fn insert_by_arrival(r: Seq<Worker>, w: Worker) -> Seq<Worker> {
    r.insert(insert_pos(r, w.arrival_time as int, 0) as int, w)
}

/// The workers of `s` ordered by arrival time; workers arriving at the same time
/// keep their order in `s` (a stable sort).
pub open spec fn sort_by_arrival(s: Seq<Worker>) -> Seq<Worker>
    decreases s.len(),
{
    if s.len() == 0 {
        s
    } else {
        insert_by_arrival(sort_by_arrival(s.drop_last()), s.last())
    }
}

/// Whether `s` is ordered by arrival time.
pub open spec fn sorted_by_arrival(s: Seq<Worker>) -> bool {
    forall|i: int, j: int| 0 <= i <= j < s.len() ==> s[i].arrival_time <= s[j].arrival_time
}

// ---------------------------------------------------------------------------
// Binding workers to elevators.

/// The workers from position `i` on, each bound to the first elevator that still has a
/// seat for the worker's floor in `plan` (unbound where none has).
pub open spec fn assign_from(ws: Seq<Worker>, plan: Seq<Seq<usize>>, i: nat) -> Seq<Worker>
    decreases ws.len() - i,
{
    if i >= ws.len() {
        ws
    } else {
        let (plan2, slot) = crate::hyper_simulation::take_floor_seat(
            plan,
            ws[i as int].target_floor as int,
        );
        let ws2 = match slot {
            Some(j) => ws.update(i as int, Worker { elevator_assignment: Some(j), ..ws[i as int] }),
            None => ws,
        };
        assign_from(ws2, plan2, i + 1)
    }
}

/// Whether every worker's floor is one that a plan covers.
pub open spec fn floors_in_plan(ws: Seq<Worker>) -> bool {
    forall|i: int| 0 <= i < ws.len() ==> 1 <= #[trigger] ws[i].target_floor <= FLOORS
}

// ---------------------------------------------------------------------------
// Arrivals.

/// Indices, from `i` on, of the leading workers of `ws` who are in the lobby at the
/// start (arrival time zero or earlier).
pub open spec fn initial_waiting(ws: Seq<Worker>, i: nat) -> Seq<usize>
    decreases ws.len() - i,
{
    if i >= ws.len() || ws[i as int].arrival_time > 0 {
        Seq::empty()
    } else {
        seq![i as usize] + initial_waiting(ws, i + 1)
    }
}

/// Indices of the workers who arrive at second `t`, scanning `ws` from position `i`
/// and stopping at the first worker who arrives later.
pub open spec fn arrivals_from(ws: Seq<Worker>, i: nat, t: int) -> Seq<usize>
    decreases ws.len() - i,
{
    if i >= ws.len() {
        Seq::empty()
    } else if ws[i as int].arrival_time < t {
        arrivals_from(ws, i + 1, t)
    } else if ws[i as int].arrival_time == t {
        seq![i as usize] + arrivals_from(ws, i + 1, t)
    } else {
        Seq::empty()
    }
}

// ---------------------------------------------------------------------------
// Boarding and alighting.

/// Boarding elevator `e` with `space` free places: walks the waiting list in order and
/// takes each worker allowed on `e` while a place is free. Returns the workers who
/// boarded and those still waiting, both in their old order.
pub open spec fn board(waiting: Seq<usize>, workers: Seq<Worker>, e: int, space: int) -> (Seq<usize>, Seq<usize>)
    decreases waiting.len(),
{
    if waiting.len() == 0 {
        (Seq::empty(), Seq::empty())
    } else {
        let w = waiting[0];
        if space > 0 && may_board(workers[w as int], e) {
            let (b, r) = board(waiting.drop_first(), workers, e, space - 1);
            (seq![w] + b, r)
        } else {
            let (b, r) = board(waiting.drop_first(), workers, e, space);
            (b, seq![w] + r)
        }
    }
}

/// Splits the riders of a car at floor `floor`: those whose office is there and those
/// who ride on, both in their old order.
pub open spec fn alight(riders: Seq<usize>, workers: Seq<Worker>, floor: int) -> (Seq<usize>, Seq<usize>)
    decreases riders.len(),
{
    if riders.len() == 0 {
        (Seq::empty(), Seq::empty())
    } else {
        let w = riders[0];
        let (off, stay) = alight(riders.drop_first(), workers, floor);
        if workers[w as int].target_floor == floor {
            (seq![w] + off, stay)
        } else {
            (off, seq![w] + stay)
        }
    }
}

/// Worker `w` clocked in at second `t`.
pub open spec fn clocked(w: Worker, t: int) -> Worker {
    Worker { clock_in_time: Some(t as isize), ..w }
}

/// `workers` with every worker listed in `off` clocked in at second `t`.
pub open spec fn clock_in_all(workers: Seq<Worker>, off: Seq<usize>, t: int) -> Seq<Worker> {
    Seq::new(
        workers.len(),
        |i: int|
            if off.contains(i as usize) {
                clocked(workers[i], t)
            } else {
                workers[i]
            },
    )
}

/// Whether some rider's office is above floor `floor`.
pub open spec fn any_above(riders: Seq<usize>, workers: Seq<Worker>, floor: int) -> bool {
    exists|k: int| 0 <= k < riders.len() && workers[riders[k] as int].target_floor > floor
}

// ---------------------------------------------------------------------------
// One second of one elevator, and of the building.

/// `s` with elevator `e` replaced by `el`.
pub open spec fn with_elevator(s: SimulationView, e: int, el: ElevatorView) -> SimulationView {
    SimulationView { elevators: s.elevators.update(e, el), ..s }
}

/// What one second does to elevator `e` (and to the lobby and the workers it touches).
pub open spec fn elevator_tick(s: SimulationView, e: int) -> SimulationView {
    let el = s.elevators[e];
    if el.time_left > 0 {
        if el.state == ElevatorState::GroundFill {
            let space = ELEVATOR_CAPACITY - el.cur_workers.len();
            let (b, r) = board(s.waiting, s.workers, e, space);
            SimulationView {
                elevators: s.elevators.update(
                    e,
                    ElevatorView { cur_workers: el.cur_workers + b, time_left: el.time_left - 1, ..el },
                ),
                waiting: r,
                ..s
            }
        } else {
            with_elevator(s, e, ElevatorView { time_left: el.time_left - 1, ..el })
        }
    } else {
        match el.state {
            ElevatorState::GroundFill => with_elevator(
                s,
                e,
                with_state(
                    el,
                    if el.cur_workers.len() == 0 {
                        ElevatorState::GroundFill
                    } else {
                        ElevatorState::GoingUp
                    },
                ),
            ),
            ElevatorState::GoingUp => {
                let floor = el.cur_floor + 1;
                let (off, stay) = alight(el.cur_workers, s.workers, floor);
                let moved = ElevatorView { cur_workers: stay, cur_floor: floor, ..el };
                if off.len() > 0 {
                    SimulationView {
                        elevators: s.elevators.update(e, with_state(moved, ElevatorState::FloorOpen)),
                        workers: clock_in_all(s.workers, off, s.cur_time),
                        clocked_in: s.clocked_in + off.len(),
                        ..s
                    }
                } else {
                    with_elevator(
                        s,
                        e,
                        with_state(
                            moved,
                            if any_above(stay, s.workers, floor) {
                                ElevatorState::GoingUp
                            } else {
                                ElevatorState::GoingDown
                            },
                        ),
                    )
                }
            },
            ElevatorState::FloorOpen => with_elevator(
                s,
                e,
                with_state(
                    el,
                    if any_above(el.cur_workers, s.workers, el.cur_floor) {
                        ElevatorState::GoingUp
                    } else {
                        ElevatorState::GoingDown
                    },
                ),
            ),
            ElevatorState::GoingDown => {
                let floor = if el.cur_floor > 0 {
                    el.cur_floor - 1
                } else {
                    el.cur_floor
                };
                with_elevator(
                    s,
                    e,
                    with_state(
                        ElevatorView { cur_floor: floor, ..el },
                        if floor == 0 {
                            ElevatorState::GroundFill
                        } else {
                            ElevatorState::GoingDown
                        },
                    ),
                )
            },
        }
    }
}

/// Elevators `0 .. k` each take their second, in order.
pub open spec fn tick_elevators(s: SimulationView, k: nat) -> SimulationView
    decreases k,
{
    if k == 0 {
        s
    } else {
        elevator_tick(tick_elevators(s, (k - 1) as nat), k - 1)
    }
}

/// The workers who arrive at the current second join the waiting line.
pub open spec fn arrive(s: SimulationView) -> SimulationView {
    SimulationView { waiting: s.waiting + arrivals_from(s.workers, 0, s.cur_time), ..s }
}

/// One second of the simulation: the clock advances, arrivals join the line, then
/// every elevator takes its second in order.
pub open spec fn next_state(s: SimulationView) -> SimulationView {
    let advanced = SimulationView { cur_time: s.cur_time + 1, ..s };
    tick_elevators(arrive(advanced), s.elevators.len())
}

/// `n` seconds of the simulation.
pub open spec fn run_steps(s: SimulationView, n: nat) -> SimulationView
    decreases n,
{
    if n == 0 {
        s
    } else {
        run_steps(next_state(s), (n - 1) as nat)
    }
}

/// Whether the simulation counts every worker as clocked in.
pub open spec fn finished(s: SimulationView) -> bool {
    s.clocked_in >= s.workers.len()
}

/// Whether the simulation started in `s` is finished after `n` seconds and not before.
pub open spec fn finishes_after(s: SimulationView, n: nat) -> bool {
    &&& finished(run_steps(s, n))
    &&& forall|j: nat| j < n ==> !finished(#[trigger] run_steps(s, j))
}

/// The state `initialize` puts `s` in.
pub open spec fn initialized(s: SimulationView) -> SimulationView {
    let sorted = sort_by_arrival(s.workers);
    let ws = match s.plan {
        Some(p) => assign_from(sorted, p, 0),
        None => sorted,
    };
    SimulationView {
        elevators: Seq::new(s.elevators.len(), |i: int| fresh_elevator()),
        workers: ws,
        cur_time: 0,
        waiting: initial_waiting(ws, 0),
        clocked_in: s.clocked_in,
        plan: s.plan,
    }
}

} // verus!
