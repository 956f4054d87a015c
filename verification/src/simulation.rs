//! The simulation itself: a building, its elevators and its workers, advanced one
//! second at a time until every worker has clocked in.
use vstd::prelude::*;
use crate::config::{ELEVATOR_CAPACITY, FLOORS};
use crate::elevator::{fresh_elevator, Elevator, ElevatorState, ElevatorView};
use crate::hyper_simulation::ElevatorAssignment;
use crate::invariants::wf;
use crate::safety::{
    car_ready, lemma_arrive_ready, lemma_run_time, lemma_tick_ready, ready_from, runs_safely_to_finish, step_ready,
};
use crate::rules::{
    alight, any_above, arrivals_from, arrive, assign_from, board, clock_in_all, elevator_tick,
    finished, floors_in_plan, initial_waiting, initialized, next_state, run_steps, tick_elevators,
    SimulationView,
};
use crate::sort::{lemma_sort_by_arrival, sort_workers_by_arrival};
use crate::worker::Worker;

verus! {

/// The plan of an optional assignment.
pub open spec fn plan_of(a: Option<ElevatorAssignment>) -> Option<Seq<Seq<usize>>> {
    match a {
        Some(p) => Some(p@),
        None => None,
    }
}

/// The views of a sequence of elevators.
pub open spec fn elevator_views(es: Seq<Elevator>) -> Seq<ElevatorView> {
    es.map_values(|e: Elevator| e@)
}

/// One simulated morning.
#[derive(Debug)]
pub struct Simulation {
    elevators: Vec<Elevator>,
    pub workers: Vec<Worker>,
    /// Seconds since the start of the morning.
    cur_time: isize,
    /// Indices of the workers waiting in the lobby.
    workers_waiting: Vec<usize>,
    /// Number of workers who have clocked in.
    workers_clocked_in: usize,
    /// Plan binding workers to elevators, if any.
    elevator_assignments: Option<ElevatorAssignment>,
}

impl View for Simulation {
    type V = SimulationView;

    closed spec fn view(&self) -> SimulationView {
        SimulationView {
            elevators: elevator_views(self.elevators@),
            workers: self.workers@,
            cur_time: self.cur_time as int,
            waiting: self.workers_waiting@,
            clocked_in: self.workers_clocked_in as int,
            plan: plan_of(self.elevator_assignments),
        }
    }
}

/// Moves into a car in the lobby, with `space` places free, the waiting workers allowed
/// on elevator `e`, in order; returns them.
fn board_workers(waiting: &mut Vec<usize>, workers: &Vec<Worker>, e: usize, space: usize) -> (boarded: Vec<usize>)
    requires
        forall|k: int| 0 <= k < old(waiting).len() ==> #[trigger] old(waiting)[k] < workers.len(),
    ensures
        boarded@ == board(old(waiting)@, workers@, e as int, space as int).0,
        final(waiting)@ == board(old(waiting)@, workers@, e as int, space as int).1,
{
    let ghost w0 = waiting@;
    let mut taken: Vec<usize> = Vec::new();
    let mut kept: Vec<usize> = Vec::new();
    let mut i: usize = 0;
    assert(w0.skip(0) =~= w0);
    while i < waiting.len()
        invariant
            waiting@ == w0,
            i <= w0.len(),
            taken.len() <= space,
            forall|k: int| 0 <= k < w0.len() ==> #[trigger] w0[k] < workers.len(),
            board(w0, workers@, e as int, space as int).0
                == taken@ + board(w0.skip(i as int), workers@, e as int, space - taken.len()).0,
            board(w0, workers@, e as int, space as int).1
                == kept@ + board(w0.skip(i as int), workers@, e as int, space - taken.len()).1,
        decreases w0.len() - i,
    {
        let w = waiting[i];
        let ghost rest = w0.skip(i as int);
        assert(rest[0] == w);
        assert(rest.drop_first() =~= w0.skip(i + 1));
        let allowed = match workers[w].elevator_assignment {
            Some(a) => a == e,
            None => true,
        };
        let ghost sp = space - taken.len();
        let ghost (b1, r1) = board(w0.skip(i + 1), workers@, e as int, sp - 1);
        let ghost (b2, r2) = board(w0.skip(i + 1), workers@, e as int, sp);
        if taken.len() < space && allowed {
            assert(taken@.push(w) + b1 =~= taken@ + (seq![w] + b1));
            taken.push(w);
        } else {
            assert(kept@.push(w) + r2 =~= kept@ + (seq![w] + r2));
            kept.push(w);
        }
        i += 1;
    }
    assert(w0.skip(i as int) =~= Seq::<usize>::empty());
    assert(taken@ =~= taken@ + Seq::<usize>::empty());
    assert(kept@ =~= kept@ + Seq::<usize>::empty());
    *waiting = kept;
    taken
}

/// Lets the riders of a car arriving at floor `floor` get off there, clocking each of
/// them in at second `t`; returns how many got off.
fn alight_workers(riders: &mut Vec<usize>, workers: &mut Vec<Worker>, floor: i32, t: isize) -> (got_off: usize)
    requires
        forall|k: int| 0 <= k < old(riders).len() ==> #[trigger] old(riders)[k] < old(workers).len(),
    ensures
        final(riders)@ == alight(old(riders)@, old(workers)@, floor as int).1,
        final(workers)@ == clock_in_all(old(workers)@, alight(old(riders)@, old(workers)@, floor as int).0, t as int),
        got_off == alight(old(riders)@, old(workers)@, floor as int).0.len(),
{
    let ghost r0 = riders@;
    let ghost w0 = workers@;
    let ghost mut off: Seq<usize> = Seq::empty();
    let wlen = workers.len();
    let mut kept: Vec<usize> = Vec::new();
    let mut got_off: usize = 0;
    let mut i: usize = 0;
    assert(r0.skip(0) =~= r0);
    assert(clock_in_all(w0, off, t as int) =~= w0);
    while i < riders.len()
        invariant
            riders@ == r0,
            i <= r0.len(),
            got_off == off.len(),
            got_off <= i,
            workers@.len() == w0.len(),
            wlen == w0.len(),
            forall|k: int| 0 <= k < r0.len() ==> #[trigger] r0[k] < w0.len(),
            workers@ == clock_in_all(w0, off, t as int),
            alight(r0, w0, floor as int).0 == off + alight(r0.skip(i as int), w0, floor as int).0,
            alight(r0, w0, floor as int).1 == kept@ + alight(r0.skip(i as int), w0, floor as int).1,
        decreases r0.len() - i,
    {
        let w = riders[i];
        let ghost rest = r0.skip(i as int);
        assert(rest[0] == w);
        assert(rest.drop_first() =~= r0.skip(i + 1));
        let ghost (o1, s1) = alight(r0.skip(i + 1), w0, floor as int);
        if workers[w].target_floor == floor {
            let old_w = workers[w];
            let new_w = Worker { clock_in_time: Some(t), ..old_w };
            workers.set(w, new_w);
            proof {
                let off2 = off.push(w);
                assert forall|y: usize| off2.contains(y) <==> (off.contains(y) || y == w) by {
                    if off2.contains(y) {
                        let k = choose|k: int| 0 <= k < off2.len() && off2[k] == y;
                        if k < off.len() {
                            assert(off[k] == y);
                        }
                    }
                    if off.contains(y) {
                        let k = choose|k: int| 0 <= k < off.len() && off[k] == y;
                        assert(off2[k] == y);
                    }
                    assert(off2[off.len() as int] == w);
                }
                assert forall|j: int| 0 <= j < w0.len() implies #[trigger] workers@[j] == clock_in_all(w0, off2, t as int)[j] by {
                    assert((j as usize) as int == j);
                }
                assert(workers@ =~= clock_in_all(w0, off2, t as int));
                assert(off2 + o1 =~= off + (seq![w] + o1));
                off = off2;
            }
            got_off += 1;
        } else {
            assert(kept@.push(w) + s1 =~= kept@ + (seq![w] + s1));
            kept.push(w);
        }
        i += 1;
    }
    assert(r0.skip(i as int) =~= Seq::<usize>::empty());
    assert(off =~= off + Seq::<usize>::empty());
    assert(kept@ =~= kept@ + Seq::<usize>::empty());
    *riders = kept;
    got_off
}

/// Whether some rider's floor is above `floor`.
fn any_rider_above(riders: &Vec<usize>, workers: &Vec<Worker>, floor: i32) -> (above: bool)
    requires
        forall|k: int| 0 <= k < riders.len() ==> #[trigger] riders[k] < workers.len(),
    ensures
        above == any_above(riders@, workers@, floor as int),
{
    let mut i: usize = 0;
    while i < riders.len()
        invariant
            i <= riders.len(),
            forall|k: int| 0 <= k < riders.len() ==> #[trigger] riders[k] < workers.len(),
            forall|k: int| 0 <= k < i ==> workers@[riders@[k] as int].target_floor <= floor,
        decreases riders.len() - i,
    {
        if workers[riders[i]].target_floor > floor {
            return true;
        }
        i += 1;
    }
    false
}

impl Simulation {
    pub fn new(
        workers: Vec<Worker>,
        elevators: Vec<Elevator>,
        elevator_assignments: Option<ElevatorAssignment>,
    ) -> (s: Simulation)
        ensures
            s@ == (SimulationView {
                elevators: elevator_views(elevators@),
                workers: workers@,
                cur_time: 0,
                waiting: Seq::empty(),
                clocked_in: 0,
                plan: plan_of(elevator_assignments),
            }),
    {
        Simulation {
            elevators,
            workers,
            cur_time: 0,
            workers_waiting: Vec::new(),
            workers_clocked_in: 0,
            elevator_assignments,
        }
    }

    /// The workers, as the simulation holds them.
    pub fn workers(&self) -> (ws: &Vec<Worker>)
        ensures
            ws@ == self@.workers,
    {
        &self.workers
    }

    /// The elevators.
    pub fn elevators(&self) -> (es: &Vec<Elevator>)
        ensures
            elevator_views(es@) == self@.elevators,
    {
        &self.elevators
    }

    /// Indices of the workers waiting in the lobby, in the order they arrived.
    pub fn waiting(&self) -> (w: &Vec<usize>)
        ensures
            w@ == self@.waiting,
    {
        &self.workers_waiting
    }

    /// Seconds since the start of the morning.
    pub fn cur_time(&self) -> (t: isize)
        ensures
            t == self@.cur_time,
    {
        self.cur_time
    }

    /// Number of workers the simulation has counted as clocked in.
    pub fn clocked_in(&self) -> (n: usize)
        ensures
            n == self@.clocked_in,
    {
        self.workers_clocked_in
    }

    /// Resets the elevators and the clock, orders the workers by arrival, binds them
    /// to elevators if there is a plan, and lets those already there wait in the lobby.
    pub fn initialize(&mut self)
        requires
            old(self)@.plan is Some ==> floors_in_plan(old(self)@.workers),
        ensures
            final(self)@ == initialized(old(self)@),
    {
        let ghost s0 = self@;
        self.cur_time = 0;
        let n = self.elevators.len();
        let mut i: usize = 0;
        while i < n
            invariant
                i <= n,
                n == self.elevators.len(),
                forall|k: int| 0 <= k < i ==> (#[trigger] self.elevators@[k])@ == fresh_elevator(),
                forall|k: int| i <= k < n ==> #[trigger] self.elevators@[k] == old(self).elevators@[k],
                self.workers == old(self).workers,
                self.workers_waiting == old(self).workers_waiting,
                self.workers_clocked_in == old(self).workers_clocked_in,
                self.elevator_assignments == old(self).elevator_assignments,
                self.cur_time == 0,
            decreases n - i,
        {
            let mut elevator = self.elevators.remove(i);
            elevator.set_state(ElevatorState::GroundFill);
            elevator.cur_floor = 0;
            elevator.cur_workers.clear();
            self.elevators.insert(i, elevator);
            i += 1;
        }
        assert(elevator_views(self.elevators@) =~= Seq::new(n as nat, |k: int| fresh_elevator()));
        self.workers_waiting.clear();
        sort_workers_by_arrival(&mut self.workers);
        proof {
            lemma_sort_by_arrival(s0.workers);
        }
        if self.elevator_assignments.is_some() {
            proof {
                let sorted = self.workers@;
                assert forall|j: int| 0 <= j < sorted.len() implies 1 <= #[trigger] sorted[j].target_floor <= FLOORS by {
                    assert(sorted.contains(sorted[j]));
                    assert(s0.workers.contains(sorted[j]));
                    let k = choose|k: int| 0 <= k < s0.workers.len() && s0.workers[k] == sorted[j];
                    assert(1 <= s0.workers[k].target_floor <= FLOORS);
                }
            }
            self.assign_elevators();
        }
        let ghost ws = self.workers@;
        let ghost elevators_now = self.elevators@;
        let ghost plan_now = self.elevator_assignments;
        let ghost clocked_now = self.workers_clocked_in;
        let mut k: usize = 0;
        assert(self.workers_waiting@ + initial_waiting(ws, 0) =~= initial_waiting(ws, 0));
        while k < self.workers.len() && self.workers[k].arrival_time <= 0
            invariant
                k <= ws.len(),
                self.workers@ == ws,
                self.workers_waiting@ + initial_waiting(ws, k as nat) == initial_waiting(ws, 0),
                self.cur_time == 0,
                self.elevators@ == elevators_now,
                self.elevator_assignments == plan_now,
                self.workers_clocked_in == clocked_now,
            decreases ws.len() - k,
        {
            assert(initial_waiting(ws, k as nat) == seq![k] + initial_waiting(ws, (k + 1) as nat));
            assert(self.workers_waiting@.push(k) + initial_waiting(ws, (k + 1) as nat)
                =~= self.workers_waiting@ + (seq![k] + initial_waiting(ws, (k + 1) as nat)));
            self.workers_waiting.push(k);
            k += 1;
        }
        assert(initial_waiting(ws, k as nat) =~= Seq::<usize>::empty());
        assert(self.workers_waiting@ =~= self.workers_waiting@ + Seq::<usize>::empty());
    }

    /// Binds each worker, in order, to the first elevator that still has a seat for
    /// the worker's floor in the plan; the plan itself is left as it is.
    pub fn assign_elevators(&mut self)
        requires
            old(self)@.plan is Some,
            floors_in_plan(old(self)@.workers),
        ensures
            final(self)@ == (SimulationView {
                workers: assign_from(old(self)@.workers, old(self)@.plan.unwrap(), 0),
                ..old(self)@
            }),
    {
        let ghost s0 = self@;
        let mut plan = match &self.elevator_assignments {
            Some(a) => a.duplicate(),
            None => {
                return;
            },
        };
        let n = self.workers.len();
        let mut i: usize = 0;
        while i < n
            invariant
                i <= n,
                n == self.workers.len(),
                self@ == (SimulationView { workers: self.workers@, ..s0 }),
                assign_from(s0.workers, s0.plan.unwrap(), 0) == assign_from(self.workers@, plan@, i as nat),
                floors_in_plan(self.workers@),
            decreases n - i,
        {
            let target = self.workers[i].target_floor;
            let slot = plan.take_seat(target);
            let ghost prev = self.workers@;
            match slot {
                Some(j) => {
                    let w = self.workers[i];
                    self.workers.set(i, Worker { elevator_assignment: Some(j), ..w });
                    assert forall|k: int| 0 <= k < self.workers@.len() implies 1 <= #[trigger] self.workers@[k].target_floor <= FLOORS by {
                        assert(self.workers@[k].target_floor == prev[k].target_floor);
                    }
                },
                None => {},
            }
            i += 1;
        }
    }

    /// Lets the workers who arrive this second join the waiting line.
    fn arrive_workers(&mut self)
        ensures
            final(self)@ == arrive(old(self)@),
    {
        let ghost s0 = self@;
        let t = self.cur_time;
        let mut i: usize = 0;
        assert(self.workers_waiting@ + arrivals_from(s0.workers, 0, t as int)
            =~= s0.waiting + arrivals_from(s0.workers, 0, t as int));
        while i < self.workers.len()
            invariant
                i <= self.workers.len(),
                self@ == (SimulationView { waiting: self.workers_waiting@, ..s0 }),
                t == s0.cur_time,
                self.workers_waiting@ + arrivals_from(s0.workers, i as nat, t as int)
                    == s0.waiting + arrivals_from(s0.workers, 0, t as int),
            ensures
                self@ == (SimulationView { waiting: self.workers_waiting@, ..s0 }),
                self.workers_waiting@ == s0.waiting + arrivals_from(s0.workers, 0, t as int),
            decreases self.workers.len() - i,
        {
            let a = self.workers[i].arrival_time;
            if a < t {
                i += 1;
            } else if a == t {
                let ghost rest = arrivals_from(s0.workers, (i + 1) as nat, t as int);
                assert(self.workers_waiting@.push(i) + rest =~= self.workers_waiting@ + (seq![i] + rest));
                self.workers_waiting.push(i);
                i += 1;
            } else {
                assert(self.workers_waiting@ =~= self.workers_waiting@ + Seq::<usize>::empty());
                break;
            }
        }
        assert(self.workers_waiting@ =~= self.workers_waiting@ + Seq::<usize>::empty());
    }

    /// One second of elevator `e`.
    fn tick_elevator(&mut self, e: usize)
        requires
            e < old(self)@.elevators.len(),
            ready_from(old(self)@, e as int),
        ensures
            final(self)@ == elevator_tick(old(self)@, e as int),
    {
        let ghost s0 = self@;
        let ghost s1 = elevator_tick(s0, e as int);
        proof {
            lemma_tick_ready(s0, e as int);
            assert(car_ready(s0.elevators[e as int], s0.workers.len() as int));
        }
        let mut elevator = self.elevators.remove(e);
        assert(elevator@ == s0.elevators[e as int]);
        if elevator.time_left_in_action > 0 {
            if elevator.state == ElevatorState::GroundFill {
                let space = ELEVATOR_CAPACITY - elevator.cur_workers.len();
                let mut boarded = board_workers(&mut self.workers_waiting, &self.workers, e, space);
                elevator.cur_workers.append(&mut boarded);
            }
            elevator.time_left_in_action -= 1;
        } else {
            match elevator.state {
                ElevatorState::GroundFill => {
                    let next = if elevator.cur_workers.is_empty() {
                        ElevatorState::GroundFill
                    } else {
                        ElevatorState::GoingUp
                    };
                    elevator.set_state(next);
                },
                ElevatorState::GoingUp => {
                    elevator.cur_floor += 1;
                    let got_off = alight_workers(
                        &mut elevator.cur_workers,
                        &mut self.workers,
                        elevator.cur_floor,
                        self.cur_time,
                    );
                    if got_off > 0 {
                        self.workers_clocked_in += got_off;
                        elevator.set_state(ElevatorState::FloorOpen);
                    } else {
                        proof {
                            crate::lemmas::lemma_alight(s0.elevators[e as int].cur_workers, s0.workers, elevator.cur_floor as int);
                        }
                        let above = any_rider_above(&elevator.cur_workers, &self.workers, elevator.cur_floor);
                        elevator.set_state(
                            if above {
                                ElevatorState::GoingUp
                            } else {
                                ElevatorState::GoingDown
                            },
                        );
                    }
                },
                ElevatorState::FloorOpen => {
                    let above = any_rider_above(&elevator.cur_workers, &self.workers, elevator.cur_floor);
                    elevator.set_state(
                        if above {
                            ElevatorState::GoingUp
                        } else {
                            ElevatorState::GoingDown
                        },
                    );
                },
                ElevatorState::GoingDown => {
                    if elevator.cur_floor > 0 {
                        elevator.cur_floor -= 1;
                    }
                    let next = if elevator.cur_floor == 0 {
                        ElevatorState::GroundFill
                    } else {
                        ElevatorState::GoingDown
                    };
                    elevator.set_state(next);
                },
            }
        }
        self.elevators.insert(e, elevator);
        assert(self@.elevators =~= s1.elevators);
        assert(self@.waiting =~= s1.waiting);
        assert(self@.workers =~= s1.workers);
    }

    /// One second of every elevator, in order.
    fn update_elevators(&mut self)
        requires
            step_ready(old(self)@),
        ensures
            final(self)@ == tick_elevators(old(self)@, old(self)@.elevators.len()),
    {
        let ghost s0 = self@;
        let n = self.elevators.len();
        let mut e: usize = 0;
        while e < n
            invariant
                e <= n,
                n == s0.elevators.len(),
                self@.elevators.len() == n,
                self@ == tick_elevators(s0, e as nat),
                ready_from(self@, e as int),
            decreases n - e,
        {
            proof {
                lemma_tick_ready(self@, e as int);
            }
            self.tick_elevator(e);
            e += 1;
        }
    }

    /// One second of the simulation.
    fn next(&mut self)
        requires
            step_ready(old(self)@),
            old(self)@.cur_time < isize::MAX,
        ensures
            final(self)@ == next_state(old(self)@),
    {
        proof {
            lemma_arrive_ready(old(self)@);
        }
        self.cur_time += 1;
        self.arrive_workers();
        self.update_elevators();
    }

    /// Runs the simulation until every worker has clocked in.
    pub fn simulate_until_done(&mut self)
        requires
            exists|n: nat| runs_safely_to_finish(old(self)@, n),
        ensures
            exists|n: nat| crate::rules::finishes_after(old(self)@, n) && final(self)@ == run_steps(old(self)@, n),
            finished(final(self)@),
            finished(old(self)@) ==> final(self)@ == old(self)@,
            wf(old(self)@) ==> wf(final(self)@),
    {
        let ghost s0 = self@;
        let ghost bound: nat = choose|n: nat| runs_safely_to_finish(s0, n);
        let ghost mut steps: nat = 0;
        while self.workers_clocked_in < self.workers.len()
            invariant
                steps <= bound,
                runs_safely_to_finish(s0, bound),
                self@ == run_steps(s0, steps),
                forall|j: nat| j < steps ==> !finished(#[trigger] run_steps(s0, j)),
            decreases bound - steps,
        {
            proof {
                if steps == bound {
                    assert(false);
                }
                assert(step_ready(run_steps(s0, steps)));
                lemma_run_time(s0, steps);
                lemma_run_steps_split(s0, steps);
            }
            self.next();
            proof {
                steps = steps + 1;
            }
        }
        proof {
            lemma_run_steps_split(s0, 0);
            if wf(s0) {
                crate::invariants::lemma_run_wf(s0, steps);
            }
        }
    }
}

/// Running `n + 1` seconds is running `n` seconds and then one more.
proof fn lemma_run_steps_split(s: SimulationView, n: nat)
    ensures
        run_steps(s, n + 1) == next_state(run_steps(s, n)),
    decreases n,
{
    reveal_with_fuel(run_steps, 2);
    if n > 0 {
        lemma_run_steps_split(next_state(s), (n - 1) as nat);
    }
}

} // verus!
