use vstd::prelude::*;
use crate::config::{ELEVATORS, ELEVATOR_CAPACITY, FLOORS, LATE_AFTER_SECS};
use crate::elevator::{fresh_elevator, Elevator};
use crate::invariants::{lemma_assign_keeps, lemma_initialized_wf, lemma_run_wf, same_people, wf};
use crate::lemmas::{lemma_num_clocked_in_all, lemma_num_clocked_in_bound};
use crate::liveness::{
    arrival_wait, assignments_valid, car_bound, lemma_finishes, lemma_measure_parts, measure, potential,
    potential_cap, progress,
};
use crate::rules::{
    assign_from, elevator_tick, finished, finishes_after, initialized, next_state, run_steps, sort_by_arrival,
    tick_elevators, SimulationView,
};
use crate::simulation::{elevator_views, Simulation};
use crate::worker::{is_clocked_in, Worker};

verus! {

/// A plan that binds workers to elevators: for each office floor, how many of
/// that floor's workers each elevator is to carry (entry `i` is for elevator `i`).
#[derive(Debug, Clone)]
pub struct ElevatorAssignment {
    pub floor_1_assigned: Vec<usize>,
    pub floor_2_assigned: Vec<usize>,
    pub floor_3_assigned: Vec<usize>,
    pub floor_4_assigned: Vec<usize>,
    pub floor_5_assigned: Vec<usize>,
    pub floor_6_assigned: Vec<usize>,
}

/// The plan as a sequence indexed by floor minus one.
impl View for ElevatorAssignment {
    type V = Seq<Seq<usize>>;

    open spec fn view(&self) -> Seq<Seq<usize>> {
        seq![
            self.floor_1_assigned@,
            self.floor_2_assigned@,
            self.floor_3_assigned@,
            self.floor_4_assigned@,
            self.floor_5_assigned@,
            self.floor_6_assigned@,
        ]
    }
}

/// The first index at or after `k` whose count is positive, or `counts.len()`.
pub open spec fn first_open(counts: Seq<usize>, k: nat) -> nat
    decreases counts.len() - k,
{
    if k >= counts.len() {
        counts.len()
    } else if counts[k as int] > 0 {
        k
    } else {
        first_open(counts, k + 1)
    }
}

/// Takes one seat from the first elevator that has one left in `counts`: the new
/// counts and that elevator, or the counts unchanged and `None`.
pub open spec fn take_seat(counts: Seq<usize>) -> (Seq<usize>, Option<usize>) {
    let j = first_open(counts, 0);
    if j < counts.len() {
        (counts.update(j as int, (counts[j as int] - 1) as usize), Some(j as usize))
    } else {
        (counts, None)
    }
}

/// Takes a seat for a worker of floor `floor` (1 to 6) from `plan`.
pub open spec fn take_floor_seat(plan: Seq<Seq<usize>>, floor: int) -> (Seq<Seq<usize>>, Option<usize>) {
    let (counts, slot) = take_seat(plan[floor - 1]);
    (plan.update(floor - 1, counts), slot)
}

proof fn lemma_first_open_bound(counts: Seq<usize>, k: nat)
    ensures
        first_open(counts, k) <= counts.len() || k > counts.len(),
        first_open(counts, k) < counts.len() ==> counts[first_open(counts, k) as int] > 0,
        k <= counts.len() ==> k <= first_open(counts, k),
    decreases counts.len() - k,
{
    if k < counts.len() && counts[k as int] == 0 {
        lemma_first_open_bound(counts, k + 1);
    }
}

fn take_seat_in(counts: &mut Vec<usize>) -> (slot: Option<usize>)
    ensures
        final(counts)@ == take_seat(old(counts)@).0,
        slot == take_seat(old(counts)@).1,
{
    let ghost c0 = counts@;
    let mut k: usize = 0;
    while k < counts.len()
        invariant
            k <= counts.len(),
            counts@ == c0,
            c0 == old(counts)@,
            first_open(c0, 0) == first_open(c0, k as nat),
        decreases counts.len() - k,
    {
        if counts[k] > 0 {
            let v = counts[k];
            counts.set(k, v - 1);
            assert(first_open(c0, k as nat) == k);
            return Some(k);
        }
        k += 1;
    }
    assert(first_open(c0, k as nat) == c0.len());
    None
}

impl ElevatorAssignment {
    /// A copy of the plan.
    pub fn duplicate(&self) -> (r: ElevatorAssignment)
        ensures
            r@ == self@,
    {
        ElevatorAssignment {
            floor_1_assigned: self.floor_1_assigned.clone(),
            floor_2_assigned: self.floor_2_assigned.clone(),
            floor_3_assigned: self.floor_3_assigned.clone(),
            floor_4_assigned: self.floor_4_assigned.clone(),
            floor_5_assigned: self.floor_5_assigned.clone(),
            floor_6_assigned: self.floor_6_assigned.clone(),
        }
    }

    /// Takes a seat for a worker of floor `floor`: the first elevator whose count for
    /// that floor is positive gets the worker, and its count drops by one.
    pub fn take_seat(&mut self, floor: i32) -> (slot: Option<usize>)
        requires
            1 <= floor <= 6,
        ensures
            (final(self)@, slot) == take_floor_seat(old(self)@, floor as int),
            floor == 1 ==> (final(self).floor_1_assigned@, slot) == take_seat(old(self).floor_1_assigned@),
            floor == 2 ==> (final(self).floor_2_assigned@, slot) == take_seat(old(self).floor_2_assigned@),
            floor == 3 ==> (final(self).floor_3_assigned@, slot) == take_seat(old(self).floor_3_assigned@),
            floor == 4 ==> (final(self).floor_4_assigned@, slot) == take_seat(old(self).floor_4_assigned@),
            floor == 5 ==> (final(self).floor_5_assigned@, slot) == take_seat(old(self).floor_5_assigned@),
            floor == 6 ==> (final(self).floor_6_assigned@, slot) == take_seat(old(self).floor_6_assigned@),
    {
        let slot = match floor {
            1 => take_seat_in(&mut self.floor_1_assigned),
            2 => take_seat_in(&mut self.floor_2_assigned),
            3 => take_seat_in(&mut self.floor_3_assigned),
            4 => take_seat_in(&mut self.floor_4_assigned),
            5 => take_seat_in(&mut self.floor_5_assigned),
            _ => take_seat_in(&mut self.floor_6_assigned),
        };
        assert(self@ =~= take_floor_seat(old(self)@, floor as int).0);
        slot
    }
}


// ---------------------------------------------------------------------------
// One simulated morning of a study, and the tally over many.

/// Workers on each office floor (entry 0 is floor 1).
pub open spec fn workers_per_floor() -> Seq<usize> {
    seq![100usize, 120usize, 60usize, 120usize, 80usize, 20usize]
}

/// Number of workers in the building.
pub open spec fn total_workers() -> nat {
    500
}

/// Workers on each office floor (entry 0 is floor 1).
pub fn num_per_floor() -> (counts: Vec<usize>)
    ensures
        counts@ == workers_per_floor(),
{
    let counts = vec![100, 120, 60, 120, 80, 20];
    assert(counts@ =~= workers_per_floor());
    counts
}

/// A worker of floor `floor` arriving at `arrival`, or at the latest second that is
/// not late if `arrival` is later.
pub open spec fn new_worker(arrival: isize, floor: int) -> Worker {
    Worker {
        arrival_time: if arrival <= LATE_AFTER_SECS { arrival } else { LATE_AFTER_SECS },
        target_floor: floor as i32,
        clock_in_time: None,
        elevator_assignment: None,
    }
}

/// The workers of floor `floor`, `n` of them, taking their arrival times from
/// `arrivals` starting at `start`.
pub open spec fn floor_block(arrivals: Seq<isize>, start: int, n: int, floor: int) -> Seq<Worker> {
    Seq::new(n as nat, |j: int| new_worker(arrivals[start + j], floor))
}

/// The workers of floors `f + 1` and up, taking arrival times in order from `start`.
pub open spec fn workers_from(arrivals: Seq<isize>, counts: Seq<usize>, f: nat, start: int) -> Seq<Worker>
    decreases counts.len() - f,
{
    if f >= counts.len() {
        Seq::empty()
    } else {
        floor_block(arrivals, start, counts[f as int] as int, (f + 1) as int)
            + workers_from(arrivals, counts, f + 1, start + counts[f as int])
    }
}

/// The workers of a morning: floor by floor, each taking the next arrival time.
pub open spec fn trial_workers(arrivals: Seq<isize>) -> Seq<Worker> {
    workers_from(arrivals, workers_per_floor(), 0, 0)
}

pub proof fn lemma_workers_from(arrivals: Seq<isize>, counts: Seq<usize>, f: nat, start: int)
    requires
        f <= counts.len(),
        counts.len() <= FLOORS,
    ensures
        ({
            let ws = workers_from(arrivals, counts, f, start);
            forall|i: int| 0 <= i < ws.len() ==> {
                &&& f + 1 <= (#[trigger] ws[i]).target_floor <= counts.len()
                &&& ws[i].arrival_time <= LATE_AFTER_SECS
                &&& ws[i].clock_in_time is None
                &&& ws[i].elevator_assignment is None
            }
        }),
    decreases counts.len() - f,
{
    if f < counts.len() {
        lemma_workers_from(arrivals, counts, f + 1, start + counts[f as int]);
        let b = floor_block(arrivals, start, counts[f as int] as int, (f + 1) as int);
        let rest = workers_from(arrivals, counts, f + 1, start + counts[f as int]);
        let ws = b + rest;
        assert forall|i: int| 0 <= i < ws.len() implies {
            &&& f + 1 <= (#[trigger] ws[i]).target_floor <= counts.len()
            &&& ws[i].arrival_time <= LATE_AFTER_SECS
            &&& ws[i].clock_in_time is None
            &&& ws[i].elevator_assignment is None
        } by {
            if i >= b.len() {
                assert(ws[i] == rest[i - b.len()]);
            } else {
                assert(ws[i] == b[i]);
            }
        }
    }
}

pub proof fn lemma_workers_from_len(arrivals: Seq<isize>, f: nat, start: int)
    requires
        f <= 6,
    ensures
        workers_from(arrivals, workers_per_floor(), f, start).len() == if f == 0 { 500int } else if f == 1 { 400int } else if f == 2 { 280int } else if f == 3 { 220int } else if f == 4 { 100int } else if f == 5 { 20int } else { 0int },
    decreases 6 - f,
{
    if f < 6 {
        lemma_workers_from_len(arrivals, f + 1, start + workers_per_floor()[f as int]);
    }
}

/// Builds the workers of one morning: floor by floor, as many as the floor has,
/// each arriving at the next of `arrivals` or at the latest second that is not late.
pub fn make_workers(arrivals: &Vec<isize>) -> (ws: Vec<Worker>)
    requires
        arrivals.len() == total_workers(),
    ensures
        ws@ == trial_workers(arrivals@),
{
    let counts = num_per_floor();
    let ghost arr = arrivals@;
    let ghost cs = counts@;
    let mut ws: Vec<Worker> = Vec::with_capacity(500);
    let mut idx: usize = 0;
    let mut floor: usize = 0;
    proof {
        lemma_workers_from_len(arr, 0, 0);
    }
    assert(ws@ + workers_from(arr, cs, 0, 0) =~= workers_from(arr, cs, 0, 0));
    while floor < counts.len()
        invariant
            floor <= cs.len(),
            counts@ == cs,
            cs == workers_per_floor(),
            arrivals@ == arr,
            arr.len() == 500,
            idx as int + workers_from(arr, cs, floor as nat, idx as int).len() == 500,
            ws@ + workers_from(arr, cs, floor as nat, idx as int) == trial_workers(arr),
        decreases cs.len() - floor,
    {
        proof {
            lemma_workers_from_len(arr, floor as nat, idx as int);
            lemma_workers_from_len(arr, (floor + 1) as nat, idx + cs[floor as int]);
        }
        let n = counts[floor];
        let ghost rest = workers_from(arr, cs, (floor + 1) as nat, idx + n);
        let ghost block = floor_block(arr, idx as int, n as int, floor + 1);
        let ghost start = idx;
        let mut j: usize = 0;
        while j < n
            invariant
                j <= n,
                n == cs[floor as int],
                floor < cs.len(),
                counts@ == cs,
                cs == workers_per_floor(),
                arrivals@ == arr,
                arr.len() == 500,
                idx == start + j,
                start + n + rest.len() == 500,
                block == floor_block(arr, start as int, n as int, floor + 1),
                ws@ + block.skip(j as int) + rest == trial_workers(arr),
            decreases n - j,
        {
            let a = arrivals[idx];
            let arrival_time = if a <= LATE_AFTER_SECS { a } else { LATE_AFTER_SECS };
            let w = Worker {
                arrival_time,
                target_floor: (floor + 1) as i32,
                clock_in_time: None,
                elevator_assignment: None,
            };
            assert(block.skip(j as int) =~= seq![w] + block.skip(j + 1));
            assert(ws@.push(w) + block.skip(j + 1) + rest =~= ws@ + block.skip(j as int) + rest);
            ws.push(w);
            idx += 1;
            j += 1;
        }
        assert(block.skip(n as int) =~= Seq::<Worker>::empty());
        assert(ws@ + rest =~= ws@ + block.skip(n as int) + rest);
        floor += 1;
    }
    assert(workers_from(arr, cs, floor as nat, idx as int) =~= Seq::<Worker>::empty());
    assert(ws@ =~= ws@ + workers_from(arr, cs, floor as nat, idx as int));
    ws
}

/// Whether worker `w` clocked in late.
pub open spec fn is_late(w: Worker) -> bool {
    w.clock_in_time.unwrap() > LATE_AFTER_SECS
}

/// Number of workers in `ws` who clocked in late.
pub open spec fn num_late(ws: Seq<Worker>) -> nat
    decreases ws.len(),
{
    if ws.len() == 0 {
        0
    } else {
        num_late(ws.drop_last()) + if is_late(ws.last()) {
            1nat
        } else {
            0nat
        }
    }
}

proof fn lemma_num_late_bound(ws: Seq<Worker>)
    ensures
        num_late(ws) <= ws.len(),
    decreases ws.len(),
{
    if ws.len() > 0 {
        lemma_num_late_bound(ws.drop_last());
    }
}

/// Counts the workers who clocked in late.
pub fn count_late(workers: &Vec<Worker>) -> (late: usize)
    requires
        forall|i: int| 0 <= i < workers.len() ==> is_clocked_in(#[trigger] workers@[i]),
    ensures
        late == num_late(workers@),
        late == workers@.filter(
            |w: Worker| w.clock_in_time is Some && w.clock_in_time.unwrap() > LATE_AFTER_SECS,
        ).len(),
{
    let mut late: usize = 0;
    let mut i: usize = 0;
    while i < workers.len()
        invariant
            i <= workers.len(),
            late == num_late(workers@.take(i as int)),
            late <= i,
            forall|k: int| 0 <= k < workers.len() ==> is_clocked_in(#[trigger] workers@[k]),
        decreases workers.len() - i,
    {
        assert(workers@.take(i + 1).drop_last() =~= workers@.take(i as int));
        let clocked = match workers[i].clock_in_time {
            Some(t) => t,
            None => {
                assert(is_clocked_in(workers@[i as int]));
                0
            },
        };
        if clocked > LATE_AFTER_SECS {
            late += 1;
        }
        i += 1;
    }
    assert(workers@.take(i as int) =~= workers@);
    proof {
        crate::study::lemma_num_late_counts(workers@);
    }
    late
}

/// Whether a plan binds workers only to elevators of the building.
pub open spec fn plan_fits(plan: Option<Seq<Seq<usize>>>) -> bool {
    match plan {
        Some(p) => forall|f: int| 0 <= f < p.len() ==> (#[trigger] p[f]).len() <= ELEVATORS,
        None => true,
    }
}

/// The building at the start of a morning: the elevators empty in the lobby, the
/// workers of `arrivals`, nobody waiting or clocked in.
pub open spec fn trial_start(arrivals: Seq<isize>, plan: Option<Seq<Seq<usize>>>) -> SimulationView {
    SimulationView {
        elevators: Seq::new(ELEVATORS as nat, |i: int| fresh_elevator()),
        workers: trial_workers(arrivals),
        cur_time: 0,
        waiting: Seq::empty(),
        clocked_in: 0,
        plan: plan,
    }
}

/// The state in which a simulation started in `s` first counts everyone clocked in.
pub open spec fn final_state(s: SimulationView) -> SimulationView {
    run_steps(s, choose|n: nat| finishes_after(s, n))
}

/// Number of late workers in the morning of `arrivals` under `plan`.
pub open spec fn trial_late(arrivals: Seq<isize>, plan: Option<Seq<Seq<usize>>>) -> nat {
    num_late(final_state(initialized(trial_start(arrivals, plan))).workers)
}

proof fn lemma_finishes_after_unique(s: SimulationView, n1: nat, n2: nat)
    requires
        finishes_after(s, n1),
        finishes_after(s, n2),
    ensures
        n1 == n2,
{
    if n1 < n2 {
        assert(!finished(run_steps(s, n1)));
    } else if n2 < n1 {
        assert(!finished(run_steps(s, n2)));
    }
}

/// Binding workers to elevators by a plan that fits the building binds them only to
/// elevators of the building.
proof fn lemma_assign_fits(ws: Seq<Worker>, plan: Seq<Seq<usize>>, i: nat)
    requires
        forall|f: int| 0 <= f < plan.len() ==> (#[trigger] plan[f]).len() <= ELEVATORS,
        forall|k: int| 0 <= k < ws.len() ==> 1 <= (#[trigger] ws[k]).target_floor <= plan.len(),
        forall|k: int| 0 <= k < ws.len() ==> match (#[trigger] ws[k]).elevator_assignment {
            Some(a) => a < ELEVATORS,
            None => true,
        },
    ensures
        forall|k: int| 0 <= k < ws.len() ==> match (#[trigger] assign_from(ws, plan, i)[k]).elevator_assignment {
            Some(a) => a < ELEVATORS,
            None => true,
        },
    decreases ws.len() - i,
{
    if i < ws.len() {
        let floor = ws[i as int].target_floor as int;
        let (plan2, slot) = take_floor_seat(plan, floor);
        let counts = plan[floor - 1];
        lemma_first_open_bound(counts, 0);
        let ws2 = match slot {
            Some(j) => ws.update(i as int, Worker { elevator_assignment: Some(j), ..ws[i as int] }),
            None => ws,
        };
        assert forall|f: int| 0 <= f < plan2.len() implies (#[trigger] plan2[f]).len() <= ELEVATORS by {
            if f == floor - 1 {
                assert(plan2[f].len() == counts.len());
            }
        }
        assert forall|k: int| 0 <= k < ws2.len() implies 1 <= (#[trigger] ws2[k]).target_floor <= plan2.len() by {
            assert(ws2[k].target_floor == ws[k].target_floor);
        }
        lemma_assign_fits(ws2, plan2, i + 1);
    }
}

/// Whether, in the morning of `arrivals`, the plan binds every worker it binds to an
/// elevator of the building.
pub open spec fn plan_valid_for(arrivals: Seq<isize>, plan: Option<Seq<Seq<usize>>>) -> bool {
    assignments_valid(initialized(trial_start(arrivals, plan)))
}

/// A plan that lists no more elevators than the building has binds workers only to
/// elevators of the building, whatever the arrival times.
pub proof fn lemma_plan_fits(arrivals: Seq<isize>, plan: Option<Seq<Seq<usize>>>)
    requires
        arrivals.len() == total_workers(),
        plan_fits(plan),
        plan matches Some(p) ==> p.len() == FLOORS,
    ensures
        plan_valid_for(arrivals, plan),
{
    let s = trial_start(arrivals, plan);
    let ws = s.workers;
    lemma_workers_from(arrivals, workers_per_floor(), 0, 0);
    let sorted = sort_by_arrival(ws);
    crate::sort::lemma_sort_by_arrival(ws);
    assert forall|k: int| 0 <= k < sorted.len() implies 1 <= (#[trigger] sorted[k]).target_floor <= FLOORS
        && sorted[k].elevator_assignment is None by {
        assert(sorted.contains(sorted[k]));
        assert(ws.contains(sorted[k]));
        let j = choose|j: int| 0 <= j < ws.len() && ws[j] == sorted[k];
        assert(ws[j] == sorted[k]);
    }
    let s2 = initialized(s);
    assert(s2.elevators.len() == ELEVATORS);
    match plan {
        Some(p) => {
            lemma_assign_fits(sorted, p, 0);
            lemma_assign_keeps(sorted, p, 0);
            assert(s2.workers == assign_from(sorted, p, 0));
            assert forall|i: int| 0 <= i < s2.workers.len() implies match #[trigger] s2.workers[i].elevator_assignment {
                Some(a) => a < s2.elevators.len(),
                None => true,
            } by {
                assert(s2.workers[i] == assign_from(sorted, p, 0)[i]);
            }
        },
        None => {
            assert(s2.workers == sorted);
            assert forall|i: int| 0 <= i < s2.workers.len() implies match #[trigger] s2.workers[i].elevator_assignment {
                Some(a) => a < s2.elevators.len(),
                None => true,
            } by {
                assert(s2.workers[i] == sorted[i]);
            }
        },
    }
}

/// The first state of a morning, once initialized, satisfies the invariant, binds
/// workers only to elevators of the building, and has clock room to finish.
proof fn lemma_trial_start(arrivals: Seq<isize>, plan: Option<Seq<Seq<usize>>>)
    requires
        arrivals.len() == total_workers(),
        plan_valid_for(arrivals, plan),
    ensures
        wf(initialized(trial_start(arrivals, plan))),
        assignments_valid(initialized(trial_start(arrivals, plan))),
        initialized(trial_start(arrivals, plan)).cur_time + measure(initialized(trial_start(arrivals, plan)))
            <= isize::MAX,
        exists|n: nat| finishes_after(initialized(trial_start(arrivals, plan)), n),
        initialized(trial_start(arrivals, plan)).workers.len() == total_workers(),
{
    let s = trial_start(arrivals, plan);
    let ws = s.workers;
    lemma_workers_from(arrivals, workers_per_floor(), 0, 0);
    lemma_workers_from_len(arrivals, 0, 0);
    lemma_initialized_wf(s);
    let s2 = initialized(s);
    let sorted = sort_by_arrival(ws);
    crate::sort::lemma_sort_by_arrival(ws);
    assert forall|k: int| 0 <= k < sorted.len() implies 1 <= (#[trigger] sorted[k]).target_floor <= FLOORS
        && sorted[k].elevator_assignment is None && sorted[k].arrival_time <= LATE_AFTER_SECS by {
        assert(sorted.contains(sorted[k]));
        assert(ws.contains(sorted[k]));
        let j = choose|j: int| 0 <= j < ws.len() && ws[j] == sorted[k];
        assert(ws[j] == sorted[k]);
    }
    match plan {
        Some(p) => {
            lemma_assign_keeps(sorted, p, 0);
        },
        None => {},
    }
    assert(s2.workers.len() == 500);
    assert(s2.workers.last().arrival_time <= LATE_AFTER_SECS);
    assert(assignments_valid(s2));
    lemma_measure_parts(s2);
    let p = progress(s2);
    let k = potential_cap(s2);
    assert(arrival_wait(s2) <= LATE_AFTER_SECS);
    assert(p <= 1040);
    crate::lemmas::lemma_max_target_le(s2.workers, 6);
    assert(k <= 5400 + 4 * car_bound(s2.workers));
    assert(k <= 5608);
    assert(p * (k + 1) <= 1040 * 5609) by (nonlinear_arith)
        requires
            0 <= p <= 1040,
            0 <= k <= 5608,
    ;
    assert(measure(s2) == p * (k + 1) + potential(s2));
    assert(potential(s2) <= k);
    assert(measure(s2) <= 1040 * 5609 + 5608);
    assert(s2.cur_time == 0);
    assert(measure(s2) <= isize::MAX);
    lemma_finishes(s2);
    let n = choose|n: nat| finished(#[trigger] run_steps(s2, n)) && s2.cur_time + n <= isize::MAX;
    lemma_least_finish(s2, n);
}

/// A simulation that finishes after some number of seconds finishes first after some
/// number no larger.
proof fn lemma_least_finish(s: SimulationView, n: nat)
    requires
        finished(run_steps(s, n)),
    ensures
        exists|m: nat| m <= n && finishes_after(s, m),
    decreases n,
{
    if exists|j: nat| j < n && finished(#[trigger] run_steps(s, j)) {
        let j = choose|j: nat| j < n && finished(#[trigger] run_steps(s, j));
        lemma_least_finish(s, j);
    } else {
        assert(finishes_after(s, n));
    }
}

/// Simulates one morning whose workers arrive at `arrivals` (floor by floor; see
/// [`make_workers`]) with four elevators and the plan `assignment`, and returns the
/// number of workers who clocked in late.
pub fn run_trial(arrivals: &Vec<isize>, assignment: Option<ElevatorAssignment>) -> (late: usize)
    requires
        arrivals.len() == total_workers(),
        plan_valid_for(arrivals@, crate::simulation::plan_of(assignment)),
    ensures
        late == trial_late(arrivals@, crate::simulation::plan_of(assignment)),
        late == num_late(
            final_state(initialized(trial_start(arrivals@, crate::simulation::plan_of(assignment)))).workers,
        ),
        late <= total_workers(),
{
    let ghost plan = crate::simulation::plan_of(assignment);
    let mut elevators: Vec<Elevator> = Vec::new();
    let mut e: usize = 0;
    while e < ELEVATORS
        invariant
            e <= ELEVATORS,
            elevators.len() == e,
            forall|k: int| 0 <= k < e ==> (#[trigger] elevators@[k])@ == fresh_elevator(),
        decreases ELEVATORS - e,
    {
        elevators.push(Elevator::new());
        e += 1;
    }
    let workers = make_workers(arrivals);
    let mut simulation = Simulation::new(workers, elevators, assignment);
    let ghost s = trial_start(arrivals@, plan);
    assert(elevator_views(elevators@) =~= s.elevators);
    assert(simulation@ == s);
    proof {
        lemma_workers_from(arrivals@, workers_per_floor(), 0, 0);
        lemma_trial_start(arrivals@, plan);
    }
    simulation.initialize();
    let ghost s2 = initialized(s);
    proof {
        lemma_finishes(s2);
        let n = choose|n: nat| finished(#[trigger] run_steps(s2, n)) && s2.cur_time + n <= isize::MAX;
        crate::safety::lemma_wf_runs_safely(s2, n);
    }
    simulation.simulate_until_done();
    let ws = simulation.workers();
    proof {
        let fin = simulation@;
        let n = choose|n: nat| finishes_after(s2, n) && fin == run_steps(s2, n);
        let m = choose|n: nat| finishes_after(s2, n);
        lemma_finishes_after_unique(s2, n, m);
        assert(fin == final_state(s2));
        lemma_num_clocked_in_bound(fin.workers);
        lemma_num_clocked_in_all(fin.workers);
        lemma_run_len(s2, n);
        lemma_num_late_bound(fin.workers);
        lemma_workers_from_len(arrivals@, 0, 0);
    }
    count_late(ws)
}


proof fn lemma_ticks_len(s: SimulationView, k: nat)
    ensures
        tick_elevators(s, k).workers.len() == s.workers.len(),
    decreases k,
{
    if k > 0 {
        lemma_ticks_len(s, (k - 1) as nat);
        let t = tick_elevators(s, (k - 1) as nat);
        assert(elevator_tick(t, k - 1).workers.len() == t.workers.len());
    }
}

/// The simulation never adds or removes workers.
proof fn lemma_run_len(s: SimulationView, n: nat)
    ensures
        run_steps(s, n).workers.len() == s.workers.len(),
    decreases n,
{
    if n > 0 {
        let a = crate::rules::arrive(SimulationView { cur_time: s.cur_time + 1, ..s });
        lemma_ticks_len(a, s.elevators.len());
        lemma_run_len(next_state(s), (n - 1) as nat);
    }
}

/// Late workers summed over the mornings `0 .. k` of a study.
pub open spec fn sum_late(trials: Seq<Seq<isize>>, plan: Option<Seq<Seq<usize>>>, k: nat) -> nat
    decreases k,
{
    if k == 0 {
        0
    } else {
        sum_late(trials, plan, (k - 1) as nat) + trial_late(trials[k - 1], plan)
    }
}

/// Squares of the late workers summed over the mornings `0 .. k` of a study.
pub open spec fn sum_late_squared(trials: Seq<Seq<isize>>, plan: Option<Seq<Seq<usize>>>, k: nat) -> nat
    decreases k,
{
    if k == 0 {
        0
    } else {
        sum_late_squared(trials, plan, (k - 1) as nat) + trial_late(trials[k - 1], plan) * trial_late(
            trials[k - 1],
            plan,
        )
    }
}

/// A copy of an optional plan.
fn copy_plan(assignment: &Option<ElevatorAssignment>) -> (r: Option<ElevatorAssignment>)
    ensures
        crate::simulation::plan_of(r) == crate::simulation::plan_of(*assignment),
{
    match assignment {
        Some(a) => Some(a.duplicate()),
        None => None,
    }
}

/// Runs one morning per entry of `trials` (each the arrival times of all workers) under
/// the plan `assignment`; returns the total number of late workers and the total of
/// their squares, from which the mean and spread follow.
pub fn tally_trials(trials: &Vec<Vec<isize>>, assignment: &Option<ElevatorAssignment>) -> (totals: (usize, usize))
    requires
        forall|t: int| 0 <= t < trials.len() ==> (#[trigger] trials@[t])@.len() == total_workers(),
        forall|t: int| 0 <= t < trials.len() ==> plan_valid_for(
            (#[trigger] trials@[t])@,
            crate::simulation::plan_of(*assignment),
        ),
        trials.len() * 250000 <= usize::MAX,
    ensures
        totals.0 == sum_late(trials@.map_values(|v: Vec<isize>| v@), crate::simulation::plan_of(*assignment), trials.len() as nat),
        totals.1 == sum_late_squared(trials@.map_values(|v: Vec<isize>| v@), crate::simulation::plan_of(*assignment), trials.len() as nat),
{
    let ghost plan = crate::simulation::plan_of(*assignment);
    let ghost ts = trials@.map_values(|v: Vec<isize>| v@);
    let mut total_late: usize = 0;
    let mut total_late_squared: usize = 0;
    let mut t: usize = 0;
    while t < trials.len()
        invariant
            t <= trials.len(),
            ts == trials@.map_values(|v: Vec<isize>| v@),
            plan == crate::simulation::plan_of(*assignment),
            forall|u: int| 0 <= u < trials.len() ==> (#[trigger] trials@[u])@.len() == total_workers(),
            forall|u: int| 0 <= u < trials.len() ==> plan_valid_for((#[trigger] trials@[u])@, plan),
            trials.len() * 250000 <= usize::MAX,
            total_late == sum_late(ts, plan, t as nat),
            total_late_squared == sum_late_squared(ts, plan, t as nat),
            total_late <= t * total_workers(),
            total_late_squared <= t * 250000,
        decreases trials.len() - t,
    {
        let late = run_trial(&trials[t], copy_plan(assignment));
        assert(ts[t as int] == trials@[t as int]@);
        assert(late * late <= 250000) by (nonlinear_arith)
            requires
                late <= 500,
        ;
        assert((t + 1) * 250000 <= trials.len() * 250000) by (nonlinear_arith)
            requires
                t + 1 <= trials.len(),
        ;
        total_late += late;
        total_late_squared += late * late;
        t += 1;
    }
    (total_late, total_late_squared)
}


/// Whether, in the morning of `arrivals`, the plan `assignment` binds every worker it
/// binds to an elevator of the building.
pub fn trial_plan_valid(arrivals: &Vec<isize>, assignment: &Option<ElevatorAssignment>) -> (ok: bool)
    requires
        arrivals.len() == total_workers(),
    ensures
        ok == plan_valid_for(arrivals@, crate::simulation::plan_of(*assignment)),
{
    let ghost plan = crate::simulation::plan_of(*assignment);
    let mut elevators: Vec<Elevator> = Vec::new();
    let mut e: usize = 0;
    while e < ELEVATORS
        invariant
            e <= ELEVATORS,
            elevators.len() == e,
            forall|k: int| 0 <= k < e ==> (#[trigger] elevators@[k])@ == fresh_elevator(),
        decreases ELEVATORS - e,
    {
        elevators.push(Elevator::new());
        e += 1;
    }
    let workers = make_workers(arrivals);
    let mut simulation = Simulation::new(workers, elevators, copy_plan(assignment));
    let ghost s = trial_start(arrivals@, plan);
    assert(elevator_views(elevators@) =~= s.elevators);
    assert(simulation@ == s);
    proof {
        lemma_workers_from(arrivals@, workers_per_floor(), 0, 0);
    }
    simulation.initialize();
    let ws = simulation.workers();
    let ghost s2 = initialized(s);
    let mut i: usize = 0;
    while i < ws.len()
        invariant
            i <= ws.len(),
            ws@ == s2.workers,
            s2 == initialized(trial_start(arrivals@, crate::simulation::plan_of(*assignment))),
            s2.elevators.len() == ELEVATORS,
            forall|k: int| 0 <= k < i ==> match (#[trigger] ws@[k]).elevator_assignment {
                Some(a) => a < ELEVATORS,
                None => true,
            },
        decreases ws.len() - i,
    {
        match ws[i].elevator_assignment {
            Some(a) => {
                if a >= ELEVATORS {
                    assert(!(match s2.workers[i as int].elevator_assignment {
                        Some(b) => b < s2.elevators.len(),
                        None => true,
                    }));
                    return false;
                }
            },
            None => {},
        }
        i += 1;
    }
    true
}

} // verus!
