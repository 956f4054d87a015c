use elevator_sim::elevator::{Elevator, ElevatorState};
use elevator_sim::hyper_simulation::ElevatorAssignment;
use elevator_sim::simulation::Simulation;
use elevator_sim::sort::sort_workers_by_arrival;
use elevator_sim::worker::Worker;

fn worker(arrival_time: isize, target_floor: i32) -> Worker {
    Worker { arrival_time, target_floor, clock_in_time: None, elevator_assignment: None }
}

fn elevators(n: usize) -> Vec<Elevator> {
    (0..n).map(|_| Elevator::new()).collect()
}

fn run(workers: Vec<Worker>, n_elevators: usize, plan: Option<ElevatorAssignment>) -> Simulation {
    let mut s = Simulation::new(workers, elevators(n_elevators), plan);
    s.initialize();
    s.simulate_until_done();
    s
}

#[test]
fn new_simulation_starts_at_zero() {
    let s = Simulation::new(vec![worker(3, 1)], elevators(2), None);
    assert_eq!(s.cur_time(), 0);
    assert_eq!(s.clocked_in(), 0);
    assert!(s.waiting().is_empty());
    assert_eq!(s.elevators().len(), 2);
    assert_eq!(s.workers().len(), 1);
}

#[test]
fn initialize_sorts_stably_and_fills_lobby() {
    let mut s = Simulation::new(
        vec![worker(5, 1), worker(0, 2), worker(5, 3), worker(-3, 4), worker(2, 5)],
        elevators(1),
        None,
    );
    s.initialize();
    let order: Vec<(isize, i32)> = s.workers.iter().map(|w| (w.arrival_time, w.target_floor)).collect();
    assert_eq!(order, vec![(-3, 4), (0, 2), (2, 5), (5, 1), (5, 3)]);
    assert_eq!(s.waiting(), &vec![0, 1]);
    assert_eq!(s.cur_time(), 0);
}

#[test]
fn initialize_resets_elevators() {
    let mut busy = Elevator::new();
    busy.cur_floor = 4;
    busy.cur_workers = vec![7, 8];
    busy.set_state(ElevatorState::GoingDown);
    let mut s = Simulation::new(vec![worker(1, 1)], vec![busy], None);
    s.initialize();
    let e = &s.elevators()[0];
    assert_eq!(e.cur_floor, 0);
    assert!(e.cur_workers.is_empty());
    assert_eq!(e.state, ElevatorState::GroundFill);
    assert_eq!(e.time_left_in_action, 15);
}

#[test]
fn sort_keeps_ties_in_order() {
    let mut ws = vec![worker(2, 1), worker(1, 2), worker(2, 3), worker(1, 4)];
    sort_workers_by_arrival(&mut ws);
    let floors: Vec<i32> = ws.iter().map(|w| w.target_floor).collect();
    assert_eq!(floors, vec![2, 4, 1, 3]);
}

#[test]
fn single_worker_first_floor() {
    let s = run(vec![worker(0, 1)], 1, None);
    assert_eq!(s.workers[0].clock_in_time, Some(22));
    assert_eq!(s.cur_time(), 22);
    assert_eq!(s.clocked_in(), 1);
}

#[test]
fn single_worker_second_floor() {
    let s = run(vec![worker(0, 2)], 1, None);
    assert_eq!(s.workers[0].clock_in_time, Some(28));
}

#[test]
fn worker_arriving_during_boarding_takes_same_car() {
    let s = run(vec![worker(5, 1)], 1, None);
    assert_eq!(s.workers[0].clock_in_time, Some(22));
}

#[test]
fn worker_arriving_as_boarding_ends_waits_a_round() {
    let s = run(vec![worker(16, 1)], 1, None);
    assert_eq!(s.workers[0].clock_in_time, Some(38));
}

#[test]
fn car_stops_with_doors_open_between_floors() {
    let s = run(vec![worker(0, 1), worker(0, 3)], 1, None);
    assert_eq!(s.workers[0].clock_in_time, Some(22));
    assert_eq!(s.workers[1].clock_in_time, Some(45));
}

#[test]
fn car_carries_at_most_ten() {
    let ws: Vec<Worker> = (0..11).map(|_| worker(0, 1)).collect();
    let s = run(ws, 1, None);
    for i in 0..10 {
        assert_eq!(s.workers[i].clock_in_time, Some(22));
    }
    assert_eq!(s.workers[10].clock_in_time, Some(61));
}

#[test]
fn every_worker_clocks_in_after_arriving() {
    let ws: Vec<Worker> = (0..37).map(|i| worker((i * 13 % 50) as isize - 10, (i % 6 + 1) as i32)).collect();
    let s = run(ws, 3, None);
    assert_eq!(s.clocked_in(), 37);
    for w in s.workers.iter() {
        let t = w.clock_in_time.expect("clocked in");
        assert!(t > w.arrival_time);
        assert!(t <= s.cur_time());
    }
    assert!(s.waiting().is_empty());
    for e in s.elevators() {
        assert!(e.cur_workers.is_empty());
    }
}

fn one_floor_plan(floor_1: Vec<usize>) -> ElevatorAssignment {
    ElevatorAssignment {
        floor_1_assigned: floor_1,
        floor_2_assigned: vec![],
        floor_3_assigned: vec![],
        floor_4_assigned: vec![],
        floor_5_assigned: vec![],
        floor_6_assigned: vec![],
    }
}

#[test]
fn assign_elevators_binds_by_plan() {
    let mut s = Simulation::new(
        vec![worker(0, 1), worker(0, 1), worker(0, 1)],
        elevators(2),
        Some(one_floor_plan(vec![0, 2])),
    );
    s.assign_elevators();
    let bound: Vec<Option<usize>> = s.workers.iter().map(|w| w.elevator_assignment).collect();
    assert_eq!(bound, vec![Some(1), Some(1), None]);
}

#[test]
fn bound_workers_ride_their_elevator() {
    // elevator 0 boards first, but worker 0 is bound to elevator 1
    let ws = vec![worker(0, 1), worker(0, 2)];
    let s = run(ws, 2, Some(one_floor_plan(vec![0, 1])));
    assert_eq!(s.workers[0].elevator_assignment, Some(1));
    assert_eq!(s.workers[1].elevator_assignment, None);
    assert_eq!(s.workers[0].clock_in_time, Some(22));
    assert_eq!(s.workers[1].clock_in_time, Some(28));
}

#[test]
fn empty_building_is_done_at_once() {
    let s = run(vec![], 4, None);
    assert_eq!(s.cur_time(), 0);
    assert_eq!(s.clocked_in(), 0);
}

#[test]
fn finished_simulation_returns_at_once() {
    let mut odd = Elevator::new();
    odd.set_state(ElevatorState::GoingDown);
    odd.time_left_in_action = 40;
    let mut s = Simulation::new(vec![], vec![odd], None);
    s.simulate_until_done();
    assert_eq!(s.cur_time(), 0);
    let e = &s.elevators()[0];
    assert_eq!(e.state, ElevatorState::GoingDown);
    assert_eq!(e.time_left_in_action, 40);
    assert_eq!(e.cur_floor, 0);
}

#[test]
fn uninitialized_run_with_descending_car_finishes() {
    let mut car = Elevator::new();
    car.cur_floor = 3;
    car.set_state(ElevatorState::GoingDown);
    car.time_left_in_action = 40;
    let mut s = Simulation::new(vec![worker(1, 1)], vec![car], None);
    s.simulate_until_done();
    assert_eq!(s.workers[0].clock_in_time, Some(75));
    assert_eq!(s.cur_time(), 75);
}
