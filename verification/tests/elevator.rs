use elevator_sim::elevator::{Elevator, ElevatorState};
use elevator_sim::hyper_simulation::ElevatorAssignment;

#[test]
fn durations_of_states() {
    assert_eq!(ElevatorState::GroundFill.duration(), 15);
    assert_eq!(ElevatorState::GoingUp.duration(), 5);
    assert_eq!(ElevatorState::GoingDown.duration(), 5);
    assert_eq!(ElevatorState::FloorOpen.duration(), 10);
}

#[test]
fn new_elevator_waits_empty_in_lobby() {
    let e = Elevator::new();
    assert!(e.cur_workers.is_empty());
    assert_eq!(e.cur_floor, 0);
    assert_eq!(e.state, ElevatorState::GroundFill);
    assert_eq!(e.time_left_in_action, 15);
}

#[test]
fn set_state_restarts_timer() {
    let mut e = Elevator::new();
    e.cur_floor = 3;
    e.time_left_in_action = 0;
    e.set_state(ElevatorState::FloorOpen);
    assert_eq!(e.state, ElevatorState::FloorOpen);
    assert_eq!(e.time_left_in_action, 10);
    assert_eq!(e.cur_floor, 3);
    e.set_state(ElevatorState::GoingDown);
    assert_eq!(e.time_left_in_action, 5);
}

fn plan(floor_1: Vec<usize>) -> ElevatorAssignment {
    ElevatorAssignment {
        floor_1_assigned: floor_1,
        floor_2_assigned: vec![1, 0],
        floor_3_assigned: vec![],
        floor_4_assigned: vec![0, 0],
        floor_5_assigned: vec![0, 2],
        floor_6_assigned: vec![0, 0, 0, 7],
    }
}

#[test]
fn take_seat_uses_first_elevator_with_room() {
    let mut a = plan(vec![0, 2, 1]);
    assert_eq!(a.take_seat(1), Some(1));
    assert_eq!(a.floor_1_assigned, vec![0, 1, 1]);
    assert_eq!(a.take_seat(1), Some(1));
    assert_eq!(a.take_seat(1), Some(2));
    assert_eq!(a.take_seat(1), None);
    assert_eq!(a.floor_1_assigned, vec![0, 0, 0]);
    assert_eq!(a.take_seat(6), Some(3));
    assert_eq!(a.floor_6_assigned, vec![0, 0, 0, 6]);
    assert_eq!(a.take_seat(3), None);
    assert_eq!(a.floor_2_assigned, vec![1, 0]);
}

#[test]
fn duplicate_copies_every_floor() {
    let a = plan(vec![4, 5]);
    let b = a.duplicate();
    assert_eq!(b.floor_1_assigned, vec![4, 5]);
    assert_eq!(b.floor_2_assigned, vec![1, 0]);
    assert_eq!(b.floor_3_assigned, Vec::<usize>::new());
    assert_eq!(b.floor_4_assigned, vec![0, 0]);
    assert_eq!(b.floor_5_assigned, vec![0, 2]);
    assert_eq!(b.floor_6_assigned, vec![0, 0, 0, 7]);
}
