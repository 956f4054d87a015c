use elevator_sim::hyper_simulation::{
    count_late, make_workers, num_per_floor, run_trial, tally_trials, trial_plan_valid, ElevatorAssignment,
};
use elevator_sim::worker::Worker;

#[test]
fn floors_hold_their_workers() {
    assert_eq!(num_per_floor(), vec![100, 120, 60, 120, 80, 20]);
    assert_eq!(num_per_floor().iter().sum::<usize>(), 500);
}

#[test]
fn make_workers_fills_floors_in_order_and_caps_arrivals() {
    let arrivals: Vec<isize> = (0..500).map(|i| if i == 7 { 6000 } else { i as isize - 100 }).collect();
    let ws = make_workers(&arrivals);
    assert_eq!(ws.len(), 500);
    assert_eq!(ws[0].target_floor, 1);
    assert_eq!(ws[99].target_floor, 1);
    assert_eq!(ws[100].target_floor, 2);
    assert_eq!(ws[219].target_floor, 2);
    assert_eq!(ws[220].target_floor, 3);
    assert_eq!(ws[280].target_floor, 4);
    assert_eq!(ws[400].target_floor, 5);
    assert_eq!(ws[480].target_floor, 6);
    assert_eq!(ws[499].target_floor, 6);
    assert_eq!(ws[7].arrival_time, 5400);
    assert_eq!(ws[8].arrival_time, -92);
    assert_eq!(ws[499].arrival_time, 399);
    assert!(ws.iter().all(|w| w.clock_in_time.is_none() && w.elevator_assignment.is_none()));
}

fn clocked(at: isize) -> Worker {
    Worker { arrival_time: 0, target_floor: 1, clock_in_time: Some(at), elevator_assignment: None }
}

#[test]
fn count_late_counts_strictly_after_deadline() {
    let ws = vec![clocked(5399), clocked(5400), clocked(5401), clocked(9000), clocked(0)];
    assert_eq!(count_late(&ws), 2);
    assert_eq!(count_late(&vec![]), 0);
}

#[test]
fn early_morning_nobody_late() {
    assert_eq!(run_trial(&vec![0; 500], None), 0);
}

#[test]
fn arriving_at_deadline_everyone_late() {
    assert_eq!(run_trial(&vec![6000; 500], None), 500);
}

fn spread_plan() -> ElevatorAssignment {
    ElevatorAssignment {
        floor_1_assigned: vec![0, 8, 20, 72],
        floor_2_assigned: vec![0, 10, 110, 0],
        floor_3_assigned: vec![0, 13, 17, 30],
        floor_4_assigned: vec![0, 120, 0, 0],
        floor_5_assigned: vec![80, 0, 0, 0],
        floor_6_assigned: vec![20, 0, 0, 0],
    }
}

#[test]
fn plan_does_not_change_who_can_be_late_at_dawn() {
    assert_eq!(run_trial(&vec![0; 500], Some(spread_plan())), 0);
}

#[test]
fn tally_sums_lates_and_squares() {
    let trials = vec![vec![0; 500], vec![6000; 500], vec![6000; 500]];
    assert_eq!(tally_trials(&trials, &None), (1000, 500_000));
    assert_eq!(tally_trials(&vec![], &Some(spread_plan())), (0, 0));
}

#[test]
fn tally_matches_single_trials() {
    let a: Vec<isize> = (0..500).map(|i| 4700 + (i as isize * 37 % 900)).collect();
    let b: Vec<isize> = (0..500).map(|i| 5000 - (i as isize * 11 % 700)).collect();
    let la = run_trial(&a, None);
    let lb = run_trial(&b, None);
    assert_eq!(tally_trials(&vec![a, b], &None), (la + lb, la * la + lb * lb));
}

#[test]
fn plan_validity_depends_on_seats_reached() {
    let arrivals = vec![0; 500];
    assert!(trial_plan_valid(&arrivals, &None));
    assert!(trial_plan_valid(&arrivals, &Some(spread_plan())));
    let mut reaching_fifth = spread_plan();
    reaching_fifth.floor_1_assigned = vec![10, 10, 10, 10, 60];
    assert!(!trial_plan_valid(&arrivals, &Some(reaching_fifth)));
    let mut unreached_fifth = spread_plan();
    unreached_fifth.floor_6_assigned = vec![20, 0, 0, 0, 5];
    assert!(trial_plan_valid(&arrivals, &Some(unreached_fifth)));
}
