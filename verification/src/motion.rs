//! How a car moves in one second: it waits out its timer, then climbs or descends
//! one floor, opens its doors where riders get off, and returns to the lobby empty.
use vstd::prelude::*;
use crate::config::{ELEVATOR_FLOOR_OPEN_TIME, ELEVATOR_GROUND_FILL_TIME, ELEVATOR_TRAVEL_TIME};
use crate::elevator::ElevatorState;
use crate::rules::{elevator_tick, SimulationView};

verus! {

/// One second of car `e`:
/// - while its timer runs, the car stays where it is and in its state, one second
///   closer to acting (boarding may add riders in the lobby);
/// - once the timer has run out, the car leaves the lobby going up exactly when it
///   carries someone; going up it climbs one floor and opens its doors exactly when a
///   rider's office is there, else climbs on while a rider's office is above and turns
///   back otherwise; with doors open it climbs on while a rider's office is above and
///   turns back otherwise; going down it descends one floor (never below the lobby)
///   and starts boarding when it reaches the lobby;
/// - whenever it enters a state, its timer is that state's duration.
/// No other car changes.
pub proof fn lemma_car_second(s: SimulationView, e: int)
    requires
        0 <= e < s.elevators.len(),
        forall|k: int| 0 <= k < s.elevators[e].cur_workers.len() ==> #[trigger] s.elevators[e].cur_workers[k] < s.workers.len(),
    ensures
        ({
            let c = s.elevators[e];
            let t = elevator_tick(s, e);
            let c2 = t.elevators[e];
            let rider_above = exists|k: int|
                0 <= k < c.cur_workers.len() && s.workers[#[trigger] c.cur_workers[k] as int].target_floor
                    > c.cur_floor;
            let rider_here = exists|k: int|
                0 <= k < c.cur_workers.len() && s.workers[#[trigger] c.cur_workers[k] as int].target_floor
                    == c.cur_floor + 1;
            let rider_beyond = exists|k: int|
                0 <= k < c.cur_workers.len() && s.workers[#[trigger] c.cur_workers[k] as int].target_floor
                    > c.cur_floor + 1;
            &&& t.elevators.len() == s.elevators.len()
            &&& forall|f: int| 0 <= f < s.elevators.len() && f != e ==> #[trigger] t.elevators[f] == s.elevators[f]
            &&& c.time_left > 0 ==> {
                &&& c2.cur_floor == c.cur_floor
                &&& c2.state == c.state
                &&& c2.time_left == c.time_left - 1
            }
            &&& c.time_left <= 0 && c.state == ElevatorState::GroundFill ==> {
                &&& c2.cur_floor == c.cur_floor
                &&& c2.cur_workers == c.cur_workers
                &&& if c.cur_workers.len() > 0 {
                    c2.state == ElevatorState::GoingUp && c2.time_left == ELEVATOR_TRAVEL_TIME
                } else {
                    c2.state == ElevatorState::GroundFill && c2.time_left == ELEVATOR_GROUND_FILL_TIME
                }
            }
            &&& c.time_left <= 0 && c.state == ElevatorState::GoingUp ==> {
                &&& c2.cur_floor == c.cur_floor + 1
                &&& if rider_here {
                    c2.state == ElevatorState::FloorOpen && c2.time_left == ELEVATOR_FLOOR_OPEN_TIME
                } else if rider_beyond {
                    c2.state == ElevatorState::GoingUp && c2.time_left == ELEVATOR_TRAVEL_TIME
                } else {
                    c2.state == ElevatorState::GoingDown && c2.time_left == ELEVATOR_TRAVEL_TIME
                }
            }
            &&& c.time_left <= 0 && c.state == ElevatorState::FloorOpen ==> {
                &&& c2.cur_floor == c.cur_floor
                &&& c2.cur_workers == c.cur_workers
                &&& c2.time_left == ELEVATOR_TRAVEL_TIME
                &&& if rider_above {
                    c2.state == ElevatorState::GoingUp
                } else {
                    c2.state == ElevatorState::GoingDown
                }
            }
            &&& c.time_left <= 0 && c.state == ElevatorState::GoingDown ==> {
                &&& c2.cur_floor == if c.cur_floor > 0 {
                    c.cur_floor - 1
                } else {
                    c.cur_floor
                }
                &&& c2.cur_workers == c.cur_workers
                &&& if c2.cur_floor == 0 {
                    c2.state == ElevatorState::GroundFill && c2.time_left == ELEVATOR_GROUND_FILL_TIME
                } else {
                    c2.state == ElevatorState::GoingDown && c2.time_left == ELEVATOR_TRAVEL_TIME
                }
            }
        }),
{
    let c = s.elevators[e];
    if c.time_left <= 0 && c.state == ElevatorState::FloorOpen {
        if crate::rules::any_above(c.cur_workers, s.workers, c.cur_floor) {
            let k = choose|k: int| 0 <= k < c.cur_workers.len() && s.workers[c.cur_workers[k] as int].target_floor > c.cur_floor;
            assert(s.workers[c.cur_workers[k] as int].target_floor > c.cur_floor);
        }
    }
    if c.time_left <= 0 && c.state == ElevatorState::GoingUp {
        let floor = c.cur_floor + 1;
        crate::lemmas::lemma_alight(c.cur_workers, s.workers, floor);
        let (off, stay) = crate::rules::alight(c.cur_workers, s.workers, floor);
        assert forall|x: usize| c.cur_workers.contains(x) <==> (off.contains(x) || stay.contains(x)) by {}
        if exists|k: int|
            0 <= k < c.cur_workers.len() && s.workers[#[trigger] c.cur_workers[k] as int].target_floor == floor {
            let k = choose|k: int|
                0 <= k < c.cur_workers.len() && s.workers[#[trigger] c.cur_workers[k] as int].target_floor == floor;
            let x = c.cur_workers[k];
            assert(c.cur_workers.contains(x));
            if !off.contains(x) {
                let j = choose|j: int| 0 <= j < stay.len() && stay[j] == x;
                assert(s.workers[stay[j] as int].target_floor != floor);
            }
            assert(off.len() > 0);
        } else if off.len() > 0 {
            assert(c.cur_workers.contains(off[0]));
            let k = choose|k: int| 0 <= k < c.cur_workers.len() && c.cur_workers[k] == off[0];
            assert(s.workers[c.cur_workers[k] as int].target_floor == floor);
        } else {
            assert(stay == c.cur_workers);
            if exists|k: int|
                0 <= k < c.cur_workers.len() && s.workers[#[trigger] c.cur_workers[k] as int].target_floor
                    > floor {
                let k = choose|k: int|
                    0 <= k < c.cur_workers.len() && s.workers[#[trigger] c.cur_workers[k] as int].target_floor
                        > floor;
                assert(s.workers[stay[k] as int].target_floor > floor);
            }
            if crate::rules::any_above(stay, s.workers, floor) {
                let k = choose|k: int| 0 <= k < stay.len() && s.workers[stay[k] as int].target_floor > floor;
                assert(s.workers[c.cur_workers[k] as int].target_floor > floor);
            }
        }
    }
}

} // verus!
