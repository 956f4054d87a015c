use vstd::prelude::*;
use crate::config::{ELEVATOR_FLOOR_OPEN_TIME, ELEVATOR_GROUND_FILL_TIME, ELEVATOR_TRAVEL_TIME};

verus! {

/// What an elevator is doing.
#[derive(PartialEq, Eq, Structural, Copy, Clone, Debug, Hash)]
pub enum ElevatorState {
    /// Waiting in the lobby, letting workers board.
    GroundFill,
    GoingUp,
    GoingDown,
    /// Doors open on a floor where workers got off.
    FloorOpen,
}

/// How long an elevator stays in a state before it acts again.
pub open spec fn state_duration(state: ElevatorState) -> i32 {
    match state {
        ElevatorState::GroundFill => ELEVATOR_GROUND_FILL_TIME,
        ElevatorState::GoingUp => ELEVATOR_TRAVEL_TIME,
        ElevatorState::GoingDown => ELEVATOR_TRAVEL_TIME,
        ElevatorState::FloorOpen => ELEVATOR_FLOOR_OPEN_TIME,
    }
}

impl ElevatorState {
    pub fn duration(&self) -> (d: i32)
        ensures
            d == state_duration(*self),
    {
        match self {
            ElevatorState::GroundFill => ELEVATOR_GROUND_FILL_TIME,
            ElevatorState::GoingUp | ElevatorState::GoingDown => ELEVATOR_TRAVEL_TIME,
            ElevatorState::FloorOpen => ELEVATOR_FLOOR_OPEN_TIME,
        }
    }
}

/// One elevator car.
#[derive(Clone, Debug)]
pub struct Elevator {
    /// Indices of the workers riding in the car.
    pub cur_workers: Vec<usize>,
    /// Floor the car is at; the lobby is floor 0.
    pub cur_floor: i32,
    pub state: ElevatorState,
    /// Seconds left before the car acts again.
    pub time_left_in_action: i32,
}

/// The mathematical value of an [`Elevator`].
pub struct ElevatorView {
    pub cur_workers: Seq<usize>,
    pub cur_floor: int,
    pub state: ElevatorState,
    pub time_left: int,
}

impl View for Elevator {
    type V = ElevatorView;

    open spec fn view(&self) -> ElevatorView {
        ElevatorView {
            cur_workers: self.cur_workers@,
            cur_floor: self.cur_floor as int,
            state: self.state,
            time_left: self.time_left_in_action as int,
        }
    }
}

/// An empty car in the lobby, starting to board.
pub open spec fn fresh_elevator() -> ElevatorView {
    ElevatorView {
        cur_workers: Seq::empty(),
        cur_floor: 0,
        state: ElevatorState::GroundFill,
        time_left: ELEVATOR_GROUND_FILL_TIME as int,
    }
}

/// `e` with its state set to `state` and its timer restarted for that state.
pub open spec fn with_state(e: ElevatorView, state: ElevatorState) -> ElevatorView {
    ElevatorView { state: state, time_left: state_duration(state) as int, ..e }
}

impl Elevator {
    pub fn new() -> (e: Elevator)
        ensures
            e@ == fresh_elevator(),
    {
        Elevator {
            cur_workers: Vec::new(),
            cur_floor: 0,
            time_left_in_action: ELEVATOR_GROUND_FILL_TIME,
            state: ElevatorState::GroundFill,
        }
    }

    pub fn set_state(&mut self, state: ElevatorState)
        ensures
            final(self)@ == with_state(old(self)@, state),
    {
        self.state = state;
        self.time_left_in_action = state.duration();
    }
}

} // verus!
