use vstd::prelude::*;

verus! {

/// Number of elevators in the building.
pub const ELEVATORS: usize = 4;

/// A worker who clocks in after this many seconds (counted from the start of the
/// simulated morning) is late.
pub const LATE_AFTER_SECS: isize = 5400;

/// Number of workers an elevator carries at once.
pub const ELEVATOR_CAPACITY: usize = 10;

/// Seconds an elevator spends boarding in the lobby.
pub const ELEVATOR_GROUND_FILL_TIME: i32 = 15;

/// Seconds an elevator keeps its doors open on a floor where workers got off.
pub const ELEVATOR_FLOOR_OPEN_TIME: i32 = 10;

/// Seconds an elevator needs to travel one floor.
pub const ELEVATOR_TRAVEL_TIME: i32 = 5;

/// Number of floors above the lobby.
pub const FLOORS: usize = 6;

} // verus!
