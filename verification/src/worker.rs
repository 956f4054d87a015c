use vstd::prelude::*;

verus! {

/// A worker heading to an office floor. Times are seconds since the start of the
/// simulated morning.
#[derive(Clone, Copy, Debug)]
pub struct Worker {
    /// When the worker enters the lobby.
    pub arrival_time: isize,
    /// Floor of the worker's office; the lobby is floor 0.
    pub target_floor: i32,
    /// When the worker got off at their floor, once they have.
    pub clock_in_time: Option<isize>,
    /// The elevator the worker must take, if they are bound to one.
    pub elevator_assignment: Option<usize>,
}

/// Whether worker `w` may board elevator `e`.
pub open spec fn may_board(w: Worker, e: int) -> bool {
    match w.elevator_assignment {
        Some(a) => a == e,
        None => true,
    }
}

/// Whether `w` has clocked in.
pub open spec fn is_clocked_in(w: Worker) -> bool {
    w.clock_in_time is Some
}

/// Number of workers in `ws` who have clocked in.
pub open spec fn num_clocked_in(ws: Seq<Worker>) -> nat
    decreases ws.len(),
{
    if ws.len() == 0 {
        0
    } else {
        num_clocked_in(ws.drop_last()) + if is_clocked_in(ws.last()) {
            1nat
        } else {
            0nat
        }
    }
}

/// The highest floor any worker in `ws` is bound for (zero if there is none higher).
pub open spec fn max_target(ws: Seq<Worker>) -> int
    decreases ws.len(),
{
    if ws.len() == 0 {
        0
    } else {
        let rest = max_target(ws.drop_last());
        if ws.last().target_floor > rest {
            ws.last().target_floor as int
        } else {
            rest
        }
    }
}

} // verus!
