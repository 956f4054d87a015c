//! Who boards a car in the lobby (first come, first served, as many as there are
//! free places, and only workers whom no binding keeps off that car), and who gets
//! off and clocks in on the way up.
use vstd::prelude::*;
use crate::config::ELEVATOR_CAPACITY;
use crate::elevator::ElevatorState;
use crate::lemmas::{lemma_alight, lemma_cons_contains};
use crate::rules::{alight, board, clock_in_all, elevator_tick, SimulationView};
use crate::worker::{may_board, Worker};

verus! {

proof fn lemma_may_board_allowed(w: Worker, e: int)
    requires
        0 <= e <= usize::MAX,
    ensures
        may_board(w, e) == (w.elevator_assignment is None || w.elevator_assignment == Some(e as usize)),
{
}

/// Boarding elevator `e` with `space` free places takes, from the waiting line, the
/// first workers allowed on `e` in the order they came, as many as fit:
/// - everyone taken was waiting and is unbound or bound to `e`;
/// - no more are taken than there are free places;
/// - while a place stays free, every waiting worker allowed on `e` is taken;
/// - nobody allowed on `e` is passed over for someone who came later;
/// - the line keeps exactly the waiting workers who were not taken.
pub proof fn lemma_board_first_come(waiting: Seq<usize>, workers: Seq<Worker>, e: int, space: int)
    requires
        waiting.no_duplicates(),
        0 <= e <= usize::MAX,
        0 <= space,
    ensures
        ({
            let (b, r) = board(waiting, workers, e, space);
            &&& forall|k: int| 0 <= k < b.len() ==> waiting.contains(#[trigger] b[k])
                && (workers[b[k] as int].elevator_assignment is None
                || workers[b[k] as int].elevator_assignment == Some(e as usize))
            &&& b.len() <= space
            &&& b.len() < space ==> forall|x: usize| #[trigger] waiting.contains(x)
                && (workers[x as int].elevator_assignment is None
                || workers[x as int].elevator_assignment == Some(e as usize)) ==> b.contains(x)
            &&& forall|p: int, q: int| 0 <= p < q < waiting.len() && b.contains(#[trigger] waiting[q])
                && (workers[#[trigger] waiting[p] as int].elevator_assignment is None
                || workers[waiting[p] as int].elevator_assignment == Some(e as usize)) ==> b.contains(waiting[p])
            &&& forall|x: usize| #[trigger] r.contains(x) <==> (waiting.contains(x) && !b.contains(x))
        }),
    decreases waiting.len(),
{
    if waiting.len() > 0 {
        let w = waiting[0];
        let rest = waiting.drop_first();
        assert(waiting =~= seq![w] + rest);
        assert(!rest.contains(w));
        assert forall|x: usize| waiting.contains(x) <==> (x == w || rest.contains(x)) by {
            lemma_cons_contains(w, rest, x);
        }
        lemma_may_board_allowed(workers[w as int], e);
        if space > 0 && may_board(workers[w as int], e) {
            lemma_board_first_come(rest, workers, e, space - 1);
            let (b0, r0) = board(rest, workers, e, space - 1);
            let b = seq![w] + b0;
            assert forall|x: usize| b.contains(x) <==> (x == w || b0.contains(x)) by {
                lemma_cons_contains(w, b0, x);
            }
            assert forall|k: int| 0 <= k < b.len() implies waiting.contains(#[trigger] b[k])
                && (workers[b[k] as int].elevator_assignment is None
                || workers[b[k] as int].elevator_assignment == Some(e as usize)) by {
                if k > 0 {
                    assert(b[k] == b0[k - 1]);
                    assert(rest.contains(b0[k - 1]));
                }
            }
            assert forall|p: int, q: int| 0 <= p < q < waiting.len() && b.contains(#[trigger] waiting[q])
                && (workers[#[trigger] waiting[p] as int].elevator_assignment is None
                || workers[waiting[p] as int].elevator_assignment == Some(e as usize)) implies b.contains(waiting[p]) by {
                if p > 0 {
                    assert(waiting[q] == rest[q - 1]);
                    assert(waiting[p] == rest[p - 1]);
                    assert(rest.contains(waiting[q]));
                    assert(b0.contains(rest[q - 1]));
                }
            }
        } else {
            lemma_board_first_come(rest, workers, e, space);
            let (b0, r0) = board(rest, workers, e, space);
            let r = seq![w] + r0;
            assert forall|x: usize| r.contains(x) <==> (x == w || r0.contains(x)) by {
                lemma_cons_contains(w, r0, x);
            }
            assert forall|x: usize| b0.contains(x) implies rest.contains(x) by {
                let k = choose|k: int| 0 <= k < b0.len() && b0[k] == x;
                assert(rest.contains(b0[k]));
            }
            assert forall|p: int, q: int| 0 <= p < q < waiting.len() && b0.contains(#[trigger] waiting[q])
                && (workers[#[trigger] waiting[p] as int].elevator_assignment is None
                || workers[waiting[p] as int].elevator_assignment == Some(e as usize)) implies b0.contains(waiting[p]) by {
                assert(waiting[q] == rest[q - 1]);
                if p > 0 {
                    assert(waiting[p] == rest[p - 1]);
                } else {
                    assert(b0.len() > 0);
                }
            }
        }
    }
}

/// A car boarding in the lobby with a place free never leaves behind, empty-handed,
/// a waiting worker who is unbound or bound to it: it takes at least one worker.
/// In particular an unbound worker may board every elevator.
pub proof fn lemma_lobby_takes_someone(s: SimulationView, e: int, x: usize)
    requires
        0 <= e < s.elevators.len(),
        e <= usize::MAX,
        s.elevators[e].state == ElevatorState::GroundFill,
        s.elevators[e].time_left > 0,
        s.elevators[e].cur_workers.len() < ELEVATOR_CAPACITY,
        s.waiting.no_duplicates(),
        s.waiting.contains(x),
        x < s.workers.len(),
        s.workers[x as int].elevator_assignment is None || s.workers[x as int].elevator_assignment == Some(
            e as usize,
        ),
    ensures
        elevator_tick(s, e).elevators[e].cur_workers.len() > s.elevators[e].cur_workers.len(),
        elevator_tick(s, e).elevators[e].cur_workers.subrange(0, s.elevators[e].cur_workers.len() as int)
            == s.elevators[e].cur_workers,
{
    let el = s.elevators[e];
    let space = ELEVATOR_CAPACITY - el.cur_workers.len();
    lemma_board_first_come(s.waiting, s.workers, e, space);
    let (b, r) = board(s.waiting, s.workers, e, space);
    if b.len() == 0 {
        assert(b.contains(x));
    }
    let t = elevator_tick(s, e);
    assert(t.elevators[e].cur_workers == el.cur_workers + b);
    assert((el.cur_workers + b).subrange(0, el.cur_workers.len() as int) =~= el.cur_workers);
}

/// One second of car `e` clocks in, at the current second, exactly the riders of that
/// car whose office is on the floor the car reaches going up in that second, and
/// changes nothing else about any worker.
pub proof fn lemma_clock_in_on_arrival(s: SimulationView, e: int)
    requires
        0 <= e < s.elevators.len(),
        s.workers.len() <= usize::MAX,
    ensures
        elevator_tick(s, e).workers.len() == s.workers.len(),
        forall|i: int| 0 <= i < s.workers.len() ==> #[trigger] elevator_tick(s, e).workers[i] == if s.elevators[e].state
            == ElevatorState::GoingUp && s.elevators[e].time_left <= 0 && s.elevators[e].cur_workers.contains(
            i as usize,
        ) && s.workers[i].target_floor == s.elevators[e].cur_floor + 1 {
            Worker { clock_in_time: Some(s.cur_time as isize), ..s.workers[i] }
        } else {
            s.workers[i]
        },
{
    let c = s.elevators[e];
    let t = elevator_tick(s, e);
    if c.state == ElevatorState::GoingUp && c.time_left <= 0 {
        let floor = c.cur_floor + 1;
        lemma_alight(c.cur_workers, s.workers, floor);
        let (off, stay) = alight(c.cur_workers, s.workers, floor);
        assert forall|i: int| 0 <= i < s.workers.len() implies off.contains(i as usize) == (c.cur_workers.contains(
            i as usize,
        ) && s.workers[i].target_floor == floor) by {
            let x = i as usize;
            if off.contains(x) {
                let k = choose|k: int| 0 <= k < off.len() && off[k] == x;
                assert(s.workers[off[k] as int].target_floor == floor);
            }
            if c.cur_workers.contains(x) && s.workers[i].target_floor == floor && !off.contains(x) {
                assert(stay.contains(x));
                let k = choose|k: int| 0 <= k < stay.len() && stay[k] == x;
                assert(s.workers[stay[k] as int].target_floor != floor);
            }
        }
        if off.len() > 0 {
            assert(t.workers == clock_in_all(s.workers, off, s.cur_time));
        } else {
            assert(t.workers == s.workers);
        }
    }
}

} // verus!
