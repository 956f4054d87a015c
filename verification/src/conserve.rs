//! Conservation of people on any state whose lists are consistent: a second moves
//! workers from the lobby into cars and from cars to their desks, and loses, copies
//! or invents nobody.
use vstd::prelude::*;
use crate::config::ELEVATOR_CAPACITY;
use crate::elevator::{ElevatorState, ElevatorView};
use crate::invariants::{in_car, placed, riding};
use crate::lemmas::{lemma_alight, lemma_board, lemma_clock_in_all_count};
use crate::rules::{alight, board, clock_in_all, elevator_tick, tick_elevators, with_elevator, SimulationView};
use crate::worker::{is_clocked_in, num_clocked_in, Worker};

verus! {

/// The lobby and the cars list each worker at most once, only workers of the
/// simulation, and only workers who have not clocked in; no car is over capacity.
pub open spec fn distinct_people(s: SimulationView) -> bool {
    &&& s.workers.len() <= usize::MAX
    &&& forall|k: int| 0 <= k < s.waiting.len() ==> #[trigger] s.waiting[k] < s.workers.len()
    &&& s.waiting.no_duplicates()
    &&& forall|e: int| 0 <= e < s.elevators.len() ==> {
        let c = #[trigger] s.elevators[e];
        &&& c.cur_workers.no_duplicates()
        &&& c.cur_workers.len() <= ELEVATOR_CAPACITY
        &&& forall|k: int| 0 <= k < c.cur_workers.len() ==> #[trigger] c.cur_workers[k] < s.workers.len()
    }
    &&& forall|e1: int, e2: int, i: usize|
        0 <= e1 < s.elevators.len() && 0 <= e2 < s.elevators.len() && e1 != e2 ==> !(
        #[trigger] riding(s, e1, i) && #[trigger] riding(s, e2, i))
    &&& forall|e: int, i: usize|
        0 <= e < s.elevators.len() ==> !(#[trigger] riding(s, e, i) && s.waiting.contains(i))
    &&& forall|i: usize| i < s.workers.len() && #[trigger] placed(s, i) ==> !is_clocked_in(s.workers[i as int])
}

/// Worker `i` clocked in between `s` and `t`.
pub open spec fn newly_clocked(s: SimulationView, t: SimulationView, i: usize) -> bool {
    is_clocked_in(t.workers[i as int]) && !is_clocked_in(s.workers[i as int])
}

/// What a stretch of time from `s` to `t` conserves: every worker listed in `s` is
/// listed in `t` or clocked in meanwhile, nobody else is listed in `t`, unlisted
/// workers are untouched, and the count rises by the number who clocked in.
pub open spec fn conserved(s: SimulationView, t: SimulationView) -> bool {
    &&& t.workers.len() == s.workers.len()
    &&& t.elevators.len() == s.elevators.len()
    &&& forall|i: usize| i < s.workers.len() ==> (#[trigger] placed(s, i) <==> (placed(t, i) || newly_clocked(s, t, i)))
    &&& forall|i: usize| i < s.workers.len() && !#[trigger] placed(s, i) ==> t.workers[i as int] == s.workers[i as int]
    &&& t.clocked_in - s.clocked_in == num_clocked_in(t.workers) - num_clocked_in(s.workers)
}

proof fn lemma_tick_conserve(s: SimulationView, e: int)
    requires
        distinct_people(s),
        0 <= e < s.elevators.len(),
    ensures
        distinct_people(elevator_tick(s, e)),
        conserved(s, elevator_tick(s, e)),
{
    let t = elevator_tick(s, e);
    let c = s.elevators[e];
    let ws = s.workers;
    let c2 = t.elevators[e];
    assert(forall|f: int| 0 <= f < s.elevators.len() && f != e ==> t.elevators[f] == s.elevators[f]);
    if c.time_left > 0 && c.state == ElevatorState::GroundFill {
        let space = ELEVATOR_CAPACITY - c.cur_workers.len();
        lemma_board(s.waiting, ws, e, space);
        let (b, r) = board(s.waiting, ws, e, space);
        let riders = c.cur_workers + b;
        assert(c2.cur_workers == riders);
        assert(t.waiting == r);
        assert(t.workers == ws);
        assert forall|x: usize| riders.contains(x) <==> (c.cur_workers.contains(x) || b.contains(x)) by {
            if riders.contains(x) {
                let k = choose|k: int| 0 <= k < riders.len() && riders[k] == x;
                if k >= c.cur_workers.len() {
                    assert(b[k - c.cur_workers.len()] == x);
                }
            }
            if b.contains(x) {
                let k = choose|k: int| 0 <= k < b.len() && b[k] == x;
                assert(riders[k + c.cur_workers.len()] == x);
            }
            if c.cur_workers.contains(x) {
                let k = choose|k: int| 0 <= k < c.cur_workers.len() && c.cur_workers[k] == x;
                assert(riders[k] == x);
            }
        }
        assert forall|f: int, i: usize| 0 <= f < s.elevators.len() && f != e implies riding(t, f, i) == riding(s, f, i) by {}
        assert forall|i: usize| riding(t, e, i) == (riding(s, e, i) || b.contains(i)) by {}
        assert forall|i: usize| placed(t, i) == placed(s, i) by {
            if placed(t, i) && !t.waiting.contains(i) {
                let f = choose|f: int| 0 <= f < t.elevators.len() && #[trigger] riding(t, f, i);
                if f != e {
                    assert(riding(s, f, i));
                } else if !riding(s, e, i) {
                    assert(s.waiting.contains(i));
                }
            }
            if placed(s, i) {
                if s.waiting.contains(i) {
                    if b.contains(i) {
                        assert(riding(t, e, i));
                    }
                } else {
                    let f = choose|f: int| 0 <= f < s.elevators.len() && #[trigger] riding(s, f, i);
                    assert(riding(t, f, i));
                }
            }
        }
        assert forall|p: int, q: int| 0 <= p < q < riders.len() implies riders[p] != riders[q] by {
            if p < c.cur_workers.len() && q >= c.cur_workers.len() {
                assert(b.contains(riders[q]));
                assert(riding(s, e, riders[p]));
            } else if p >= c.cur_workers.len() {
                assert(riders[p] == b[p - c.cur_workers.len()]);
                assert(riders[q] == b[q - c.cur_workers.len()]);
            }
        }
        assert forall|k: int| 0 <= k < riders.len() implies #[trigger] riders[k] < ws.len() by {
            if k >= c.cur_workers.len() {
                assert(b.contains(riders[k]));
                let j = choose|j: int| 0 <= j < s.waiting.len() && s.waiting[j] == riders[k];
            }
        }
        assert forall|k: int| 0 <= k < r.len() implies #[trigger] r[k] < ws.len() by {
            assert(r.contains(r[k]));
            let j = choose|j: int| 0 <= j < s.waiting.len() && s.waiting[j] == r[k];
        }
        assert forall|e1: int, e2: int, i: usize|
            0 <= e1 < s.elevators.len() && 0 <= e2 < s.elevators.len() && e1 != e2 implies !(
            #[trigger] riding(t, e1, i) && #[trigger] riding(t, e2, i)) by {
            if e1 == e && riding(t, e1, i) && !riding(s, e1, i) {
                assert(s.waiting.contains(i));
                assert(!riding(s, e2, i));
            }
            if e2 == e && riding(t, e2, i) && !riding(s, e2, i) {
                assert(s.waiting.contains(i));
                assert(!riding(s, e1, i));
            }
        }
        assert forall|f: int, i: usize| 0 <= f < s.elevators.len() implies !(#[trigger] riding(t, f, i) && t.waiting.contains(i)) by {
            if riding(t, f, i) && t.waiting.contains(i) {
                assert(s.waiting.contains(i));
                if f == e && !riding(s, e, i) {
                    assert(b.contains(i));
                }
            }
        }
    } else if c.time_left <= 0 && c.state == ElevatorState::GoingUp {
        let floor = c.cur_floor + 1;
        lemma_alight(c.cur_workers, ws, floor);
        let (off, stay) = alight(c.cur_workers, ws, floor);
        let ws2 = t.workers;
        assert(c2.cur_workers == stay);
        assert(t.waiting == s.waiting);
        assert forall|k: int| 0 <= k < off.len() implies off[k] < ws.len()
            && !is_clocked_in(#[trigger] ws[off[k] as int]) by {
            assert(off.contains(off[k]));
            assert(c.cur_workers.contains(off[k]));
            let j = choose|j: int| 0 <= j < c.cur_workers.len() && c.cur_workers[j] == off[k];
            assert(riding(s, e, off[k]));
            assert(placed(s, off[k]));
        }
        if off.len() > 0 {
            assert(ws2 == clock_in_all(ws, off, s.cur_time));
            lemma_clock_in_all_count(ws, off, s.cur_time);
        } else {
            assert(ws2 == ws);
        }
        assert forall|f: int, i: usize| 0 <= f < s.elevators.len() && f != e implies riding(t, f, i) == riding(s, f, i) by {}
        assert forall|i: usize| riding(t, e, i) implies riding(s, e, i) by {}
        assert forall|i: usize| placed(t, i) implies placed(s, i) && !off.contains(i) by {
            if off.contains(i) {
                assert(c.cur_workers.contains(i));
                assert(riding(s, e, i));
            }
            if t.waiting.contains(i) {
                assert(s.waiting.contains(i));
            } else {
                let f = choose|f: int| 0 <= f < t.elevators.len() && #[trigger] riding(t, f, i);
                assert(riding(s, f, i));
                if f == e {
                    assert(stay.contains(i));
                }
            }
        }
        assert forall|i: usize| placed(s, i) && !off.contains(i) implies placed(t, i) by {
            if !s.waiting.contains(i) {
                let f = choose|f: int| 0 <= f < s.elevators.len() && #[trigger] riding(s, f, i);
                assert(riding(t, f, i));
            }
        }
        assert forall|i: usize| off.contains(i) implies placed(s, i) by {
            assert(c.cur_workers.contains(i));
            assert(riding(s, e, i));
        }
        assert forall|i: int| 0 <= i < ws.len() implies (#[trigger] ws2[i]) == if off.len() > 0 && off.contains(i as usize) {
            crate::rules::clocked(ws[i], s.cur_time)
        } else {
            ws[i]
        } by {}
        assert forall|k: int| 0 <= k < stay.len() implies #[trigger] stay[k] < ws.len() by {
            assert(stay.contains(stay[k]));
            let j = choose|j: int| 0 <= j < c.cur_workers.len() && c.cur_workers[j] == stay[k];
        }
        assert forall|e1: int, e2: int, i: usize|
            0 <= e1 < s.elevators.len() && 0 <= e2 < s.elevators.len() && e1 != e2 implies !(
            #[trigger] riding(t, e1, i) && #[trigger] riding(t, e2, i)) by {
            if riding(t, e1, i) && riding(t, e2, i) {
                assert(riding(s, e1, i) && riding(s, e2, i));
            }
        }
        assert forall|f: int, i: usize| 0 <= f < s.elevators.len() implies !(#[trigger] riding(t, f, i) && t.waiting.contains(i)) by {
            if riding(t, f, i) {
                assert(riding(s, f, i));
            }
        }
        assert forall|i: usize| i < t.workers.len() && #[trigger] placed(t, i) implies !is_clocked_in(t.workers[i as int]) by {
            assert(placed(s, i));
        }
    } else {
        assert(c2.cur_workers == c.cur_workers);
        assert(t.workers == ws);
        assert(t.waiting == s.waiting);
        assert forall|f: int, i: usize| 0 <= f < s.elevators.len() implies riding(t, f, i) == riding(s, f, i) by {
            if f == e {
                assert(t.elevators[f].cur_workers == s.elevators[f].cur_workers);
            }
        }
        assert forall|i: usize| placed(t, i) == placed(s, i) by {
            if in_car(t, i) {
                let f = choose|f: int| 0 <= f < t.elevators.len() && #[trigger] riding(t, f, i);
                assert(riding(s, f, i));
            }
            if in_car(s, i) {
                let f = choose|f: int| 0 <= f < s.elevators.len() && #[trigger] riding(s, f, i);
                assert(riding(t, f, i));
            }
        }
    }
    assert forall|f: int| 0 <= f < t.elevators.len() implies {
        let cf = #[trigger] t.elevators[f];
        &&& cf.cur_workers.no_duplicates()
        &&& cf.cur_workers.len() <= ELEVATOR_CAPACITY
        &&& forall|k: int| 0 <= k < cf.cur_workers.len() ==> #[trigger] cf.cur_workers[k] < t.workers.len()
    } by {
        if f != e {
            assert(t.elevators[f] == s.elevators[f]);
        }
    }
}

/// Cars `0 .. k` taking their second conserve the people and keep the lists consistent.
pub proof fn lemma_ticks_conserve(s: SimulationView, k: nat)
    requires
        distinct_people(s),
        k <= s.elevators.len(),
    ensures
        distinct_people(tick_elevators(s, k)),
        conserved(s, tick_elevators(s, k)),
    decreases k,
{
    if k == 0 {
        assert(tick_elevators(s, k) == s);
    } else {
        lemma_ticks_conserve(s, (k - 1) as nat);
        let p = tick_elevators(s, (k - 1) as nat);
        let t = tick_elevators(s, k);
        lemma_tick_conserve(p, k - 1);
        assert forall|i: usize| i < s.workers.len() implies (#[trigger] placed(s, i) <==> (placed(t, i) || newly_clocked(s, t, i))) by {
            assert(placed(s, i) <==> (placed(p, i) || newly_clocked(s, p, i)));
            assert(placed(p, i) <==> (placed(t, i) || newly_clocked(p, t, i)));
            if newly_clocked(s, p, i) {
                assert(!placed(p, i));
            }
            if placed(s, i) {
                assert(!is_clocked_in(s.workers[i as int]));
            }
            if !placed(p, i) {
                assert(t.workers[i as int] == p.workers[i as int]);
            }
        }
        assert forall|i: usize| i < s.workers.len() && !#[trigger] placed(s, i) implies t.workers[i as int] == s.workers[i as int] by {
            assert(placed(s, i) <==> (placed(p, i) || newly_clocked(s, p, i)));
            assert(!placed(p, i));
            assert(t.workers[i as int] == p.workers[i as int]);
        }
    }
}

} // verus!
