//! Facts about the building blocks of the rules: the lobby and car lists split
//! without losing or duplicating anyone, and clocking in counts correctly.
use vstd::prelude::*;
use crate::rules::{
    alight, arrivals_from, board, clock_in_all, clocked, initial_waiting, sorted_by_arrival,
};
use crate::worker::{is_clocked_in, max_target, may_board, num_clocked_in, Worker};

verus! {

/// Boarding moves workers from the waiting list into the car and loses none.
pub proof fn lemma_board(waiting: Seq<usize>, workers: Seq<Worker>, e: int, space: int)
    ensures
        ({
            let (b, r) = board(waiting, workers, e, space);
            &&& forall|x: usize| waiting.contains(x) <==> (b.contains(x) || r.contains(x))
            &&& waiting.no_duplicates() ==> b.no_duplicates() && r.no_duplicates()
            &&& waiting.no_duplicates() ==> forall|x: usize| !(b.contains(x) && r.contains(x))
            &&& b.len() <= if space > 0 { space } else { 0 }
            &&& b.len() + r.len() == waiting.len()
            &&& forall|k: int| 0 <= k < b.len() ==> may_board(workers[b[k] as int], e)
            &&& b.len() == 0 ==> r == waiting
            &&& (space > 0 && exists|k: int| 0 <= k < waiting.len() && may_board(workers[waiting[k] as int], e))
                ==> b.len() > 0
        }),
    decreases waiting.len(),
{
    if waiting.len() > 0 {
        let w = waiting[0];
        let rest = waiting.drop_first();
        assert(waiting =~= seq![w] + rest);
        if space > 0 && may_board(workers[w as int], e) {
            lemma_board(rest, workers, e, space - 1);
            let (b0, r0) = board(rest, workers, e, space - 1);
            let b = seq![w] + b0;
            assert forall|x: usize| waiting.contains(x) <==> (b.contains(x) || r0.contains(x)) by {
                lemma_cons_contains(w, rest, x);
                lemma_cons_contains(w, b0, x);
            }
            if waiting.no_duplicates() {
                assert(!rest.contains(w));
                assert forall|i: int, j: int| 0 <= i < j < b.len() implies b[i] != b[j] by {
                    if i == 0 {
                        assert(b0.contains(b[j]));
                    }
                }
                assert forall|x: usize| !(b.contains(x) && r0.contains(x)) by {
                    lemma_cons_contains(w, b0, x);
                }
            }
            assert forall|k: int| 0 <= k < b.len() implies may_board(workers[b[k] as int], e) by {
                if k > 0 {
                    assert(b[k] == b0[k - 1]);
                }
            }
        } else {
            lemma_board(rest, workers, e, space);
            let (b0, r0) = board(rest, workers, e, space);
            let r = seq![w] + r0;
            if space > 0 && exists|k: int| 0 <= k < waiting.len() && may_board(workers[waiting[k] as int], e) {
                let k = choose|k: int| 0 <= k < waiting.len() && may_board(workers[waiting[k] as int], e);
                assert(k > 0);
                assert(rest[k - 1] == waiting[k]);
            }
            if b0.len() == 0 {
                assert(r =~= waiting);
            }
            assert forall|x: usize| waiting.contains(x) <==> (b0.contains(x) || r.contains(x)) by {
                lemma_cons_contains(w, rest, x);
                lemma_cons_contains(w, r0, x);
            }
            if waiting.no_duplicates() {
                assert(!rest.contains(w));
                assert forall|i: int, j: int| 0 <= i < j < r.len() implies r[i] != r[j] by {
                    if i == 0 {
                        assert(r0.contains(r[j]));
                    }
                }
                assert forall|x: usize| !(b0.contains(x) && r.contains(x)) by {
                    lemma_cons_contains(w, r0, x);
                }
            }
        }
    }
}

/// Alighting splits the riders into those who get off and those who ride on.
pub proof fn lemma_alight(riders: Seq<usize>, workers: Seq<Worker>, floor: int)
    ensures
        ({
            let (off, stay) = alight(riders, workers, floor);
            &&& forall|x: usize| riders.contains(x) <==> (off.contains(x) || stay.contains(x))
            &&& riders.no_duplicates() ==> off.no_duplicates() && stay.no_duplicates()
            &&& riders.no_duplicates() ==> forall|x: usize| !(off.contains(x) && stay.contains(x))
            &&& off.len() + stay.len() == riders.len()
            &&& forall|k: int| 0 <= k < off.len() ==> workers[off[k] as int].target_floor == floor
            &&& forall|k: int| 0 <= k < stay.len() ==> workers[stay[k] as int].target_floor != floor
            &&& off.len() == 0 ==> stay == riders
        }),
    decreases riders.len(),
{
    if riders.len() > 0 {
        let w = riders[0];
        let rest = riders.drop_first();
        assert(riders =~= seq![w] + rest);
        lemma_alight(rest, workers, floor);
        let (o0, s0) = alight(rest, workers, floor);
        if workers[w as int].target_floor == floor {
            let off = seq![w] + o0;
            assert forall|x: usize| riders.contains(x) <==> (off.contains(x) || s0.contains(x)) by {
                lemma_cons_contains(w, rest, x);
                lemma_cons_contains(w, o0, x);
            }
            if riders.no_duplicates() {
                assert(!rest.contains(w));
                assert forall|i: int, j: int| 0 <= i < j < off.len() implies off[i] != off[j] by {
                    if i == 0 {
                        assert(o0.contains(off[j]));
                    }
                }
                assert forall|x: usize| !(off.contains(x) && s0.contains(x)) by {
                    lemma_cons_contains(w, o0, x);
                }
            }
            assert forall|k: int| 0 <= k < off.len() implies workers[off[k] as int].target_floor == floor by {
                if k > 0 {
                    assert(off[k] == o0[k - 1]);
                }
            }
        } else {
            let stay = seq![w] + s0;
            assert forall|x: usize| riders.contains(x) <==> (o0.contains(x) || stay.contains(x)) by {
                lemma_cons_contains(w, rest, x);
                lemma_cons_contains(w, s0, x);
            }
            if riders.no_duplicates() {
                assert(!rest.contains(w));
                assert forall|i: int, j: int| 0 <= i < j < stay.len() implies stay[i] != stay[j] by {
                    if i == 0 {
                        assert(s0.contains(stay[j]));
                    }
                }
                assert forall|x: usize| !(o0.contains(x) && stay.contains(x)) by {
                    lemma_cons_contains(w, s0, x);
                }
            }
            assert forall|k: int| 0 <= k < stay.len() implies workers[stay[k] as int].target_floor != floor by {
                if k > 0 {
                    assert(stay[k] == s0[k - 1]);
                }
            }
        }
    }
}

/// Membership in a sequence with one element put in front.
pub proof fn lemma_cons_contains(w: usize, s: Seq<usize>, x: usize)
    ensures
        (seq![w] + s).contains(x) <==> (x == w || s.contains(x)),
{
    let t = seq![w] + s;
    if x == w {
        assert(t[0] == w);
    }
    if s.contains(x) {
        let k = choose|k: int| 0 <= k < s.len() && s[k] == x;
        assert(t[k + 1] == x);
    }
    if t.contains(x) {
        let k = choose|k: int| 0 <= k < t.len() && t[k] == x;
        if k > 0 {
            assert(s[k - 1] == x);
        }
    }
}


/// No more workers are clocked in than there are workers.
pub proof fn lemma_num_clocked_in_bound(ws: Seq<Worker>)
    ensures
        num_clocked_in(ws) <= ws.len(),
    decreases ws.len(),
{
    if ws.len() > 0 {
        lemma_num_clocked_in_bound(ws.drop_last());
    }
}

/// Every worker clocked in means the count is the number of workers.
pub proof fn lemma_num_clocked_in_all(ws: Seq<Worker>)
    ensures
        num_clocked_in(ws) == ws.len() <==> forall|i: int| 0 <= i < ws.len() ==> is_clocked_in(#[trigger] ws[i]),
    decreases ws.len(),
{
    lemma_num_clocked_in_bound(ws);
    if ws.len() > 0 {
        let d = ws.drop_last();
        lemma_num_clocked_in_all(d);
        lemma_num_clocked_in_bound(d);
        if forall|i: int| 0 <= i < ws.len() ==> is_clocked_in(#[trigger] ws[i]) {
            assert forall|i: int| 0 <= i < d.len() implies is_clocked_in(#[trigger] d[i]) by {
                assert(d[i] == ws[i]);
            }
            assert(is_clocked_in(ws[ws.len() - 1]));
        }
        if num_clocked_in(ws) == ws.len() {
            assert forall|i: int| 0 <= i < ws.len() implies is_clocked_in(#[trigger] ws[i]) by {
                if i < ws.len() - 1 {
                    assert(d[i] == ws[i]);
                }
            }
        }
    }
}

/// Replacing one worker changes the count by what the two workers contribute.
pub proof fn lemma_num_clocked_in_update(ws: Seq<Worker>, i: int, w: Worker)
    requires
        0 <= i < ws.len(),
    ensures
        num_clocked_in(ws.update(i, w)) + (if is_clocked_in(ws[i]) { 1int } else { 0int })
            == num_clocked_in(ws) + (if is_clocked_in(w) { 1int } else { 0int }),
    decreases ws.len(),
{
    let u = ws.update(i, w);
    if i == ws.len() - 1 {
        assert(u.drop_last() =~= ws.drop_last());
    } else {
        lemma_num_clocked_in_update(ws.drop_last(), i, w);
        assert(u.drop_last() =~= ws.drop_last().update(i, w));
    }
}

/// Clocking in distinct workers who had not clocked in raises the count by their number.
pub proof fn lemma_clock_in_all_count(ws: Seq<Worker>, off: Seq<usize>, t: int)
    requires
        ws.len() <= usize::MAX,
        off.no_duplicates(),
        forall|k: int| 0 <= k < off.len() ==> off[k] < ws.len(),
        forall|k: int| 0 <= k < off.len() ==> !is_clocked_in(#[trigger] ws[off[k] as int]),
    ensures
        num_clocked_in(clock_in_all(ws, off, t)) == num_clocked_in(ws) + off.len(),
    decreases off.len(),
{
    if off.len() == 0 {
        assert(clock_in_all(ws, off, t) =~= ws);
    } else {
        let d = off.drop_last();
        let x = off.last();
        lemma_clock_in_all_count(ws, d, t);
        let before = clock_in_all(ws, d, t);
        assert(!d.contains(x));
        assert(clock_in_all(ws, off, t) =~= before.update(x as int, clocked(ws[x as int], t))) by {
            assert forall|y: usize| off.contains(y) <==> (d.contains(y) || y == x) by {
                if off.contains(y) {
                    let k = choose|k: int| 0 <= k < off.len() && off[k] == y;
                    if k < off.len() - 1 {
                        assert(d[k] == y);
                    }
                }
                if d.contains(y) {
                    let k = choose|k: int| 0 <= k < d.len() && d[k] == y;
                    assert(off[k] == y);
                }
            }
        }
        assert(before[x as int] == ws[x as int]);
        assert(!is_clocked_in(ws[off[off.len() - 1] as int]));
        lemma_num_clocked_in_update(before, x as int, clocked(ws[x as int], t));
    }
}

/// On workers ordered by arrival, the arrivals at second `t` are exactly the workers
/// arriving then, each once.
pub proof fn lemma_arrivals(ws: Seq<Worker>, i: nat, t: int)
    requires
        sorted_by_arrival(ws),
        ws.len() <= usize::MAX,
    ensures
        forall|x: usize| #[trigger] arrivals_from(ws, i, t).contains(x)
            <==> (i <= x < ws.len() && ws[x as int].arrival_time == t),
        arrivals_from(ws, i, t).no_duplicates(),
        forall|k: int| 0 <= k < arrivals_from(ws, i, t).len() ==> i <= #[trigger] arrivals_from(ws, i, t)[k],
    decreases ws.len() - i,
{
    if i < ws.len() {
        lemma_arrivals(ws, i + 1, t);
        let rest = arrivals_from(ws, i + 1, t);
        if ws[i as int].arrival_time == t {
            let a = seq![i as usize] + rest;
            assert forall|x: usize| a.contains(x) <==> (i <= x < ws.len() && ws[x as int].arrival_time == t) by {
                lemma_cons_contains(i as usize, rest, x);
            }
            assert forall|p: int, q: int| 0 <= p < q < a.len() implies a[p] != a[q] by {
                if p == 0 {
                    assert(a[q] == rest[q - 1]);
                }
            }
            assert forall|k: int| 0 <= k < a.len() implies i <= #[trigger] a[k] by {
                if k > 0 {
                    assert(a[k] == rest[k - 1]);
                }
            }
        } else if ws[i as int].arrival_time > t {
            assert forall|x: usize| i <= x < ws.len() implies ws[x as int].arrival_time != t by {
                assert(ws[i as int].arrival_time <= ws[x as int].arrival_time);
            }
        }
    }
}

/// On workers ordered by arrival, the initial lobby holds exactly the workers who
/// arrive at second zero or earlier, each once.
pub proof fn lemma_initial_waiting(ws: Seq<Worker>, i: nat)
    requires
        sorted_by_arrival(ws),
        ws.len() <= usize::MAX,
    ensures
        forall|x: usize| #[trigger] initial_waiting(ws, i).contains(x)
            <==> (i <= x < ws.len() && ws[x as int].arrival_time <= 0),
        initial_waiting(ws, i).no_duplicates(),
        forall|k: int| 0 <= k < initial_waiting(ws, i).len() ==> i <= #[trigger] initial_waiting(ws, i)[k],
    decreases ws.len() - i,
{
    if i < ws.len() {
        if ws[i as int].arrival_time <= 0 {
            lemma_initial_waiting(ws, i + 1);
            let rest = initial_waiting(ws, i + 1);
            let a = seq![i as usize] + rest;
            assert forall|x: usize| a.contains(x) <==> (i <= x < ws.len() && ws[x as int].arrival_time <= 0) by {
                lemma_cons_contains(i as usize, rest, x);
            }
            assert forall|p: int, q: int| 0 <= p < q < a.len() implies a[p] != a[q] by {
                if p == 0 {
                    assert(a[q] == rest[q - 1]);
                }
            }
            assert forall|k: int| 0 <= k < a.len() implies i <= #[trigger] a[k] by {
                if k > 0 {
                    assert(a[k] == rest[k - 1]);
                }
            }
        } else {
            assert forall|x: usize| i <= x < ws.len() implies ws[x as int].arrival_time > 0 by {
                assert(ws[i as int].arrival_time <= ws[x as int].arrival_time);
            }
        }
    }
}

/// No worker is bound higher than the highest floor.
pub proof fn lemma_max_target(ws: Seq<Worker>)
    ensures
        0 <= max_target(ws) <= i32::MAX,
        forall|i: int| 0 <= i < ws.len() ==> (#[trigger] ws[i]).target_floor <= max_target(ws),
    decreases ws.len(),
{
    if ws.len() > 0 {
        let d = ws.drop_last();
        lemma_max_target(d);
        assert forall|i: int| 0 <= i < ws.len() implies (#[trigger] ws[i]).target_floor <= max_target(ws) by {
            if i < ws.len() - 1 {
                assert(ws[i] == d[i]);
            }
        }
    }
}

/// Workers bound for the same floors have the same highest floor.
pub proof fn lemma_max_target_same(a: Seq<Worker>, b: Seq<Worker>)
    requires
        a.len() == b.len(),
        forall|i: int| 0 <= i < a.len() ==> (#[trigger] a[i]).target_floor == b[i].target_floor,
    ensures
        max_target(a) == max_target(b),
    decreases a.len(),
{
    if a.len() > 0 {
        let da = a.drop_last();
        let db = b.drop_last();
        assert forall|i: int| 0 <= i < da.len() implies (#[trigger] da[i]).target_floor == db[i].target_floor by {
            assert(da[i] == a[i]);
            assert(db[i] == b[i]);
        }
        lemma_max_target_same(da, db);
    }
}

/// The highest floor is no higher than a bound on every worker's floor.
pub proof fn lemma_max_target_le(ws: Seq<Worker>, b: int)
    requires
        b >= 0,
        forall|i: int| 0 <= i < ws.len() ==> (#[trigger] ws[i]).target_floor <= b,
    ensures
        max_target(ws) <= b,
    decreases ws.len(),
{
    if ws.len() > 0 {
        let d = ws.drop_last();
        assert forall|i: int| 0 <= i < d.len() implies (#[trigger] d[i]).target_floor <= b by {
            assert(d[i] == ws[i]);
        }
        lemma_max_target_le(d, b);
        assert(ws.last().target_floor <= b);
    }
}

} // verus!
