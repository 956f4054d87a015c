//! Ordering workers by arrival time, stably.
use vstd::prelude::*;
use crate::rules::{insert_by_arrival, insert_pos, sort_by_arrival, sorted_by_arrival};
use crate::worker::Worker;

verus! {

proof fn lemma_insert_pos(r: Seq<Worker>, key: int, k: nat)
    requires
        k <= r.len(),
    ensures
        k <= insert_pos(r, key, k) <= r.len(),
        forall|j: int| k <= j < insert_pos(r, key, k) ==> r[j].arrival_time <= key,
        insert_pos(r, key, k) < r.len() ==> r[insert_pos(r, key, k) as int].arrival_time > key,
    decreases r.len() - k,
{
    if k < r.len() && r[k as int].arrival_time <= key {
        lemma_insert_pos(r, key, k + 1);
    }
}

/// Inserting a worker at its place keeps a sequence ordered by arrival.
proof fn lemma_insert_sorted(r: Seq<Worker>, w: Worker)
    requires
        sorted_by_arrival(r),
    ensures
        sorted_by_arrival(insert_by_arrival(r, w)),
{
    let p = insert_pos(r, w.arrival_time as int, 0);
    lemma_insert_pos(r, w.arrival_time as int, 0);
    let t = insert_by_arrival(r, w);
    assert forall|i: int, j: int| 0 <= i <= j < t.len() implies t[i].arrival_time <= t[j].arrival_time by {
        if i < p && j == p {
        } else if i < p && j > p {
            assert(t[j] == r[j - 1]);
        } else if i == p && j > p {
            assert(t[j] == r[j - 1]);
            assert(r[p as int].arrival_time <= r[j - 1].arrival_time);
        } else if i > p {
            assert(t[i] == r[i - 1]);
            assert(t[j] == r[j - 1]);
        }
    }
}

/// The stable sort orders the workers by arrival and keeps exactly the same workers.
pub proof fn lemma_sort_by_arrival(s: Seq<Worker>)
    ensures
        sorted_by_arrival(sort_by_arrival(s)),
        sort_by_arrival(s).to_multiset() == s.to_multiset(),
        sort_by_arrival(s).len() == s.len(),
        forall|w: Worker| sort_by_arrival(s).contains(w) <==> s.contains(w),
    decreases s.len(),
{
    broadcast use vstd::seq_lib::group_to_multiset_ensures;

    if s.len() > 0 {
        let d = s.drop_last();
        lemma_sort_by_arrival(d);
        let r = sort_by_arrival(d);
        lemma_insert_sorted(r, s.last());
        lemma_insert_pos(r, s.last().arrival_time as int, 0);
        assert(s =~= d.push(s.last()));
        assert(sort_by_arrival(s).to_multiset() =~= s.to_multiset());
    }
    assert forall|w: Worker| sort_by_arrival(s).contains(w) <==> s.contains(w) by {
        assert(sort_by_arrival(s).to_multiset().count(w) == s.to_multiset().count(w));
    }
}

proof fn lemma_filter_none(s: Seq<Worker>, pred: spec_fn(Worker) -> bool)
    requires
        forall|i: int| 0 <= i < s.len() ==> !pred(#[trigger] s[i]),
    ensures
        s.filter(pred) == Seq::<Worker>::empty(),
    decreases s.len(),
{
    reveal(Seq::filter);
    if s.len() > 0 {
        let d = s.drop_last();
        assert forall|i: int| 0 <= i < d.len() implies !pred(#[trigger] d[i]) by {
            assert(d[i] == s[i]);
        }
        lemma_filter_none(d, pred);
        assert(!pred(s[s.len() - 1]));
    }
}

proof fn lemma_sort_stable_by(s: Seq<Worker>, t: int, pred: spec_fn(Worker) -> bool)
    requires
        forall|w: Worker| #[trigger] pred(w) == (w.arrival_time == t),
    ensures
        sort_by_arrival(s).filter(pred) == s.filter(pred),
    decreases s.len(),
{
    reveal(Seq::filter);
    if s.len() > 0 {
        let d = s.drop_last();
        let x = s.last();
        lemma_sort_stable_by(d, t, pred);
        lemma_sort_by_arrival(d);
        let r = sort_by_arrival(d);
        let key = x.arrival_time as int;
        let p = insert_pos(r, key, 0);
        lemma_insert_pos(r, key, 0);
        let front = r.take(p as int);
        let back = r.skip(p as int);
        assert(r =~= front + back);
        assert(insert_by_arrival(r, x) =~= front + (seq![x] + back));
        Seq::filter_distributes_over_add(front, back, pred);
        Seq::filter_distributes_over_add(front, seq![x] + back, pred);
        Seq::filter_distributes_over_add(seq![x], back, pred);
        let one = seq![x];
        assert(one.drop_last() =~= Seq::<Worker>::empty());
        assert(one.last() == x);
        if key == t {
            assert forall|i: int| 0 <= i < back.len() implies !pred(#[trigger] back[i]) by {
                assert(back[i] == r[p + i]);
                assert(r[p as int].arrival_time <= r[p + i].arrival_time);
            }
            lemma_filter_none(back, pred);
            assert(one.filter(pred) =~= seq![x]);
            assert(sort_by_arrival(s).filter(pred) =~= r.filter(pred).push(x));
        } else {
            assert(!pred(x));
            assert(one.drop_last().filter(pred) == one.drop_last());
            assert(one.filter(pred) =~= Seq::<Worker>::empty());
            assert(sort_by_arrival(s).filter(pred) =~= r.filter(pred));
        }
    }
}

/// The sort is stable: the workers who arrive at any one second keep the order they
/// had.
pub proof fn lemma_sort_stable(s: Seq<Worker>, t: int)
    ensures
        sort_by_arrival(s).filter(|w: Worker| w.arrival_time == t) == s.filter(|w: Worker| w.arrival_time == t),
{
    lemma_sort_stable_by(s, t, |w: Worker| w.arrival_time == t);
}

/// Sorts `ws` by arrival time, keeping the order of workers who arrive together.
pub fn sort_workers_by_arrival(ws: &mut Vec<Worker>)
    ensures
        final(ws)@ == sort_by_arrival(old(ws)@),
{
    let ghost w0 = ws@;
    let mut sorted: Vec<Worker> = Vec::new();
    let n = ws.len();
    let mut i: usize = 0;
    assert(w0.take(0) =~= Seq::<Worker>::empty());
    while i < n
        invariant
            i <= n,
            n == ws.len(),
            ws@ == w0,
            sorted@ == sort_by_arrival(w0.take(i as int)),
        decreases n - i,
    {
        let w = ws[i];
        let ghost r = sorted@;
        let mut k: usize = 0;
        while k < sorted.len() && sorted[k].arrival_time <= w.arrival_time
            invariant
                k <= sorted.len(),
                sorted@ == r,
                insert_pos(r, w.arrival_time as int, 0) == insert_pos(r, w.arrival_time as int, k as nat),
            decreases sorted.len() - k,
        {
            k += 1;
        }
        assert(insert_pos(r, w.arrival_time as int, k as nat) == k);
        sorted.insert(k, w);
        assert(w0.take(i + 1).drop_last() =~= w0.take(i as int));
        assert(w0.take(i + 1).last() == w);
        i += 1;
    }
    assert(w0.take(n as int) =~= w0);
    *ws = sorted;
}

} // verus!
