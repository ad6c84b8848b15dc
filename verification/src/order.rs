//! Putting edges in order, under either of the two orders the sweep uses.

use vstd::prelude::*;
use crate::edge::Edge;

verus! {

/// The two orders in which the sweep arranges edges.
#[derive(Clone, Copy, Debug, PartialEq, Eq, Structural)]
pub enum EdgeOrder {
    /// By upper end: `y1` first, then `x1`.
    ByStart,
    /// By place on the scan line: `current_x` first, then `x2`.
    ByScan,
}

/// Whether `a` may stand before `b` under `order`.
pub open spec fn precedes(order: EdgeOrder, a: Edge, b: Edge) -> bool {
    match order {
        EdgeOrder::ByStart => a.y1 < b.y1 || (a.y1 == b.y1 && a.x1 <= b.x1),
        EdgeOrder::ByScan => a.current_x < b.current_x || (a.current_x == b.current_x && a.x2
            <= b.x2),
    }
}

/// Every edge may stand before each edge behind it.
pub open spec fn ascending(s: Seq<Edge>, order: EdgeOrder) -> bool {
    forall|i: int, j: int| 0 <= i < j < s.len() ==> precedes(order, #[trigger] s[i], #[trigger] s[j])
}

/// Where `e` goes into `s`: behind the last edge that may stand before it.
pub open spec fn slot(s: Seq<Edge>, e: Edge, order: EdgeOrder) -> int
    decreases s.len(),
{
    if s.len() == 0 || precedes(order, s.last(), e) {
        s.len() as int
    } else {
        slot(s.drop_last(), e, order)
    }
}

/// The edges of `s` in ascending order: each in turn goes into the edges
/// before it, already in order, at its slot.
pub open spec fn sorted(s: Seq<Edge>, order: EdgeOrder) -> Seq<Edge>
    decreases s.len(),
{
    if s.len() == 0 {
        s
    } else {
        let front = sorted(s.drop_last(), order);
        front.insert(slot(front, s.last(), order), s.last())
    }
}

/// The slot lies within the sequence; every edge from it on must stand behind
/// `e`, and the edge before it may stand before `e`.
pub proof fn lemma_slot(s: Seq<Edge>, e: Edge, order: EdgeOrder)
    ensures
        0 <= slot(s, e, order) <= s.len(),
        forall|k: int| slot(s, e, order) <= k < s.len() ==> !precedes(order, #[trigger] s[k], e),
        slot(s, e, order) > 0 ==> precedes(order, s[slot(s, e, order) - 1], e),
    decreases s.len(),
{
    if s.len() == 0 || precedes(order, s.last(), e) {
    } else {
        lemma_slot(s.drop_last(), e, order);
        assert forall|k: int| slot(s, e, order) <= k < s.len() implies !precedes(
            order,
            #[trigger] s[k],
            e,
        ) by {
            if k < s.len() - 1 {
                assert(s[k] == s.drop_last()[k]);
            }
        }
        if slot(s, e, order) > 0 {
            assert(s[slot(s, e, order) - 1] == s.drop_last()[slot(s, e, order) - 1]);
        }
    }
}

/// Sorting keeps the length and the edges.
pub proof fn lemma_sorted_keeps(s: Seq<Edge>, order: EdgeOrder)
    ensures
        sorted(s, order).len() == s.len(),
        forall|e: Edge| sorted(s, order).contains(e) <==> s.contains(e),
        sorted(s, order).to_multiset() == s.to_multiset(),
    decreases s.len(),
{
    broadcast use vstd::seq_lib::group_to_multiset_ensures;

    if s.len() == 0 {
    } else {
        let front = sorted(s.drop_last(), order);
        let at = slot(front, s.last(), order);
        lemma_sorted_keeps(s.drop_last(), order);
        lemma_slot(front, s.last(), order);
        assert(s.drop_last().push(s.last()) == s);
        assert(front.insert(at, s.last()).to_multiset() == front.to_multiset().insert(s.last()));
        assert(s.to_multiset() == s.drop_last().to_multiset().insert(s.last()));
        assert forall|e: Edge| sorted(s, order).contains(e) <==> s.contains(e) by {
            assert(sorted(s, order).contains(e) <==> sorted(s, order).to_multiset().count(e) > 0);
            assert(s.contains(e) <==> s.to_multiset().count(e) > 0);
        }
    }
}

/// Sorting leaves the edges ascending.
pub proof fn lemma_sorted_ascending(s: Seq<Edge>, order: EdgeOrder)
    ensures
        ascending(sorted(s, order), order),
    decreases s.len(),
{
    if s.len() == 0 {
    } else {
        let front = sorted(s.drop_last(), order);
        let e = s.last();
        let at = slot(front, e, order);
        lemma_sorted_ascending(s.drop_last(), order);
        lemma_slot(front, e, order);
        let out = front.insert(at, e);
        assert forall|i: int, j: int| 0 <= i < j < out.len() implies precedes(
            order,
            #[trigger] out[i],
            #[trigger] out[j],
        ) by {
            if j < at {
                assert(out[i] == front[i] && out[j] == front[j]);
            } else if j == at {
                assert(out[i] == front[i]);
                assert(precedes(order, front[at - 1], e));
                if i < at - 1 {
                    assert(precedes(order, front[i], front[at - 1]));
                }
            } else if i < at {
                assert(out[i] == front[i] && out[j] == front[j - 1]);
            } else if i == at {
                assert(out[j] == front[j - 1]);
                assert(!precedes(order, front[j - 1], e));
            } else {
                assert(out[i] == front[i - 1] && out[j] == front[j - 1]);
            }
        }
    }
}

/// Two edges in ascending order: as they stand where the first may stand
/// before the second, and changed about where not.
pub proof fn lemma_sorted_pair(a: Edge, b: Edge, order: EdgeOrder)
    ensures
        sorted(seq![a, b], order) == if precedes(order, a, b) {
            seq![a, b]
        } else {
            seq![b, a]
        },
{
    let none = Seq::<Edge>::empty();
    let one = seq![a];
    let two = seq![a, b];
    assert(two.drop_last() =~= one);
    assert(one.drop_last() =~= none);
    assert(sorted(none, order) == none);
    assert(slot(none, a, order) == 0);
    assert(sorted(one, order) =~= one) by {
        assert(sorted(one, order) == none.insert(0, a));
    }
    assert(sorted(two, order) == one.insert(slot(one, b, order), b));
    if precedes(order, a, b) {
        assert(slot(one, b, order) == 1);
        assert(one.insert(1, b) =~= seq![a, b]);
    } else {
        assert(slot(none, b, order) == 0);
        assert(slot(one, b, order) == 0);
        assert(one.insert(0, b) =~= seq![b, a]);
    }
}

/// Whether `a` may stand before `b` under `order`.
pub fn comes_before(order: EdgeOrder, a: &Edge, b: &Edge) -> (r: bool)
    ensures
        r == precedes(order, *a, *b),
{
    match order {
        EdgeOrder::ByStart => a.y1 < b.y1 || (a.y1 == b.y1 && a.x1 <= b.x1),
        EdgeOrder::ByScan => a.current_x < b.current_x || (a.current_x == b.current_x && a.x2
            <= b.x2),
    }
}

/// Sorts the edges under `order`.
pub fn sort_edges(edges: &Vec<Edge>, order: EdgeOrder) -> (out: Vec<Edge>)
    ensures
        out@ == sorted(edges@, order),
{
    let mut out: Vec<Edge> = Vec::with_capacity(edges.len());
    let mut i: usize = 0;
    while i < edges.len()
        invariant
            i <= edges.len(),
            out@ == sorted(edges@.take(i as int), order),
        decreases edges.len() - i,
    {
        let e = edges[i];
        proof {
            lemma_sorted_keeps(edges@.take(i as int), order);
        }
        let mut j: usize = out.len();
        proof {
            assert(out@.take(j as int) == out@);
        }
        while j > 0 && !comes_before(order, &out[j - 1], &e)
            invariant
                j <= out.len(),
                slot(out@, e, order) == slot(out@.take(j as int), e, order),
            decreases j,
        {
            proof {
                assert(out@.take(j as int).drop_last() == out@.take(j - 1));
            }
            j -= 1;
        }
        proof {
            assert(edges@.take(i + 1).drop_last() == edges@.take(i as int));
            if j > 0 {
                assert(out@.take(j as int).last() == out@[j - 1]);
            }
        }
        out.insert(j, e);
        i += 1;
    }
    proof {
        assert(edges@.take(i as int) == edges@);
    }
    out
}

/// The edges in the opposite order.
pub fn reverse_edges(edges: &Vec<Edge>) -> (out: Vec<Edge>)
    ensures
        out@ == edges@.reverse(),
{
    let mut out: Vec<Edge> = Vec::with_capacity(edges.len());
    let mut i: usize = edges.len();
    while i > 0
        invariant
            i <= edges.len(),
            out@.len() == edges.len() - i,
            forall|k: int| 0 <= k < out@.len() ==> out@[k] == edges@[edges.len() - 1 - k],
        decreases i,
    {
        i -= 1;
        out.push(edges[i]);
    }
    proof {
        assert(out@ =~= edges@.reverse());
    }
    out
}

} // verus!
