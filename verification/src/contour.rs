//! From the corner points of a closed contour to its edges.

use vstd::prelude::*;
use crate::edge::Edge;
use crate::geometry::Pointfix;

verus! {

/// The sides of the closed contour through `points`: one edge from each point
/// to the next and, where the last point is not the first, one from the last
/// back to the first. Fewer than two points have no sides.
pub open spec fn contour_edges(points: Seq<Pointfix>) -> Seq<Edge> {
    if points.len() < 2 {
        Seq::empty()
    } else {
        let sides = Seq::new(
            (points.len() - 1) as nat,
            |i: int| Edge::between(points[i], points[i + 1]),
        );
        if points.first() == points.last() {
            sides
        } else {
            sides.push(Edge::between(points.last(), points.first()))
        }
    }
}

/// The test that takes the horizontal edges out.
pub open spec fn not_level() -> spec_fn(Edge) -> bool {
    |e: Edge| e.y1 != e.y2
}

/// The edges the sweep works on: the sides of the contour that are not
/// horizontal, in the contour's order.
pub open spec fn working_edges(points: Seq<Pointfix>) -> Seq<Edge> {
    contour_edges(points).filter(not_level())
}

/// A contour of fewer than two points has no side; another has one side for
/// each point, or one less where its last point is its first.
pub proof fn lemma_contour_edges_count(points: Seq<Pointfix>)
    ensures
        points.len() < 2 ==> contour_edges(points).len() == 0,
        points.len() >= 2 ==> contour_edges(points).len() == if points.first() == points.last() {
            points.len() - 1
        } else {
            points.len() as int
        },
        working_edges(points).len() <= contour_edges(points).len(),
{
    broadcast use vstd::seq_lib::group_filter_ensures;

}

/// Every side of a contour has its upper end first.
pub proof fn lemma_contour_edges_upright(points: Seq<Pointfix>)
    ensures
        forall|i: int|
            0 <= i < contour_edges(points).len() ==> (#[trigger] contour_edges(points)[i]).y1
                <= contour_edges(points)[i].y2,
{
}

/// Every working edge is slanted.
pub proof fn lemma_working_edges_slanted(points: Seq<Pointfix>)
    ensures
        forall|i: int|
            0 <= i < working_edges(points).len() ==> (#[trigger] working_edges(
                points,
            )[i]).slanted(),
{
    let all = contour_edges(points);
    lemma_contour_edges_upright(points);
    broadcast use vstd::seq_lib::group_filter_ensures;
    assert forall|i: int| 0 <= i < working_edges(points).len() implies (#[trigger] working_edges(
        points,
    )[i]).slanted() by {
        let e = working_edges(points)[i];
        assert(all.filter(not_level()).contains(e));
        all.lemma_filter_contains_rev(not_level(), e);
        assert(not_level()(e));
    }
}

/// Makes the sides of the closed contour through `points`.
pub fn points_to_edges(points: &Vec<Pointfix>) -> (edges: Vec<Edge>)
    ensures
        edges@ == contour_edges(points@),
{
    let mut edges: Vec<Edge> = Vec::new();
    if points.len() < 2 {
        return edges;
    }
    let mut i: usize = 1;
    while i < points.len()
        invariant
            1 <= i <= points.len(),
            edges@.len() == i - 1,
            forall|k: int|
                0 <= k < i - 1 ==> edges@[k] == Edge::between(points@[k], points@[k + 1]),
        decreases points.len() - i,
    {
        edges.push(Edge::from_points(points[i - 1], points[i]));
        i += 1;
    }
    let first = points[0];
    let last = points[points.len() - 1];
    proof {
        assert(edges@ =~= Seq::new(
            (points@.len() - 1) as nat,
            |i: int| Edge::between(points@[i], points@[i + 1]),
        ));
    }
    if first != last {
        edges.push(Edge::from_points(last, first));
    }
    edges
}

/// Takes the horizontal edges out.
pub fn drop_level_edges(edges: Vec<Edge>) -> (kept: Vec<Edge>)
    ensures
        kept@ == edges@.filter(not_level()),
{
    let mut kept: Vec<Edge> = Vec::new();
    let mut i: usize = 0;
    proof {
        reveal(Seq::filter);
    }
    while i < edges.len()
        invariant
            i <= edges.len(),
            kept@ == edges@.take(i as int).filter(not_level()),
        decreases edges.len() - i,
    {
        proof {
            assert(edges@.take(i + 1) == edges@.take(i as int).push(edges@[i as int]));
            edges@.take(i as int).lemma_filter_push(edges@[i as int], not_level());
        }
        let e = edges[i];
        if e.y1 != e.y2 {
            kept.push(e);
        }
        i += 1;
    }
    proof {
        assert(edges@.take(i as int) == edges@);
    }
    kept
}

} // verus!
