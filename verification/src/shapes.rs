//! Contours whose trapezoids are known outright.

use vstd::prelude::*;
use crate::contour::{contour_edges, not_level, working_edges};
use crate::edge::{lemma_placed_within, Edge};
use crate::geometry::{Fixed, Linefix, Pointfix, Trapezoid};
use crate::order::{lemma_sorted_pair, EdgeOrder};
use crate::sweep::{
    is_stop, lemma_next_stop_unique, lemma_starting, outlasts, paired, stop_between, Sweep,
};

verus! {

/// The corners of an upright rectangle, from the upper left corner along the
/// upper side and around.
pub open spec fn rectangle(left: Fixed, top: Fixed, right: Fixed, bottom: Fixed) -> Seq<Pointfix> {
    seq![
        Pointfix { x: left, y: top },
        Pointfix { x: right, y: top },
        Pointfix { x: right, y: bottom },
        Pointfix { x: left, y: bottom },
    ]
}

/// The upright segment at `x` from `top` down to `bottom`.
pub open spec fn upright(x: Fixed, top: Fixed, bottom: Fixed) -> Linefix {
    Linefix { p1: Pointfix { x, y: top }, p2: Pointfix { x, y: bottom } }
}

/// The trapezoid that fills an upright rectangle.
pub open spec fn filling(left: Fixed, top: Fixed, right: Fixed, bottom: Fixed) -> Trapezoid {
    Trapezoid {
        top,
        bottom,
        left: upright(left, top, bottom),
        right: upright(right, top, bottom),
    }
}

/// The edge on an upright segment.
pub open spec fn upright_edge(x: Fixed, top: Fixed, bottom: Fixed) -> Edge {
    Edge { x1: x, y1: top, x2: x, y2: bottom, current_x: 0 }
}

/// Two upright edges of one height are swept into one trapezoid, the left
/// edge on its left, whichever of them is given first.
pub proof fn lemma_two_uprights(
    left: Fixed,
    top: Fixed,
    right: Fixed,
    bottom: Fixed,
    edges: Seq<Edge>,
)
    requires
        left < right,
        top < bottom,
        edges == seq![upright_edge(left, top, bottom), upright_edge(right, top, bottom)] || edges
            == seq![upright_edge(right, top, bottom), upright_edge(left, top, bottom)],
    ensures
        Sweep::starting(edges).drained() == seq![filling(left, top, right, bottom)],
{
    let l = upright_edge(left, top, bottom);
    let r = upright_edge(right, top, bottom);
    let none = Seq::<Edge>::empty();

    // The start of the sweep.
    lemma_sorted_pair(r, l, EdgeOrder::ByStart);
    lemma_sorted_pair(l, r, EdgeOrder::ByStart);
    let start = Sweep::starting(edges);
    assert(start.inactive =~= seq![r, l]);
    assert(start.y == top);
    lemma_starting(edges);

    // Its one step.
    let first = Sweep { active: seq![l], inactive: seq![r], ..start };
    let both = Sweep { active: seq![l, r], inactive: none, ..start };
    assert(start.admitted() == both) by {
        reveal_with_fuel(Sweep::admitted, 3);
        assert(start.inactive.drop_last() =~= seq![r]);
        assert(start.active.push(l) =~= seq![l]);
        assert(first.inactive.drop_last() =~= none);
        assert(first.active.push(r) =~= seq![l, r]);
    }
    lemma_placed_within(l, top as int);
    lemma_placed_within(r, top as int);
    let at_l = Edge { current_x: left, ..l };
    let at_r = Edge { current_x: right, ..r };
    assert(start.placed() =~= seq![at_l, at_r]);
    lemma_sorted_pair(at_l, at_r, EdgeOrder::ByScan);
    let row = start.row();
    assert(row =~= seq![at_l, at_r]);
    assert(is_stop(row, none, bottom)) by {
        assert(row[0].y2 == bottom);
    }
    assert forall|d: Fixed| #[trigger] is_stop(row, none, d) implies bottom <= d by {
        assert(stop_between(row, 0).is_none());
    }
    lemma_next_stop_unique(row, none, bottom);
    assert(start.stop() == bottom);
    let made = paired(row, top, bottom);
    assert(made =~= seq![filling(left, top, right, bottom)]);
    assert(row.filter(outlasts(bottom)) =~= none) by {
        assert(row =~= none.push(at_l).push(at_r));
        assert(none.filter(outlasts(bottom)) == none) by {
            reveal(Seq::filter);
        }
        none.lemma_filter_push(at_l, outlasts(bottom));
        none.push(at_l).lemma_filter_push(at_r, outlasts(bottom));
    }
    let end = start.stepped();
    assert(end.queue =~= made);
    assert(end.exhausted());
    crate::sweep::lemma_stepped(start);
    assert(start.drained() == end.drained());
    assert(end.drained() == end.queue);
}

/// An upright rectangle is one trapezoid: it reaches from the rectangle's
/// top to its bottom, between its left and its right side. This holds of
/// the corners in either direction around the rectangle.
pub proof fn lemma_rectangle_is_one_trapezoid(left: Fixed, top: Fixed, right: Fixed, bottom: Fixed)
    requires
        left < right,
        top < bottom,
    ensures
        Sweep::starting(working_edges(rectangle(left, top, right, bottom))).drained() == seq![
            filling(left, top, right, bottom),
        ],
        Sweep::starting(
            working_edges(rectangle(left, top, right, bottom).reverse()),
        ).drained() == seq![filling(left, top, right, bottom)],
{
    let points = rectangle(left, top, right, bottom);
    let upper = Edge { x1: right, y1: top, x2: left, y2: top, current_x: 0 };
    let lower = Edge { x1: left, y1: bottom, x2: right, y2: bottom, current_x: 0 };
    let l = upright_edge(left, top, bottom);
    let r = upright_edge(right, top, bottom);
    let none = Seq::<Edge>::empty();
    assert(none.filter(not_level()) == none) by {
        reveal(Seq::filter);
    }

    assert(contour_edges(points) =~= none.push(upper).push(r).push(lower).push(l));
    none.lemma_filter_push(upper, not_level());
    none.push(upper).lemma_filter_push(r, not_level());
    none.push(upper).push(r).lemma_filter_push(lower, not_level());
    none.push(upper).push(r).push(lower).lemma_filter_push(l, not_level());
    assert(working_edges(points) =~= seq![r, l]);
    lemma_two_uprights(left, top, right, bottom, working_edges(points));

    let back = points.reverse();
    assert(back =~= seq![points[3], points[2], points[1], points[0]]);
    let lower_back = Edge { x1: right, y1: bottom, x2: left, y2: bottom, current_x: 0 };
    let upper_back = Edge { x1: left, y1: top, x2: right, y2: top, current_x: 0 };
    assert(contour_edges(back) =~= none.push(lower_back).push(r).push(upper_back).push(l));
    none.lemma_filter_push(lower_back, not_level());
    none.push(lower_back).lemma_filter_push(r, not_level());
    none.push(lower_back).push(r).lemma_filter_push(upper_back, not_level());
    none.push(lower_back).push(r).push(upper_back).lemma_filter_push(l, not_level());
    assert(working_edges(back) =~= seq![r, l]);
    lemma_two_uprights(left, top, right, bottom, working_edges(back));
}

} // verus!
