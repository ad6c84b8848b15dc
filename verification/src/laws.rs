//! What holds of every sweep.

use vstd::prelude::*;
use crate::contour::{contour_edges, not_level, working_edges};
use crate::geometry::{Pointfix, Trapezoid};
use crate::sweep::{
    is_stop, lemma_admitted, lemma_row, lemma_starting, lemma_stepped, stop_between, Sweep,
};

verus! {

/// A sweep without edges makes no trapezoid, neither pulled nor drained.
pub proof fn lemma_no_edges_no_trapezoids()
    ensures
        Sweep::starting(Seq::empty()).drained() == Seq::<Trapezoid>::empty(),
        Sweep::starting(Seq::empty()).pulled().0 == None::<Trapezoid>,
{
    lemma_starting(Seq::empty());
}

/// A contour of no point or of one point has no trapezoid.
pub proof fn lemma_few_points_no_trapezoids(points: Seq<Pointfix>)
    requires
        points.len() <= 1,
    ensures
        Sweep::starting(working_edges(points)).drained() == Seq::<Trapezoid>::empty(),
        Sweep::starting(working_edges(points)).pulled().0 == None::<Trapezoid>,
{
    reveal(Seq::filter);
    assert(working_edges(points) == Seq::<crate::edge::Edge>::empty());
    lemma_no_edges_no_trapezoids();
}

/// A contour whose points all lie at one height has only horizontal sides,
/// and no trapezoid.
pub proof fn lemma_level_contour_no_trapezoids(points: Seq<Pointfix>)
    requires
        forall|i: int, j: int|
            0 <= i < points.len() && 0 <= j < points.len() ==> (#[trigger] points[i]).y
                == (#[trigger] points[j]).y,
    ensures
        working_edges(points).len() == 0,
        Sweep::starting(working_edges(points)).drained() == Seq::<Trapezoid>::empty(),
        Sweep::starting(working_edges(points)).pulled().0 == None::<Trapezoid>,
{
    let sides = contour_edges(points);
    assert forall|e: crate::edge::Edge| sides.contains(e) implies !not_level()(e) by {
        let k = choose|k: int| 0 <= k < sides.len() && sides[k] == e;
        if k < points.len() - 1 {
            assert(points[k].y == points[k + 1].y);
        } else {
            assert(points[0].y == points[points.len() - 1].y);
        }
    }
    sides.lemma_all_neg_filter_empty(not_level());
    assert(working_edges(points) =~= Seq::<crate::edge::Edge>::empty());
    lemma_no_edges_no_trapezoids();
}

/// Admitting edges neither reads nor changes the queue.
pub proof fn lemma_admitted_with_queue(s: Sweep, queue: Seq<Trapezoid>)
    ensures
        s.with_queue(queue).admitted() == s.admitted().with_queue(queue),
    decreases s.inactive.len(),
{
    if s.inactive.len() > 0 && s.inactive.last().y1 <= s.y {
        let next = Sweep {
            active: s.active.push(s.inactive.last()),
            inactive: s.inactive.drop_last(),
            ..s
        };
        assert(s.with_queue(queue).admitted() == next.with_queue(queue).admitted());
        lemma_admitted_with_queue(next, queue);
    }
}

/// A step reads nothing of the queue: with another queue it makes the same
/// trapezoids and leaves the same edges at the same scan position.
pub proof fn lemma_stepped_with_queue(s: Sweep, queue: Seq<Trapezoid>)
    ensures
        s.with_queue(queue).emitted() == s.emitted(),
        s.with_queue(queue).stepped() == s.stepped().with_queue(queue + s.emitted()),
{
    lemma_admitted_with_queue(s, queue);
    let t = s.with_queue(queue);
    assert(t.placed() =~= s.placed());
    if s.exhausted() {
        assert(queue + s.emitted() =~= queue);
    }
}

/// The drained sequence begins with the queue, and what follows the queue
/// does not depend on it.
pub proof fn lemma_drained_with_queue(s: Sweep, queue: Seq<Trapezoid>)
    requires
        s.well_formed(),
        s.drained().len() < usize::MAX,
        queue.len() <= s.queue.len(),
    ensures
        s.queue.len() <= s.drained().len(),
        s.drained() == s.queue + s.drained().skip(s.queue.len() as int),
        s.with_queue(queue).drained() == queue + s.drained().skip(s.queue.len() as int),
    decreases s.room(), i32::MAX - s.y,
{
    let other = s.with_queue(queue);
    if s.exhausted() {
        assert(s.drained() =~= s.queue + s.drained().skip(s.queue.len() as int));
        assert(other.drained() =~= queue + s.drained().skip(s.queue.len() as int));
    } else {
        let t = s.stepped();
        let e = s.emitted();
        lemma_stepped(s);
        lemma_stepped_with_queue(s, queue);
        assert(other.stepped() == t.with_queue(queue + e));
        lemma_drained_with_queue(t, queue + e);
        let rest = t.drained().skip(t.queue.len() as int);
        assert(s.drained() == t.drained());
        assert(t.drained() == s.queue + e + rest);
        assert(s.drained().skip(s.queue.len() as int) =~= e + rest);
        assert(s.drained() =~= s.queue + s.drained().skip(s.queue.len() as int));
        assert(other.drained() == t.with_queue(queue + e).drained());
        assert(queue + e + rest =~= queue + (e + rest));
    }
}

/// Pulling and draining agree: the trapezoid that a pull hands out is the
/// first of the drained sequence, and draining what the pull leaves gives the
/// rest of it; a pull hands out nothing only where draining gives nothing.
/// This holds wherever the drained sequence is short enough for `drained` not
/// to have cut the sweep off.
pub proof fn lemma_pull_then_drain(s: Sweep)
    requires
        s.well_formed(),
        s.drained().len() < usize::MAX,
    ensures
        s.pulled().1.well_formed(),
        match s.pulled().0 {
            Some(first) => s.drained() == seq![first] + s.pulled().1.drained(),
            None => s.drained() == Seq::<Trapezoid>::empty(),
        },
    decreases
            (if s.queue.len() > 0 {
                0int
            } else {
                1int
            }),
            i32::MAX - s.y,
{
    if s.queue.len() > 0 {
        let rest = s.queue.drop_first();
        lemma_drained_with_queue(s, rest);
        lemma_drained_with_queue(s, s.queue);
        let tail = s.drained().skip(s.queue.len() as int);
        assert(s.queue + tail =~= seq![s.queue.first()] + (rest + tail));
    } else if s.exhausted() {
    } else {
        lemma_stepped(s);
        lemma_pull_then_drain(s.stepped());
    }
}

/// The trapezoids that pulling hands out one after another, until a pull
/// hands out none.
pub open spec fn pulled_all(s: Sweep) -> Seq<Trapezoid>
    decreases s.drained().len(),
    when s.well_formed() && s.drained().len() < usize::MAX
{
    match s.pulled().0 {
        Some(first) => {
            proof {
                lemma_pull_then_drain(s);
            }
            seq![first] + pulled_all(s.pulled().1)
        },
        None => Seq::empty(),
    }
}

/// Pulling one trapezoid at a time hands out the trapezoids that draining
/// gives at once, in the same order.
pub proof fn lemma_pulling_is_draining(s: Sweep)
    requires
        s.well_formed(),
        s.drained().len() < usize::MAX,
    ensures
        pulled_all(s) == s.drained(),
    decreases s.drained().len(),
{
    lemma_pull_then_drain(s);
    match s.pulled().0 {
        Some(first) => {
            lemma_pulling_is_draining(s.pulled().1);
        },
        None => {},
    }
}

/// Every crossing stop of the coming step lies below the scan position.
pub open spec fn crossings_ahead(s: Sweep) -> bool {
    forall|i: int|
        0 <= i < s.row().len() - 1 ==> match #[trigger] stop_between(s.row(), i) {
            Some(c) => s.y < c,
            None => true,
        }
}

/// The sum of the heights of some trapezoids.
pub open spec fn total_height(trapezoids: Seq<Trapezoid>) -> int
    decreases trapezoids.len(),
{
    if trapezoids.len() == 0 {
        0
    } else {
        total_height(trapezoids.drop_last()) + (trapezoids.last().bottom - trapezoids.last().top)
    }
}

/// The trapezoids of one step all reach from the scan position before the
/// step to the one after it. The scan position moves down, and each of these
/// trapezoids has its bottom below its top, exactly where every crossing stop
/// of the step lies below the scan position.
pub proof fn lemma_step_heights(s: Sweep)
    requires
        s.well_formed(),
        !s.exhausted(),
    ensures
        s.stepped().y == s.stop(),
        forall|k: int|
            0 <= k < s.emitted().len() ==> (#[trigger] s.emitted()[k]).top == s.y
                && s.emitted()[k].bottom == s.stop(),
        s.y < s.stop() <==> crossings_ahead(s),
{
    let row = s.row();
    let waiting = s.admitted().inactive;
    lemma_admitted(s);
    lemma_row(s);
    lemma_stepped(s);
    if crossings_ahead(s) {
        let stop = s.stop();
        assert(is_stop(row, waiting, stop));
        if exists|i: int| 0 <= i < row.len() && (#[trigger] row[i]).y2 == stop {
        } else if exists|i: int|
            0 <= i < row.len() - 1 && #[trigger] stop_between(row, i) == Some(stop) {
        } else {
            assert(waiting.last() == waiting[waiting.len() - 1]);
        }
    }
    if s.y < s.stop() {
        assert forall|i: int| 0 <= i < row.len() - 1 implies match #[trigger] stop_between(row, i) {
            Some(c) => s.y < c,
            None => true,
        } by {
            match stop_between(row, i) {
                Some(c) => {
                    assert(is_stop(row, waiting, c));
                },
                None => {},
            }
        }
    }
}

/// The heights of the trapezoids of one step add up to the distance that the
/// scan position moves, once for each trapezoid. Where every crossing stop of
/// the step lies below the scan position, the sum is not negative.
pub proof fn lemma_step_total_height(s: Sweep)
    requires
        s.well_formed(),
        !s.exhausted(),
    ensures
        total_height(s.emitted()) == s.emitted().len() * (s.stop() - s.y),
        crossings_ahead(s) ==> total_height(s.emitted()) >= 0,
{
    lemma_step_heights(s);
    lemma_total_height_even(s.emitted(), s.y as int, s.stop() as int);
    let n = s.emitted().len() as int;
    let d = s.stop() - s.y;
    assert(d > 0 ==> n * d >= 0) by (nonlinear_arith)
        requires
            n >= 0,
    ;
}

/// Trapezoids between the same two scan positions have the height of one of
/// them, times their number.
pub proof fn lemma_total_height_even(trapezoids: Seq<Trapezoid>, top: int, bottom: int)
    requires
        forall|k: int|
            0 <= k < trapezoids.len() ==> (#[trigger] trapezoids[k]).top == top
                && trapezoids[k].bottom == bottom,
    ensures
        total_height(trapezoids) == trapezoids.len() * (bottom - top),
    decreases trapezoids.len(),
{
    if trapezoids.len() > 0 {
        let front = trapezoids.drop_last();
        assert forall|k: int| 0 <= k < front.len() implies (#[trigger] front[k]).top == top
            && front[k].bottom == bottom by {
            assert(front[k] == trapezoids[k]);
        }
        lemma_total_height_even(front, top, bottom);
        let n = trapezoids.len() as int;
        let d = bottom - top;
        assert((n - 1) * d + d == n * d) by (nonlinear_arith);
    }
}

/// Every step of the sweep that is still to come finds its crossing stops
/// below the scan position.
pub open spec fn steady(s: Sweep) -> bool
    decreases s.room(), i32::MAX - s.y,
    when s.well_formed()
{
    if s.exhausted() || s.queue.len() >= usize::MAX {
        true
    } else {
        proof {
            lemma_stepped(s);
        }
        crossings_ahead(s) && steady(s.stepped())
    }
}

/// A steady sweep whose queue holds only trapezoids with the bottom below the
/// top drains to such trapezoids only.
pub proof fn lemma_steady_heights(s: Sweep)
    requires
        s.well_formed(),
        steady(s),
        forall|k: int| 0 <= k < s.queue.len() ==> (#[trigger] s.queue[k]).top < s.queue[k].bottom,
    ensures
        forall|k: int|
            0 <= k < s.drained().len() ==> (#[trigger] s.drained()[k]).top < s.drained()[k].bottom,
    decreases s.room(), i32::MAX - s.y,
{
    if s.exhausted() || s.queue.len() >= usize::MAX {
        assert(s.drained() == s.queue);
    } else {
        let t = s.stepped();
        lemma_stepped(s);
        lemma_step_heights(s);
        assert(s.drained() == t.drained());
        assert(steady(t));
        assert forall|k: int| 0 <= k < t.queue.len() implies (#[trigger] t.queue[k]).top
            < t.queue[k].bottom by {
            if k < s.queue.len() {
                assert(t.queue[k] == s.queue[k]);
            } else {
                assert(t.queue[k] == s.emitted()[k - s.queue.len()]);
            }
        }
        lemma_steady_heights(t);
    }
}

/// Every active edge starts at or above the scan position.
pub open spec fn settled(s: Sweep) -> bool {
    forall|i: int| 0 <= i < s.active.len() ==> (#[trigger] s.active[i]).y1 <= s.y
}

/// A step that moves the scan position down leaves a settled sweep settled:
/// every active edge still starts at or above the scan position, and ends
/// below it.
pub proof fn lemma_step_keeps_settled(s: Sweep)
    requires
        s.well_formed(),
        settled(s),
        crossings_ahead(s),
    ensures
        settled(s.stepped()),
{
    if !s.exhausted() {
        let row = s.row();
        let stop = s.stop();
        let next = s.stepped();
        lemma_step_heights(s);
        lemma_admitted_starts(s);
        crate::order::lemma_sorted_keeps(s.placed(), crate::order::EdgeOrder::ByScan);
        assert forall|i: int| 0 <= i < next.active.len() implies (#[trigger] next.active[i]).y1
            <= next.y by {
            let e = next.active[i];
            assert(row.filter(crate::sweep::outlasts(stop)).contains(e));
            row.lemma_filter_contains_rev(crate::sweep::outlasts(stop), e);
            assert(row.contains(e));
            assert(s.placed().contains(e));
            let k = choose|k: int| 0 <= k < s.placed().len() && s.placed()[k] == e;
            assert(e == s.admitted().active[k].placed(s.y));
            assert(s.admitted().active[k].y1 <= s.admitted().y);
            lemma_admitted(s);
            assert(s.y < stop);
        }
    }
}

/// A sweep is settled at its start.
pub proof fn lemma_start_is_settled(edges: Seq<crate::edge::Edge>)
    ensures
        settled(Sweep::starting(edges)),
{
}

/// Admitting edges to a settled sweep leaves it settled.
pub proof fn lemma_admitted_starts(s: Sweep)
    requires
        settled(s),
    ensures
        settled(s.admitted()),
    decreases s.inactive.len(),
{
    if s.inactive.len() > 0 && s.inactive.last().y1 <= s.y {
        let next = Sweep {
            active: s.active.push(s.inactive.last()),
            inactive: s.inactive.drop_last(),
            ..s
        };
        assert forall|i: int| 0 <= i < next.active.len() implies (#[trigger] next.active[i]).y1
            <= next.y by {
            if i < s.active.len() {
                assert(next.active[i] == s.active[i]);
            }
        }
        lemma_admitted_starts(next);
    }
}

} // verus!
