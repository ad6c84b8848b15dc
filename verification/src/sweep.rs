//! The sweep itself, as mathematics: the state of a sweep and what one step
//! makes of it.

use vstd::prelude::*;
use crate::arith::clamp_fixed;
use crate::edge::Edge;
use crate::geometry::{Fixed, Trapezoid};
use crate::order::{lemma_sorted_ascending, lemma_sorted_keeps, precedes, sorted, EdgeOrder};

verus! {

/// The state of a sweep between two steps.
pub struct Sweep {
    /// The scan position.
    pub y: Fixed,
    /// The edges that the scan line crosses.
    pub active: Seq<Edge>,
    /// The edges that the scan line has not reached, the next one last.
    pub inactive: Seq<Edge>,
    /// The trapezoids made and not yet handed out, the oldest first.
    pub queue: Seq<Trapezoid>,
}

/// The test that takes out the edges ending at or above `y`.
pub open spec fn outlasts(y: Fixed) -> spec_fn(Edge) -> bool {
    |e: Edge| e.y2 > y
}

/// The scan position just past the crossing of two neighbours on the scan
/// line that will have changed places by their lower ends; none for another
/// pair, or for parallel lines.
pub open spec fn crossing_stop(a: Edge, b: Edge) -> Option<Fixed> {
    if a.x2 > b.x2 {
        match a.crossing(b) {
            Some(at) => Some(clamp_fixed(at + 1)),
            None => None,
        }
    } else {
        None
    }
}

/// The scan position just past the crossing of the edge at `i` in `row` and
/// its right neighbour, where they will have changed places.
pub open spec fn stop_between(row: Seq<Edge>, i: int) -> Option<Fixed> {
    crossing_stop(row[i], row[i + 1])
}

/// Whether the sweep may have to stop at `c`: at the lower end of an edge of
/// `row`, just past the crossing of two neighbours in `row`, or at the upper
/// end of the next edge in `waiting`.
pub open spec fn is_stop(row: Seq<Edge>, waiting: Seq<Edge>, c: Fixed) -> bool {
    ||| exists|i: int| 0 <= i < row.len() && (#[trigger] row[i]).y2 == c
    ||| exists|i: int| 0 <= i < row.len() - 1 && #[trigger] stop_between(row, i) == Some(c)
    ||| waiting.len() > 0 && waiting.last().y1 == c
}

/// Whether `c` is the first of the stops.
pub open spec fn is_next_stop(row: Seq<Edge>, waiting: Seq<Edge>, c: Fixed) -> bool {
    &&& is_stop(row, waiting, c)
    &&& forall|d: Fixed| #[trigger] is_stop(row, waiting, d) ==> c <= d
}

/// The first of the stops.
pub open spec fn next_stop(row: Seq<Edge>, waiting: Seq<Edge>) -> Fixed {
    choose|c: Fixed| is_next_stop(row, waiting, c)
}

/// The trapezoid between two scan positions and two edges.
pub open spec fn trapezoid_between(top: Fixed, bottom: Fixed, left: Edge, right: Edge) -> Trapezoid {
    Trapezoid { top, bottom, left: left.segment(), right: right.segment() }
}

/// One trapezoid for each pair of neighbours in `row`: the first with the
/// second, the third with the fourth and so on. An edge left over at the end
/// makes none.
pub open spec fn paired(row: Seq<Edge>, top: Fixed, bottom: Fixed) -> Seq<Trapezoid> {
    Seq::new(
        (row.len() / 2) as nat,
        |i: int| trapezoid_between(top, bottom, row[2 * i], row[2 * i + 1]),
    )
}

impl Sweep {
    /// Nothing is left to sweep.
    pub open spec fn exhausted(self) -> bool {
        self.active.len() == 0 && self.inactive.len() == 0
    }

    /// What holds of a sweep between steps: every edge is slanted; the
    /// active ones end below the scan position; the inactive ones start at
    /// or below it and stand in descending order of their upper ends.
    pub open spec fn well_formed(self) -> bool {
        &&& forall|i: int|
            0 <= i < self.active.len() ==> (#[trigger] self.active[i]).slanted() && self.y
                < self.active[i].y2
        &&& forall|i: int|
            0 <= i < self.inactive.len() ==> (#[trigger] self.inactive[i]).slanted() && self.y
                <= self.inactive[i].y1
        &&& forall|i: int, j: int|
            0 <= i < j < self.inactive.len() ==> precedes(
                EdgeOrder::ByStart,
                #[trigger] self.inactive[j],
                #[trigger] self.inactive[i],
            )
    }

    /// The sweep with another queue.
    pub open spec fn with_queue(self, queue: Seq<Trapezoid>) -> Sweep {
        Sweep { queue, ..self }
    }

    /// The sweep after the inactive edges that start at or above the scan
    /// position have become active, the last first.
    pub open spec fn admitted(self) -> Sweep
        decreases self.inactive.len(),
    {
        if self.inactive.len() > 0 && self.inactive.last().y1 <= self.y {
            Sweep {
                active: self.active.push(self.inactive.last()),
                inactive: self.inactive.drop_last(),
                ..self
            }.admitted()
        } else {
            self
        }
    }

    /// The active edges of the coming step, each placed on the scan line.
    pub open spec fn placed(self) -> Seq<Edge> {
        Seq::new(self.admitted().active.len(), |i: int| self.admitted().active[i].placed(self.y))
    }

    /// The active edges of the coming step from left to right: ascending by
    /// `current_x`, then by `x2`.
    pub open spec fn row(self) -> Seq<Edge> {
        sorted(self.placed(), EdgeOrder::ByScan)
    }

    /// The scan position after the coming step.
    pub open spec fn stop(self) -> Fixed {
        next_stop(self.row(), self.admitted().inactive)
    }

    /// The trapezoids that the coming step makes.
    pub open spec fn emitted(self) -> Seq<Trapezoid> {
        if self.exhausted() {
            Seq::empty()
        } else {
            paired(self.row(), self.y, self.stop())
        }
    }

    /// The sweep after one step. An exhausted sweep stays as it is.
    pub open spec fn stepped(self) -> Sweep {
        if self.exhausted() {
            self
        } else {
            Sweep {
                y: self.stop(),
                active: self.row().filter(outlasts(self.stop())),
                inactive: self.admitted().inactive,
                queue: self.queue + self.emitted(),
            }
        }
    }

    /// The sweep that starts on `edges`: none is active, all stand in
    /// descending order of their upper ends (of `y1`, then of `x1`), and the
    /// scan position is the least `y1`. Without edges the sweep is exhausted
    /// from the start.
    pub open spec fn starting(edges: Seq<Edge>) -> Sweep {
        let inactive = sorted(edges, EdgeOrder::ByStart).reverse();
        Sweep {
            y: if edges.len() == 0 {
                0
            } else {
                inactive.last().y1
            },
            active: Seq::empty(),
            inactive,
            queue: Seq::empty(),
        }
    }

    /// How many more trapezoids the queue takes before its length no longer
    /// fits a `usize`.
    pub open spec fn room(self) -> nat {
        if self.queue.len() >= usize::MAX {
            0
        } else {
            (usize::MAX - self.queue.len()) as nat
        }
    }

    /// One pull: the oldest trapezoid of the queue and the sweep without it.
    /// On an empty queue the sweep first steps until a step makes a
    /// trapezoid; an exhausted sweep with an empty queue gives none.
    pub open spec fn pulled(self) -> (Option<Trapezoid>, Sweep)
        decreases
                (if self.queue.len() > 0 {
                    0int
                } else {
                    1int
                }),
                i32::MAX - self.y,
        when self.well_formed()
    {
        if self.queue.len() > 0 {
            (Some(self.queue.first()), self.with_queue(self.queue.drop_first()))
        } else if self.exhausted() {
            (None, self)
        } else {
            proof {
                lemma_stepped(self);
            }
            self.stepped().pulled()
        }
    }

    /// The queue after the whole sweep: the step is repeated until the sweep
    /// is exhausted. A sweep whose queue has reached the largest length that
    /// a `usize` holds steps no further.
    pub open spec fn drained(self) -> Seq<Trapezoid>
        decreases self.room(), i32::MAX - self.y,
        when self.well_formed()
    {
        if self.exhausted() || self.queue.len() >= usize::MAX {
            self.queue
        } else {
            proof {
                lemma_stepped(self);
            }
            self.stepped().drained()
        }
    }
}

/// A set of fixed-point numbers that is not empty has a least member.
pub proof fn lemma_least(p: spec_fn(Fixed) -> bool, c: Fixed)
    requires
        p(c),
    ensures
        exists|m: Fixed| #[trigger] p(m) && forall|d: Fixed| #[trigger] p(d) ==> m <= d,
    decreases c - i32::MIN,
{
    if forall|d: Fixed| #[trigger] p(d) ==> c <= d {
    } else {
        let d = choose|d: Fixed| #[trigger] p(d) && d < c;
        lemma_least(p, d);
    }
}

/// Where there is a stop, the first of them is one, and none comes before it.
pub proof fn lemma_next_stop(row: Seq<Edge>, waiting: Seq<Edge>, c: Fixed)
    requires
        is_stop(row, waiting, c),
    ensures
        is_next_stop(row, waiting, next_stop(row, waiting)),
        next_stop(row, waiting) <= c,
{
    let p = |d: Fixed| is_stop(row, waiting, d);
    assert(p(c));
    lemma_least(p, c);
    let m = choose|m: Fixed| #[trigger] p(m) && forall|d: Fixed| #[trigger] p(d) ==> m <= d;
    assert forall|d: Fixed| #[trigger] is_stop(row, waiting, d) implies m <= d by {
        assert(p(d));
    }
    assert(is_next_stop(row, waiting, m));
}

/// The first of the stops is the only stop that none comes before.
pub proof fn lemma_next_stop_unique(row: Seq<Edge>, waiting: Seq<Edge>, c: Fixed)
    requires
        is_next_stop(row, waiting, c),
    ensures
        next_stop(row, waiting) == c,
{
    lemma_next_stop(row, waiting, c);
}

/// What admitting does to a well-formed sweep: it moves edges from the
/// inactive to the active ones and changes nothing else; afterwards every
/// inactive edge starts below the scan position.
pub proof fn lemma_admitted(s: Sweep)
    requires
        s.well_formed(),
    ensures
        s.admitted().well_formed(),
        s.admitted().y == s.y,
        s.admitted().queue == s.queue,
        s.admitted().active.len() + s.admitted().inactive.len() == s.active.len()
            + s.inactive.len(),
        forall|i: int|
            0 <= i < s.admitted().inactive.len() ==> s.y < (#[trigger] s.admitted().inactive[i]).y1,
    decreases s.inactive.len(),
{
    if s.inactive.len() > 0 && s.inactive.last().y1 <= s.y {
        let next = Sweep {
            active: s.active.push(s.inactive.last()),
            inactive: s.inactive.drop_last(),
            ..s
        };
        assert(s.inactive.last() == s.inactive[s.inactive.len() - 1]);
        assert forall|i: int| 0 <= i < next.active.len() implies (#[trigger] next.active[i]).slanted()
            && next.y < next.active[i].y2 by {
            if i < s.active.len() {
                assert(next.active[i] == s.active[i]);
            }
        }
        assert forall|i: int, j: int| 0 <= i < j < next.inactive.len() implies precedes(
            EdgeOrder::ByStart,
            #[trigger] next.inactive[j],
            #[trigger] next.inactive[i],
        ) by {
            assert(next.inactive[j] == s.inactive[j] && next.inactive[i] == s.inactive[i]);
        }
        assert forall|i: int| 0 <= i < next.inactive.len() implies (#[trigger] next.inactive[i]).slanted()
            && next.y <= next.inactive[i].y1 by {
            assert(next.inactive[i] == s.inactive[i]);
        }
        lemma_admitted(next);
    } else {
        assert forall|i: int| 0 <= i < s.inactive.len() implies s.y < (#[trigger] s.inactive[i]).y1 by {
            let last = s.inactive.len() - 1;
            if i < last {
                assert(precedes(EdgeOrder::ByStart, s.inactive[last], s.inactive[i]));
            }
        }
    }
}

/// Every edge of the row is slanted and ends below the scan position.
pub proof fn lemma_row(s: Sweep)
    requires
        s.well_formed(),
    ensures
        s.row().len() == s.admitted().active.len(),
        forall|i: int|
            0 <= i < s.row().len() ==> (#[trigger] s.row()[i]).slanted() && s.y < s.row()[i].y2,
{
    lemma_admitted(s);
    lemma_sorted_keeps(s.placed(), EdgeOrder::ByScan);
    assert forall|i: int| 0 <= i < s.row().len() implies (#[trigger] s.row()[i]).slanted() && s.y
        < s.row()[i].y2 by {
        let e = s.row()[i];
        assert(s.row().contains(e));
        assert(s.placed().contains(e));
        let k = choose|k: int| 0 <= k < s.placed().len() && s.placed()[k] == e;
        assert(e == s.admitted().active[k].placed(s.y));
    }
}

/// What one step does to a well-formed sweep that is not exhausted: the
/// sweep stays well-formed and the queue grows by one trapezoid for each pair
/// of the row. A step that makes no trapezoid moves the scan position down.
pub proof fn lemma_stepped(s: Sweep)
    requires
        s.well_formed(),
        !s.exhausted(),
    ensures
        s.stepped().well_formed(),
        is_next_stop(s.row(), s.admitted().inactive, s.stop()),
        s.stepped().queue == s.queue + s.emitted(),
        s.emitted().len() == s.row().len() / 2,
        s.row().len() < 2 ==> s.y < s.stepped().y,
{
    let row = s.row();
    let waiting = s.admitted().inactive;
    lemma_admitted(s);
    lemma_row(s);
    if row.len() > 0 {
        assert(is_stop(row, waiting, row[0].y2));
        lemma_next_stop(row, waiting, row[0].y2);
    } else {
        assert(is_stop(row, waiting, waiting.last().y1));
        lemma_next_stop(row, waiting, waiting.last().y1);
    }
    let stop = s.stop();
    let next = s.stepped();
    assert forall|i: int| 0 <= i < next.active.len() implies (#[trigger] next.active[i]).slanted()
        && next.y < next.active[i].y2 by {
        broadcast use vstd::seq_lib::group_filter_ensures;

        let e = next.active[i];
        assert(row.filter(outlasts(stop)).contains(e));
        row.lemma_filter_contains_rev(outlasts(stop), e);
        assert(outlasts(stop)(e));
    }
    assert forall|i: int| 0 <= i < next.inactive.len() implies (#[trigger] next.inactive[i]).slanted()
        && next.y <= next.inactive[i].y1 by {
        let last = waiting.len() - 1;
        assert(is_stop(row, waiting, waiting.last().y1));
        if i < last {
            assert(precedes(EdgeOrder::ByStart, waiting[last], waiting[i]));
        }
    }
    if row.len() < 2 {
        assert(s.y < stop);
    }
}


/// A sweep is well-formed at its start, and exhausted then only where it has
/// no edge.
pub proof fn lemma_starting(edges: Seq<Edge>)
    requires
        forall|i: int| 0 <= i < edges.len() ==> (#[trigger] edges[i]).slanted(),
    ensures
        Sweep::starting(edges).well_formed(),
        Sweep::starting(edges).exhausted() <==> edges.len() == 0,
{
    let up = sorted(edges, EdgeOrder::ByStart);
    let s = Sweep::starting(edges);
    lemma_sorted_keeps(edges, EdgeOrder::ByStart);
    lemma_sorted_ascending(edges, EdgeOrder::ByStart);
    assert forall|i: int| 0 <= i < s.inactive.len() implies (#[trigger] s.inactive[i]).slanted()
        && s.y <= s.inactive[i].y1 by {
        let e = s.inactive[i];
        let k = up.len() - 1 - i;
        assert(e == up[k]);
        assert(up.contains(e));
        assert(edges.contains(e));
        assert(s.inactive.last() == up[0]);
        if k > 0 {
            assert(precedes(EdgeOrder::ByStart, up[0], up[k]));
        }
    }
    assert forall|i: int, j: int| 0 <= i < j < s.inactive.len() implies precedes(
        EdgeOrder::ByStart,
        #[trigger] s.inactive[j],
        #[trigger] s.inactive[i],
    ) by {
        assert(s.inactive[j] == up[up.len() - 1 - j]);
        assert(s.inactive[i] == up[up.len() - 1 - i]);
    }
}

} // verus!
