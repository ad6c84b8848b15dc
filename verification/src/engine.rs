//! The sweep engine: the state of a sweep in memory, one step at a time or
//! all at once.

use std::collections::VecDeque;
use vstd::prelude::*;
use crate::contour::{drop_level_edges, lemma_working_edges_slanted, points_to_edges, working_edges};
use crate::edge::Edge;
use crate::geometry::{Fixed, Linefix, Pointfix, Trapezoid};
use crate::order::{reverse_edges, sort_edges, EdgeOrder};
use crate::sweep::{
    crossing_stop, is_next_stop, is_stop, lemma_next_stop_unique, lemma_starting, lemma_stepped,
    outlasts, paired, stop_between, trapezoid_between, Sweep,
};

verus! {

/// A sweep over the edges of a contour. It hands out the trapezoids of the
/// contour from the top down, and cannot be started again.
pub struct Trapezoids {
    active: Vec<Edge>,
    inactive: Vec<Edge>,
    y: Fixed,
    queue: VecDeque<Trapezoid>,
}

impl View for Trapezoids {
    type V = Sweep;

    closed spec fn view(&self) -> Sweep {
        Sweep { y: self.y, active: self.active@, inactive: self.inactive@, queue: self.queue@ }
    }
}

/// Places each edge on the scan line at `y`.
fn place_edges(edges: &Vec<Edge>, y: Fixed) -> (out: Vec<Edge>)
    requires
        forall|i: int| 0 <= i < edges@.len() ==> (#[trigger] edges@[i]).slanted(),
    ensures
        out@ == Seq::new(edges@.len(), |i: int| edges@[i].placed(y)),
{
    let mut out: Vec<Edge> = Vec::with_capacity(edges.len());
    let mut i: usize = 0;
    while i < edges.len()
        invariant
            i <= edges.len(),
            out@.len() == i,
            forall|i: int| 0 <= i < edges@.len() ==> (#[trigger] edges@[i]).slanted(),
            forall|k: int| 0 <= k < i ==> out@[k] == edges@[k].placed(y),
        decreases edges.len() - i,
    {
        let mut e = edges[i];
        e.compute_x(y);
        out.push(e);
        i += 1;
    }
    proof {
        assert(out@ =~= Seq::new(edges@.len(), |i: int| edges@[i].placed(y)));
    }
    out
}

/// The scan position just past the crossing of two neighbours of the row.
fn crossing_stop_of(a: Edge, b: Edge) -> (stop: Option<Fixed>)
    requires
        a.slanted(),
        b.slanted(),
    ensures
        stop == crossing_stop(a, b),
{
    if a.x2 > b.x2 {
        match a.compute_intersect(b) {
            Some(at) => Some(
                if at == i32::MAX {
                    at
                } else {
                    at + 1
                },
            ),
            None => None,
        }
    } else {
        None
    }
}

/// Finds the first of the stops.
fn next_stop_of(row: &Vec<Edge>, waiting: &Vec<Edge>) -> (stop: Fixed)
    requires
        row@.len() + waiting@.len() > 0,
        forall|i: int| 0 <= i < row@.len() ==> (#[trigger] row@[i]).slanted(),
    ensures
        is_next_stop(row@, waiting@, stop),
{
    let mut best: Fixed = if waiting.len() > 0 {
        waiting[waiting.len() - 1].y1
    } else {
        row[0].y2
    };
    proof {
        if waiting.len() == 0 {
            assert(row@[0].y2 == best);
        }
    }
    let mut i: usize = 0;
    while i < row.len()
        invariant
            i <= row.len(),
            is_stop(row@, waiting@, best),
            waiting@.len() > 0 ==> best <= waiting@.last().y1,
            forall|k: int| 0 <= k < i ==> best <= (#[trigger] row@[k]).y2,
        decreases row.len() - i,
    {
        if row[i].y2 < best {
            best = row[i].y2;
            assert(row@[i as int].y2 == best);
        }
        i += 1;
    }
    let pairs: usize = if row.len() == 0 {
        0
    } else {
        row.len() - 1
    };
    let mut j: usize = 0;
    while j < pairs
        invariant
            j <= pairs,
            pairs == if row@.len() == 0 { 0 } else { row@.len() - 1 },
            is_stop(row@, waiting@, best),
            waiting@.len() > 0 ==> best <= waiting@.last().y1,
            forall|i: int| 0 <= i < row@.len() ==> (#[trigger] row@[i]).slanted(),
            forall|k: int| 0 <= k < row@.len() ==> best <= (#[trigger] row@[k]).y2,
            forall|k: int|
                0 <= k < j ==> match #[trigger] stop_between(row@, k) {
                    Some(c) => best <= c,
                    None => true,
                },
        decreases pairs - j,
    {
        match crossing_stop_of(row[j], row[j + 1]) {
            Some(c) => {
                if c < best {
                    best = c;
                    assert(stop_between(row@, j as int) == Some(best));
                }
            },
            None => {},
        }
        j += 1;
    }
    best
}

/// Makes one trapezoid for each pair of neighbours in `row` and puts them at
/// the end of `queue`.
fn emit(queue: &mut VecDeque<Trapezoid>, row: &Vec<Edge>, top: Fixed, bottom: Fixed)
    ensures
        final(queue)@ == old(queue)@ + paired(row@, top, bottom),
{
    let mut i: usize = 0;
    proof {
        assert(queue@ =~= old(queue)@ + paired(row@.take(0), top, bottom));
    }
    while i + 1 < row.len()
        invariant
            i % 2 == 0,
            i <= row.len(),
            queue@ == old(queue)@ + paired(row@.take(i as int), top, bottom),
        decreases row.len() - i,
    {
        let left = row[i];
        let right = row[i + 1];
        queue.push_back(
            Trapezoid {
                top,
                bottom,
                left: Linefix {
                    p1: Pointfix { x: left.x1, y: left.y1 },
                    p2: Pointfix { x: left.x2, y: left.y2 },
                },
                right: Linefix {
                    p1: Pointfix { x: right.x1, y: right.y1 },
                    p2: Pointfix { x: right.x2, y: right.y2 },
                },
            },
        );
        proof {
            let done = paired(row@.take(i as int), top, bottom);
            let more = paired(row@.take(i + 2), top, bottom);
            assert(more =~= done.push(trapezoid_between(top, bottom, row@[i as int], row@[i + 1])));
            assert(queue@ =~= old(queue)@ + more);
        }
        i += 2;
    }
    proof {
        assert(paired(row@.take(i as int), top, bottom) =~= paired(row@, top, bottom));
    }
}

/// The edges of `row` that end below `y`.
fn retire(row: &Vec<Edge>, y: Fixed) -> (kept: Vec<Edge>)
    ensures
        kept@ == row@.filter(outlasts(y)),
{
    let mut kept: Vec<Edge> = Vec::with_capacity(row.len());
    let mut i: usize = 0;
    proof {
        reveal(Seq::filter);
    }
    while i < row.len()
        invariant
            i <= row.len(),
            kept@ == row@.take(i as int).filter(outlasts(y)),
        decreases row.len() - i,
    {
        proof {
            assert(row@.take(i + 1) == row@.take(i as int).push(row@[i as int]));
            row@.take(i as int).lemma_filter_push(row@[i as int], outlasts(y));
        }
        if row[i].y2 > y {
            kept.push(row[i]);
        }
        i += 1;
    }
    proof {
        assert(row@.take(i as int) == row@);
    }
    kept
}

/// Starts a sweep on a set of edges.
pub fn edges_to_trapezoids(edges: Vec<Edge>) -> (sweep: Trapezoids)
    requires
        forall|i: int| 0 <= i < edges@.len() ==> (#[trigger] edges@[i]).slanted(),
    ensures
        sweep@ == Sweep::starting(edges@),
        sweep@.well_formed(),
{
    let up = sort_edges(&edges, EdgeOrder::ByStart);
    let inactive = reverse_edges(&up);
    let y: Fixed = if inactive.len() == 0 {
        0
    } else {
        inactive[inactive.len() - 1].y1
    };
    proof {
        lemma_starting(edges@);
        crate::order::lemma_sorted_keeps(edges@, EdgeOrder::ByStart);
    }
    Trapezoids { active: Vec::new(), inactive, y, queue: VecDeque::new() }
}

/// Starts the sweep that cuts the closed contour through `points` into
/// trapezoids. Horizontal sides take no part in it.
pub fn tesselate_shape(points: Vec<Pointfix>) -> (sweep: Trapezoids)
    ensures
        sweep@ == Sweep::starting(working_edges(points@)),
        sweep@.well_formed(),
{
    let sides = points_to_edges(&points);
    let edges = drop_level_edges(sides);
    proof {
        lemma_working_edges_slanted(points@);
    }
    edges_to_trapezoids(edges)
}

impl Trapezoids {
    /// The number of edges that the sweep has not done with, or the largest
    /// `usize` where there are more.
    pub fn edges_left(&self) -> (n: usize)
        ensures
            n == if self@.active.len() + self@.inactive.len() > usize::MAX {
                usize::MAX as nat
            } else {
                self@.active.len() + self@.inactive.len()
            },
    {
        let active = self.active.len();
        let inactive = self.inactive.len();
        if active > usize::MAX - inactive {
            usize::MAX
        } else {
            active + inactive
        }
    }

    /// Whether nothing is left to sweep.
    pub fn is_exhausted(&self) -> (r: bool)
        ensures
            r == self@.exhausted(),
    {
        self.active.is_empty() && self.inactive.is_empty()
    }

    /// The scan position.
    pub fn scan_position(&self) -> (y: Fixed)
        ensures
            y == self@.y,
    {
        self.y
    }

    /// The number of trapezoids made and not yet handed out.
    pub fn queued(&self) -> (n: usize)
        ensures
            n == self@.queue.len(),
    {
        self.queue.len()
    }

    /// Runs one step of the sweep, which puts its trapezoids at the end of
    /// the queue. Returns `false`, and changes nothing, where the sweep is
    /// exhausted.
    pub fn populate_queue(&mut self) -> (more: bool)
        requires
            old(self)@.well_formed(),
        ensures
            more == !old(self)@.exhausted(),
            final(self)@ == old(self)@.stepped(),
            final(self)@.well_formed(),
    {
        if self.active.is_empty() && self.inactive.is_empty() {
            return false;
        }
        let y = self.y;
        let ghost before = self@;
        while self.inactive.len() > 0 && self.inactive[self.inactive.len() - 1].y1 <= y
            invariant
                self.y == y,
                self.queue@ == before.queue,
                self@.admitted() == before.admitted(),
            decreases self.inactive.len(),
        {
            let edge = self.inactive.pop().unwrap();
            self.active.push(edge);
        }
        proof {
            crate::sweep::lemma_admitted(before);
            crate::sweep::lemma_row(before);
            lemma_stepped(before);
            assert(self@ == before.admitted());
        }
        let placed = place_edges(&self.active, y);
        let row = sort_edges(&placed, EdgeOrder::ByScan);
        assert(row@ == before.row());
        let next_y = next_stop_of(&row, &self.inactive);
        proof {
            lemma_next_stop_unique(row@, self.inactive@, next_y);
        }
        emit(&mut self.queue, &row, y, next_y);
        self.y = next_y;
        self.active = retire(&row, next_y);
        true
    }

    /// Hands out the next trapezoid; `None` once the sweep is exhausted and
    /// the queue is empty.
    pub fn next_one(&mut self) -> (next: Option<Trapezoid>)
        requires
            old(self)@.well_formed(),
        ensures
            (next, final(self)@) == old(self)@.pulled(),
            final(self)@.well_formed(),
    {
        loop
            invariant
                self@.well_formed(),
                self@.pulled() == old(self)@.pulled(),
            decreases
                    (if self@.queue.len() > 0 {
                        0int
                    } else {
                        1int
                    }),
                    i32::MAX - self@.y,
        {
            let ghost before = self@;
            match self.queue.pop_front() {
                Some(trapezoid) => {
                    assert(self@ == before.with_queue(before.queue.drop_first()));
                    return Some(trapezoid);
                },
                None => {},
            }
            proof {
                assert(self@ == before);
                if !before.exhausted() {
                    lemma_stepped(before);
                }
            }
            if !self.populate_queue() {
                return None;
            }
        }
    }

    /// Runs the sweep to its end and hands out every trapezoid left, the
    /// oldest first. The sweep is cut off where the queue reaches the largest
    /// length that a `usize` holds.
    pub fn drain_all(self) -> (all: Vec<Trapezoid>)
        requires
            self@.well_formed(),
        ensures
            all@ == self@.drained(),
    {
        let mut sweep = self;
        loop
            invariant
                sweep@.well_formed(),
                sweep@.drained() == self@.drained(),
            ensures
                sweep@.queue == self@.drained(),
            decreases sweep@.room(), i32::MAX - sweep@.y,
        {
            if sweep.queue.len() >= usize::MAX {
                break ;
            }
            proof {
                if !sweep@.exhausted() {
                    lemma_stepped(sweep@);
                }
            }
            if !sweep.populate_queue() {
                break ;
            }
        }
        let mut all: Vec<Trapezoid> = Vec::with_capacity(sweep.queue.len());
        loop
            invariant
                all@ + sweep.queue@ == self@.drained(),
            ensures
                all@ == self@.drained(),
            decreases sweep.queue@.len(),
        {
            let ghost rest = sweep.queue@;
            match sweep.queue.pop_front() {
                Some(trapezoid) => {
                    all.push(trapezoid);
                    assert(all@ + sweep.queue@ =~= self@.drained()) by {
                        assert(rest =~= seq![trapezoid] + sweep.queue@);
                    }
                },
                None => {
                    assert(all@ + sweep.queue@ =~= all@);
                    break ;
                },
            }
        }
        all
    }
}

} // verus!
