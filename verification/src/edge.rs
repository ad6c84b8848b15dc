//! The sides of a contour, as the sweep holds them.

use vstd::prelude::*;
use crate::arith::{
    magnitude,
    clamp_fixed, divide_nearest, divide_toward_zero, lemma_product_bound, lemma_quot_toward_zero,
    quot_nearest, quot_toward_zero, saturate,
};
use crate::geometry::{Fixed, Linefix, Pointfix};

verus! {

/// A side of the contour, from `(x1, y1)` down to `(x2, y2)`, together with
/// the abscissa at which it met the scan line when it was last placed.
#[derive(Clone, Copy, Debug, PartialEq, Eq, Structural)]
pub struct Edge {
    pub x1: Fixed,
    pub y1: Fixed,
    pub x2: Fixed,
    pub y2: Fixed,
    pub current_x: Fixed,
}

/// The largest distance between two fixed-point numbers.
pub open spec fn span_limit() -> int {
    0xffff_ffff
}

impl Edge {
    /// The edge between two points, its upper end first. Of two points at
    /// one height the second comes first.
    pub open spec fn between(p1: Pointfix, p2: Pointfix) -> Edge {
        if p1.y < p2.y {
            Edge { x1: p1.x, y1: p1.y, x2: p2.x, y2: p2.y, current_x: 0 }
        } else {
            Edge { x1: p2.x, y1: p2.y, x2: p1.x, y2: p1.y, current_x: 0 }
        }
    }

    /// An edge that a scan line can cross: its lower end lies strictly below
    /// its upper end.
    pub open spec fn slanted(self) -> bool {
        self.y1 < self.y2
    }

    /// The segment the edge was made from.
    pub open spec fn segment(self) -> Linefix {
        Linefix {
            p1: Pointfix { x: self.x1, y: self.y1 },
            p2: Pointfix { x: self.x2, y: self.y2 },
        }
    }

    /// Where the edge's line meets the scan line at `y`: the interpolation
    /// `x1 + (y - y1) * (x2 - x1) / (y2 - y1)`, its quotient rounded toward
    /// zero and the sum brought into the fixed-point range.
    #[verifier::opaque]
    pub open spec fn x_at(self, y: int) -> Fixed {
        clamp_fixed(
            self.x1 + quot_toward_zero((y - self.y1) * (self.x2 - self.x1), self.y2 - self.y1),
        )
    }

    /// The edge with `current_x` set for the scan line at `y`.
    pub open spec fn placed(self, y: Fixed) -> Edge {
        Edge { current_x: self.x_at(y as int), ..self }
    }

    /// The divisor of the crossing of two edges' lines; zero where they are
    /// parallel.
    pub open spec fn crossing_divisor(self, other: Edge) -> int {
        (self.x2 - self.x1) * (other.y2 - other.y1) - (other.x2 - other.x1) * (self.y2 - self.y1)
    }

    /// The dividend of the crossing of two edges' lines.
    pub open spec fn crossing_dividend(self, other: Edge) -> int {
        (other.x1 - self.x1) * ((self.y2 - self.y1) * (other.y2 - other.y1)) + self.y1 * ((self.x2
            - self.x1) * (other.y2 - other.y1)) - other.y1 * ((other.x2 - other.x1) * (self.y2
            - self.y1))
    }

    /// The height at which the lines through two edges cross, rounded to the
    /// nearest fixed-point number; none where the lines are parallel.
    #[verifier::opaque]
    pub open spec fn crossing(self, other: Edge) -> Option<Fixed> {
        if self.crossing_divisor(other) == 0 {
            None
        } else {
            Some(
                clamp_fixed(
                    quot_nearest(self.crossing_dividend(other), self.crossing_divisor(other)),
                ),
            )
        }
    }

    /// Makes the edge between two points.
    pub fn from_points(p1: Pointfix, p2: Pointfix) -> (e: Edge)
        ensures
            e == Edge::between(p1, p2),
            e.y1 <= e.y2,
    {
        if p1.y < p2.y {
            Edge { x1: p1.x, y1: p1.y, x2: p2.x, y2: p2.y, current_x: 0 }
        } else {
            Edge { x1: p2.x, y1: p2.y, x2: p1.x, y2: p1.y, current_x: 0 }
        }
    }

    /// Sets `current_x` for the scan line at `y`.
    pub fn compute_x(&mut self, y: Fixed)
        requires
            old(self).slanted(),
        ensures
            *final(self) == old(self).placed(y),
    {
        proof {
            reveal(Edge::x_at);
        }
        let rise: i128 = self.y2 as i128 - self.y1 as i128;
        let fall: i128 = y as i128 - self.y1 as i128;
        let run: i128 = self.x2 as i128 - self.x1 as i128;
        proof {
            lemma_product_bound(fall as int, run as int, span_limit(), span_limit());
        }
        let shift: i128 = divide_toward_zero(fall * run, rise);
        self.current_x = saturate(self.x1 as i128 + shift);
    }

    /// The height at which the line through this edge crosses the line
    /// through `other`.
    pub fn compute_intersect(self, other: Edge) -> (at: Option<Fixed>)
        requires
            self.slanted(),
            other.slanted(),
        ensures
            at == self.crossing(other),
    {
        proof {
            reveal(Edge::crossing);
        }
        let run_a: i128 = self.x2 as i128 - self.x1 as i128;
        let rise_a: i128 = self.y2 as i128 - self.y1 as i128;
        let run_b: i128 = other.x2 as i128 - other.x1 as i128;
        let rise_b: i128 = other.y2 as i128 - other.y1 as i128;
        let gap: i128 = other.x1 as i128 - self.x1 as i128;
        proof {
            let s: int = span_limit();
            let t: int = 0xffff_fffe_0000_0001;
            assert(s * s == t);
            lemma_product_bound(run_a as int, rise_b as int, s, s);
            lemma_product_bound(run_b as int, rise_a as int, s, s);
            lemma_product_bound(rise_a as int, rise_b as int, s, s);
            lemma_product_bound(gap as int, rise_a * rise_b, s, t);
            lemma_product_bound(self.y1 as int, run_a * rise_b, s, t);
            lemma_product_bound(other.y1 as int, run_b * rise_a, s, t);
            assert(s * t == 0xffff_fffd_0000_0002_ffff_ffff);
        }
        let slope_a: i128 = run_a * rise_b;
        let slope_b: i128 = run_b * rise_a;
        let divisor: i128 = slope_a - slope_b;
        if divisor == 0 {
            None
        } else {
            let dividend: i128 = gap * (rise_a * rise_b) + self.y1 as i128 * slope_a
                - other.y1 as i128 * slope_b;
            Some(saturate(divide_nearest(dividend, divisor)))
        }
    }
}

/// Whether the point `(x, y)` lies on the line through `e`.
pub open spec fn on_line(e: Edge, x: int, y: int) -> bool {
    (x - e.x1) * (e.y2 - e.y1) == (y - e.y1) * (e.x2 - e.x1)
}

/// Between its ends a slanted edge is placed between the abscissas of its
/// ends, and at each end on that end.
pub proof fn lemma_placed_within(e: Edge, y: int)
    requires
        e.slanted(),
        e.y1 <= y <= e.y2,
    ensures
        e.x1 <= e.x2 ==> e.x1 <= e.x_at(y) <= e.x2,
        e.x2 <= e.x1 ==> e.x2 <= e.x_at(y) <= e.x1,
        y == e.y1 ==> e.x_at(y) == e.x1,
        y == e.y2 ==> e.x_at(y) == e.x2,
{
    reveal(Edge::x_at);
    let rise = e.y2 - e.y1;
    let run = e.x2 - e.x1;
    let fall = y - e.y1;
    let q = quot_toward_zero(fall * run, rise);
    lemma_quot_toward_zero(fall * run, rise);
    assert(run >= 0 ==> 0 <= fall * run <= rise * run) by (nonlinear_arith)
        requires
            0 <= fall <= rise,
    ;
    assert(run <= 0 ==> rise * run <= fall * run <= 0) by (nonlinear_arith)
        requires
            0 <= fall <= rise,
    ;
    assert(run >= 0 ==> 0 <= q <= run) by (nonlinear_arith)
        requires
            rise > 0,
            fall * run >= 0 ==> 0 <= q * rise <= fall * run,
            run >= 0 ==> 0 <= fall * run <= rise * run,
    ;
    assert(run <= 0 ==> run <= q <= 0) by (nonlinear_arith)
        requires
            rise > 0,
            fall * run <= 0 ==> fall * run <= q * rise <= 0,
            run <= 0 ==> rise * run <= fall * run <= 0,
    ;
    if y == e.y1 {
        assert(fall * run == 0) by (nonlinear_arith)
            requires
                fall == 0,
        ;
    }
    if y == e.y2 {
        assert(q == run) by (nonlinear_arith)
            requires
                rise > 0,
                fall == rise,
                magnitude(fall * run - q * rise) < rise,
        ;
    }
}

/// A point that lies on the lines through two edges lies at the height that
/// `crossing` rounds: the dividend over the divisor. And a point of one line
/// at that height lies on the other line too.
pub proof fn lemma_crossing_height(a: Edge, b: Edge, x: int, y: int)
    requires
        a.slanted(),
        b.slanted(),
        on_line(a, x, y),
    ensures
        on_line(b, x, y) <==> y * a.crossing_divisor(b) == a.crossing_dividend(b),
{
    let run_a = a.x2 - a.x1;
    let rise_a = a.y2 - a.y1;
    let run_b = b.x2 - b.x1;
    let rise_b = b.y2 - b.y1;
    let xa = a.x1 as int;
    let ya = a.y1 as int;
    let xb = b.x1 as int;
    let yb = b.y1 as int;
    let gap = (x - xb) * rise_b - (y - yb) * run_b;
    let p = rise_a * rise_b;
    let q = run_a * rise_b;
    let r = run_b * rise_a;
    assert((x - xa) * p == (y - ya) * q) by (nonlinear_arith)
        requires
            (x - xa) * rise_a == (y - ya) * run_a,
            p == rise_a * rise_b,
            q == run_a * rise_b,
    ;
    assert(rise_a * gap == (x - xb) * p - (y - yb) * r) by (nonlinear_arith)
        requires
            gap == (x - xb) * rise_b - (y - yb) * run_b,
            p == rise_a * rise_b,
            r == run_b * rise_a,
    ;
    assert(y * (q - r) - ((xb - xa) * p + ya * q - yb * r) == (y - ya) * q - (y - yb) * r - (xb
        - xa) * p) by (nonlinear_arith);
    assert((x - xa) * p - (xb - xa) * p == (x - xb) * p) by (nonlinear_arith);
    assert(rise_a * gap == y * a.crossing_divisor(b) - a.crossing_dividend(b));
    assert(rise_a * gap == 0 <==> gap == 0) by (nonlinear_arith)
        requires
            rise_a > 0,
    ;
}

} // verus!
