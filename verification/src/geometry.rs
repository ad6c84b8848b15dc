//! The plain records the decomposition reads and writes.

use vstd::prelude::*;

verus! {

/// A 16.16 fixed-point number: the low 16 bits are the fraction.
pub type Fixed = i32;

/// A point of the plane.
#[derive(Clone, Copy, Debug, PartialEq, Eq, Structural)]
pub struct Pointfix {
    pub x: Fixed,
    pub y: Fixed,
}

/// A line segment, given by its two end points.
#[derive(Clone, Copy, Debug, PartialEq, Eq, Structural)]
pub struct Linefix {
    pub p1: Pointfix,
    pub p2: Pointfix,
}

/// A trapezoid between the scan positions `top` and `bottom`. Its slanted
/// sides lie on `left` and `right`, which are whole segments and are not cut
/// to the trapezoid's height.
#[derive(Clone, Copy, Debug, PartialEq, Eq, Structural)]
pub struct Trapezoid {
    pub top: Fixed,
    pub bottom: Fixed,
    pub left: Linefix,
    pub right: Linefix,
}

} // verus!
