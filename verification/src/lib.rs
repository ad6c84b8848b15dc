//! Decomposition of a closed polygon into trapezoids with horizontal tops and
//! bottoms, in 16.16 fixed-point coordinates, and the rules by which a
//! request that carries them is made ready for the wire.
//!
//! A contour is given by its corner points. Its sides that are not horizontal
//! are swept from the top down by a scan line; between two stops of the scan
//! line the sides that it crosses are paired from left to right, and every
//! pair bounds one trapezoid. All arithmetic is exact integer arithmetic.

pub mod arith;
pub mod contour;
pub mod dispatch;
pub mod edge;
pub mod engine;
pub mod geometry;
pub mod laws;
pub mod order;
pub mod shapes;
pub mod sweep;

pub use edge::Edge;
pub use engine::{edges_to_trapezoids, tesselate_shape, Trapezoids};
pub use geometry::{Fixed, Linefix, Pointfix, Trapezoid};
