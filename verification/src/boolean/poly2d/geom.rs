//! Orientation of ordered point triples.

use vstd::prelude::*;

verus! {

/// Winding / turn orientation of an ordered point triple, classified with the
/// robust adaptive-precision predicate.
#[derive(Debug, Clone, Copy, PartialEq, Eq, Structural)]
pub enum Orient {
    /// `a → b → c` turns left (counter-clockwise); signed area positive.
    Left,
    /// The three points are collinear (to full floating-point precision).
    Collinear,
    /// `a → b → c` turns right (clockwise); signed area negative.
    Right,
}

} // verus!
