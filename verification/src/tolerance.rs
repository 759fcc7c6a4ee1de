//! Three-valued side classification shared by every predicate.

use vstd::prelude::*;

verus! {

/// Tolerant classification of a point against an oriented plane (or of a
/// triangle's orientation): strictly on the normal side, on the plane within
/// tolerance, or strictly on the far side.
#[derive(Debug, Clone, Copy, PartialEq, Eq, Structural)]
pub enum Sign3 {
    /// On the far side of the plane (negative signed distance).
    Below,
    /// On the plane within tolerance.
    On,
    /// On the normal side of the plane (positive signed distance).
    Above,
}

} // verus!
