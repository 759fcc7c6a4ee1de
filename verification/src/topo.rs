//! Topological orientation flags.

use vstd::prelude::*;

verus! {

/// Whether a face's normal agrees with the normal of the surface it lies on.
#[derive(Debug, Clone, Copy, PartialEq, Eq, Structural)]
pub enum Sense {
    /// The face normal is the surface normal.
    Same,
    /// The face normal is the surface normal reversed.
    Reversed,
}

} // verus!
