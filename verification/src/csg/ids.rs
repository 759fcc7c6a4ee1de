//! Stable identifiers for members and openings.
//!
//! These are `u64` newtypes assigned by the caller; the kernel never invents
//! them. External references go through stable ids rather than B-rep face
//! indices, which avoids the topological-naming problem.

use vstd::prelude::*;

verus! {

/// A stable identifier for a member (column, beam, wall, …).
#[derive(Debug, Clone, Copy, PartialEq, Eq, Hash, PartialOrd, Ord, Structural)]
pub struct StableId(pub u64);

/// A stable identifier for an opening (a void cut from a member).
#[derive(Debug, Clone, Copy, PartialEq, Eq, Hash, PartialOrd, Ord, Structural)]
pub struct OpeningId(pub u64);

} // verus!
