//! Opaque geometry identifiers.
//!
//! Each wraps the index of its geometry in the store. Topology refers to
//! geometry only through them, so two half-edges on one shared curve (or two
//! faces on one shared plane) carry equal identifiers.

use vstd::prelude::*;

verus! {

/// Handle to the curve geometry a half-edge runs along.
#[derive(Debug, Clone, Copy, PartialEq, Eq, Hash, Structural)]
pub struct CurveId(pub usize);

/// Handle to the surface geometry a face lies on.
#[derive(Debug, Clone, Copy, PartialEq, Eq, Hash, Structural)]
pub struct SurfaceId(pub usize);

} // verus!
