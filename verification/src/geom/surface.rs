//! Surface kinds.

use vstd::prelude::*;

verus! {

/// The surface a face lies on: a plane or a circular cylinder, each carrying
/// its geometric description.
#[derive(Debug, Clone, Copy, PartialEq)]
pub enum SurfaceGeom<P, C> {
    /// A planar surface.
    Plane(P),
    /// A circular cylinder surface.
    Cylinder(C),
}

} // verus!
