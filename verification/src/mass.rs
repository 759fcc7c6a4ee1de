//! Failures of the closed-form mass-property integrals.

use vstd::prelude::*;

verus! {

/// A face whose area or orientation could not be computed in closed form.
#[derive(Debug, Clone, Copy, PartialEq, Eq, Structural)]
pub enum AreaError {
    /// A cylinder face whose boundary is not a recognised rim pair.
    UnsupportedCylinderFace,
    /// A surface kind the area computation does not handle.
    UnsupportedSurface,
}

/// A face configuration the centroid integral does not handle.
#[derive(Debug, Clone, Copy, PartialEq, Eq, Structural)]
pub enum CentroidError {
    /// The solid is empty (zero volume), so a centroid is undefined.
    EmptySolid,
    /// A non-planar face was present; the first-moment closed form covers
    /// planar-faced solids only, and the face is reported rather than skipped.
    UnsupportedCurvedFace,
}

/// A face configuration the closed-form volume integral does not cover.
#[derive(Debug, Clone, Copy, PartialEq, Eq, Structural)]
pub enum VolumeError {
    /// A cylindrical face whose boundary is not the two circular rim arcs the
    /// closed-form patch integral expects (e.g. an elliptical rim left by an
    /// oblique cut).
    UnsupportedCylinderFace,
    /// A face with a surface kind the volume integral does not handle.
    UnsupportedSurface,
}

} // verus!
