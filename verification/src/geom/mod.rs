//! Geometry handles and kinds: the identifiers through which topology names
//! shared curves and surfaces without holding coordinates, and the surface
//! kinds the decisions branch on.

pub mod ids;
pub mod surface;

pub use ids::{CurveId, SurfaceId};
pub use surface::SurfaceGeom;
