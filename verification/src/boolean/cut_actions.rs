//! The branching of the half-space cut: the fast paths for a whole solid,
//! and what happens to each face given its vertex side summary and the
//! geometric crossings found for it.

use vstd::prelude::*;

use crate::geom::SurfaceGeom;

verus! {

/// What the cut does with one face.
#[derive(Debug, Clone, Copy, PartialEq, Eq, Structural)]
pub enum FaceAction {
    /// Split a cylindrical face that the plane crosses between its vertices.
    SplitCylinder,
    /// The face lies in the cut plane: the coplanar lid rule decides it.
    Coplanar,
    /// A planar face whose vertices all lie on the plane though the face does
    /// not: split it along the section through those vertices.
    SplitPlanar,
    /// A cylindrical face whose boundary lies in the plane: the side its
    /// surface bulges to decides it.
    OnCylinder,
    /// The whole face lies on the dropped side.
    Drop,
    /// The whole face is kept as it is; its on-plane edges join the cap
    /// boundary.
    CopyVerbatim,
    /// The face straddles the plane, or an arc edge crosses it: split it.
    Split,
}

/// The action for a face on `surface` whose vertex side summary is `(kept,
/// dropped, on)`, given whether one of its arc edges crosses the plane
/// between its ends, whether (for a cylinder) the plane crosses its surface
/// between its vertices, and whether (for a plane) it is the cut plane.
pub open spec fn face_action_spec<P, C>(
    surface: SurfaceGeom<P, C>,
    kept: bool,
    dropped: bool,
    on: bool,
    arc_crossed: bool,
    cylinder_crossed: bool,
    coplanar: bool,
) -> FaceAction {
    if surface is Cylinder && cylinder_crossed {
        FaceAction::SplitCylinder
    } else if !kept && !dropped && on && !arc_crossed {
        if surface is Plane {
            if coplanar {
                FaceAction::Coplanar
            } else {
                FaceAction::SplitPlanar
            }
        } else {
            FaceAction::OnCylinder
        }
    } else if dropped && !kept && !arc_crossed {
        FaceAction::Drop
    } else if kept && !dropped && !arc_crossed {
        FaceAction::CopyVerbatim
    } else {
        FaceAction::Split
    }
}

/// Decide what the cut does with a face: a cylinder crossed between its
/// vertices is split on the cylinder walk; an all-on face with no arc
/// crossing is coplanar, split through its on vertices, or (a cylinder)
/// decided by its bulge; a face wholly on one side is dropped or kept as it
/// is; anything else straddles and is split. `cylinder_crossed` is read only
/// for a cylinder, `coplanar` only for an all-on planar face.
pub fn face_action<P, C>(
    surface: &SurfaceGeom<P, C>,
    kept: bool,
    dropped: bool,
    on: bool,
    arc_crossed: bool,
    cylinder_crossed: bool,
    coplanar: bool,
) -> (a: FaceAction)
    ensures
        a == face_action_spec(*surface, kept, dropped, on, arc_crossed, cylinder_crossed, coplanar),
        kept && dropped ==> a == FaceAction::Split || a == FaceAction::SplitCylinder,
{
    if let SurfaceGeom::Cylinder(_) = surface {
        if cylinder_crossed {
            return FaceAction::SplitCylinder;
        }
    }
    if !kept && !dropped && on && !arc_crossed {
        return match surface {
            SurfaceGeom::Plane(_) => if coplanar {
                FaceAction::Coplanar
            } else {
                FaceAction::SplitPlanar
            },
            SurfaceGeom::Cylinder(_) => FaceAction::OnCylinder,
        };
    }
    if dropped && !kept && !arc_crossed {
        return FaceAction::Drop;
    }
    if kept && !dropped && !arc_crossed {
        return FaceAction::CopyVerbatim;
    }
    FaceAction::Split
}


/// How the cut treats a whole solid before looking at its faces.
#[derive(Debug, Clone, Copy, PartialEq, Eq, Structural)]
pub enum SolidPath {
    /// Nothing lies on the kept side or on the plane: the result is empty.
    Empty,
    /// Every vertex is strictly kept and no cylinder face is crossed between
    /// its vertices: the solid is kept whole.
    AllKept,
    /// The faces must be processed one by one.
    Process,
}

/// The fast paths of the cut from the solid's vertex side summary `(kept,
/// dropped, on)`: with nothing kept and nothing on the plane the result is
/// empty; with nothing dropped and nothing on the plane the solid is kept
/// whole unless the plane crosses one of its cylinder faces between
/// vertices; otherwise each face is processed.
pub fn solid_path(kept: bool, dropped: bool, on: bool, cylinder_crossed: bool) -> (p: SolidPath)
    ensures
        p == if !kept && !on {
            SolidPath::Empty
        } else if !dropped && !on && !cylinder_crossed {
            SolidPath::AllKept
        } else {
            SolidPath::Process
        },
{
    if !kept && !on {
        return SolidPath::Empty;
    }
    if !dropped && !on && !cylinder_crossed {
        return SolidPath::AllKept;
    }
    SolidPath::Process
}

} // verus!
