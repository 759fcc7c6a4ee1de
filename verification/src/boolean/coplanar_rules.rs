//! The coplanar residency truth table.
//!
//! When a face of operand A lies exactly in a face of operand B, whether that
//! shared face survives a boolean is a residency question: a boundary face of
//! the result exists exactly where result membership differs between the two
//! thin layers straddling the shared plane. `minus` is the layer on A's
//! material side, `plus` the layer on the far side.
//!
//! With the outward normals of the two coincident faces *agreeing*, B's
//! material lies on A's side of the plane; with them *opposing*, B lies on the
//! far side (pure contact). The table this yields for A's face:
//!
//! ```text
//! operation   agree   oppose
//! A − B       drop    keep
//! A ∪ B       keep    drop
//! A ∩ B       keep    drop
//! ```
//!
//! The half-space cut is `solid ∩ half-space`, so a coplanar face whose normal
//! agrees with the cut plane's normal is kept (the intersection/agree cell).

use vstd::prelude::*;

use crate::boolean::poly2d::classify::{keep_spec, Op};

verus! {

/// The residency of the result on each side of a shared plane. A boundary face
/// on the plane survives iff the two layers differ.
#[derive(Debug, Clone, Copy, PartialEq, Eq, Structural)]
pub struct Layers {
    /// Result membership of the layer on A's material side.
    pub minus: bool,
    /// Result membership of the layer on the far side.
    pub plus: bool,
}

impl Layers {
    /// A face on the shared plane survives iff the two straddling layers differ
    /// in result membership.
    pub fn face_survives(self) -> (survives: bool)
        ensures
            survives == (self.minus != self.plus),
    {
        self.minus != self.plus
    }
}

/// The two layers straddling A's coincident face, as a formula.
pub open spec fn layers_self_spec(op: Op, agree: bool) -> Layers {
    Layers { minus: keep_spec(op, true, agree), plus: keep_spec(op, false, !agree) }
}

/// Build the two straddling layers for A's coincident face.
///
/// The `−` layer is inside A; B is present there iff the normals agree (B's
/// material on the same side). The `+` layer is outside A; B is present there
/// iff the normals oppose (B's body on the far side in pure contact).
pub fn layers_self(op: Op, agree: bool) -> (layers: Layers)
    ensures
        layers == layers_self_spec(op, agree),
{
    let minus = op.keep(true, agree);
    let plus = op.keep(false, !agree);
    Layers { minus, plus }
}

/// The coplanar residency table: A's coincident face survives a difference
/// exactly when the normals oppose, and survives a union or an intersection
/// exactly when the normals agree.
pub proof fn lemma_coplanar_table(op: Op, agree: bool)
    ensures
        ({
            let l = layers_self_spec(op, agree);
            l.minus != l.plus
        }) == (if op == Op::Difference {
            !agree
        } else {
            agree
        }),
{
}

/// The half-space cut keeps a coincident lid whose outward normal agrees with
/// the plane normal (the intersection/agree cell) and drops the opposite one.
pub proof fn lemma_cut_keeps_agreeing_lid()
    ensures
        layers_self_spec(Op::Intersection, true).minus != layers_self_spec(
            Op::Intersection,
            true,
        ).plus,
        layers_self_spec(Op::Intersection, false).minus == layers_self_spec(
            Op::Intersection,
            false,
        ).plus,
{
}

} // verus!
