//! Segment–segment crossing decisions taken from exact orientations.

use vstd::prelude::*;

use crate::boolean::poly2d::geom::Orient;

verus! {

/// Do the orientations of the two query points relative to a base line say
/// that they straddle it: opposite sides, or one or both on the line?
pub fn orientations_straddle(o_first: Orient, o_second: Orient) -> (r: bool)
    ensures
        r == ((o_first == Orient::Left && o_second == Orient::Right) || (o_first == Orient::Right
            && o_second == Orient::Left) || o_first == Orient::Collinear || o_second
            == Orient::Collinear),
{
    match (o_first, o_second) {
        (Orient::Left, Orient::Right) | (Orient::Right, Orient::Left) | (Orient::Collinear, _) | (
            _,
            Orient::Collinear,
        ) => true,
        _ => false,
    }
}

} // verus!
