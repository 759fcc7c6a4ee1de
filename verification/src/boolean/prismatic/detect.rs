//! Operand bookkeeping of the common-direction detection.

use vstd::prelude::*;

use crate::boolean::prismatic::error::{Operand, PrismError};

verus! {

/// Re-tag a circular-operand failure with the operand it came from (the
/// section step cannot know which side it is building); any other failure is
/// left as it is.
pub fn relabel(e: PrismError, operand: Operand) -> (r: PrismError)
    ensures
        (e is CircularInvolved) ==> r == (PrismError::CircularInvolved { operand }),
        !(e is CircularInvolved) ==> r == e,
{
    match e {
        PrismError::CircularInvolved { .. } => PrismError::CircularInvolved { operand },
        other => other,
    }
}

} // verus!
