//! Which prismatic path an entry point takes, decided from its operand count,
//! and the residency rule of the multi-opening pass.

use vstd::prelude::*;

use crate::boolean::prismatic::error::PrismError;

verus! {

/// The default boundary-complexity budget: the build's cost is bounded by
/// `edges · bands + cells · levels`, which stays in the low hundreds for a
/// real member; the budget isolates a pathological input long before it
/// grinds while never tripping on a legitimate wall with windows.
pub const DEFAULT_BUDGET: usize = 100_000;

/// How a union of extruded leaves is built.
#[derive(Debug, Clone, Copy, PartialEq, Eq)]
pub enum UnionPlan<L> {
    /// No leaf: the empty B-rep.
    Empty,
    /// One leaf: that leaf extruded.
    Single(L),
    /// Two leaves: the prismatic union of the pair.
    Pair(L, L),
}

/// The union of extruded leaves on the 2.5-D fast path: none gives the empty
/// B-rep, one its own extrusion, two the pairwise union. Three or more would
/// need a B-rep × B-rep boolean and are reported as having no common direction
/// so that the caller falls back cleanly.
pub fn union_plan<L: Copy>(leaves: &Vec<L>) -> (r: Result<UnionPlan<L>, PrismError>)
    ensures
        leaves.len() == 0 ==> r == Ok::<UnionPlan<L>, PrismError>(UnionPlan::Empty),
        leaves.len() == 1 ==> r == Ok::<UnionPlan<L>, PrismError>(UnionPlan::Single(leaves@[0])),
        leaves.len() == 2 ==> r == Ok::<UnionPlan<L>, PrismError>(UnionPlan::Pair(leaves@[0], leaves@[1])),
        leaves.len() > 2 ==> r == Err::<UnionPlan<L>, PrismError>(PrismError::NoCommonDirection),
{
    if leaves.len() == 0 {
        Ok(UnionPlan::Empty)
    } else if leaves.len() == 1 {
        Ok(UnionPlan::Single(leaves[0]))
    } else if leaves.len() == 2 {
        Ok(UnionPlan::Pair(leaves[0], leaves[1]))
    } else {
        Err(PrismError::NoCommonDirection)
    }
}

/// How openings are subtracted from a base.
#[derive(Debug, Clone, Copy, PartialEq, Eq)]
pub enum OpeningPlan<L> {
    /// No opening: the base extruded.
    Single(L),
    /// One opening: the prismatic difference.
    Difference(L, L),
    /// Several openings: one multi-band pass with the residency rule of
    /// [`opening_residency`].
    MultiBand,
}

/// The path of an opening subtraction: no opening leaves the base as it is,
/// one is a plain difference, several go through the single multi-band pass.
pub fn opening_subtraction_plan<L: Copy>(base: L, openings: &Vec<L>) -> (r: OpeningPlan<L>)
    ensures
        openings.len() == 0 ==> r == OpeningPlan::Single(base),
        openings.len() == 1 ==> r == OpeningPlan::Difference(base, openings@[0]),
        openings.len() > 1 ==> r == OpeningPlan::<L>::MultiBand,
{
    if openings.len() == 0 {
        OpeningPlan::Single(base)
    } else if openings.len() == 1 {
        OpeningPlan::Difference(base, openings[0])
    } else {
        OpeningPlan::MultiBand
    }
}

/// The residency rule of the multi-opening pass: a voxel is kept where the
/// base (operand 0) is present and no opening (operands 1..) covers it.
pub fn opening_residency(flags: &[bool]) -> (r: bool)
    requires
        flags@.len() >= 1,
    ensures
        r == (flags@[0] && forall|i: int| 1 <= i < flags@.len() ==> !#[trigger] flags@[i]),
{
    if !flags[0] {
        return false;
    }
    let mut i: usize = 1;
    while i < flags.len()
        invariant
            1 <= i <= flags@.len(),
            forall|j: int| 1 <= j < i ==> !#[trigger] flags@[j],
        decreases flags@.len() - i,
    {
        if flags[i] {
            return false;
        }
        i = i + 1;
    }
    true
}

} // verus!
