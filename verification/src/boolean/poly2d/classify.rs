//! Face classification: the shared in/out classifier and the per-operation
//! keep/drop truth tables.
//!
//! Every boolean operation selects a face purely from `(inside_a, inside_b)`;
//! only the truth table differs between difference, union and intersection.
//! `inside` is the non-zero winding rule.

use vstd::prelude::*;

verus! {

/// The boolean operation to perform.
#[derive(Debug, Clone, Copy, PartialEq, Eq, Structural)]
pub enum Op {
    /// `A − B`: keep points in A but not in B.
    Difference,
    /// `A ∪ B`: keep points in A or B.
    Union,
    /// `A ∩ B`: keep points in both A and B.
    Intersection,
}

/// The residency truth table of `op` as a formula.
pub open spec fn keep_spec(op: Op, inside_a: bool, inside_b: bool) -> bool {
    match op {
        Op::Difference => inside_a && !inside_b,
        Op::Union => inside_a || inside_b,
        Op::Intersection => inside_a && inside_b,
    }
}

impl Op {
    /// Keep/drop decision for a face given its insideness in each operand.
    pub fn keep(self, inside_a: bool, inside_b: bool) -> (kept: bool)
        ensures
            kept == keep_spec(self, inside_a, inside_b),
    {
        match self {
            Op::Difference => inside_a && !inside_b,
            Op::Union => inside_a || inside_b,
            Op::Intersection => inside_a && inside_b,
        }
    }
}

/// `true` if a winding number means "inside" under the non-zero rule.
pub fn inside(winding: i32) -> (r: bool)
    ensures
        r == (winding != 0),
{
    winding != 0
}

/// Union and intersection do not depend on the order of the operands.
pub proof fn lemma_union_intersection_commute(a: bool, b: bool)
    ensures
        keep_spec(Op::Union, a, b) == keep_spec(Op::Union, b, a),
        keep_spec(Op::Intersection, a, b) == keep_spec(Op::Intersection, b, a),
{
}

/// The difference `A − B` is the intersection of `A` with the complement of
/// `B`: one shared classifier, the complement folded into the table.
pub proof fn lemma_difference_is_intersection_with_complement(a: bool, b: bool)
    ensures
        keep_spec(Op::Difference, a, b) == keep_spec(Op::Intersection, a, !b),
{
}

/// A face outside both operands is never kept, and a face inside both is kept
/// by union and intersection but never by difference.
pub proof fn lemma_table_corners(op: Op)
    ensures
        !keep_spec(op, false, false),
        keep_spec(op, true, true) == (op != Op::Difference),
{
}

/// Whatever the operation, the kept set lies inside the union of the operands
/// and contains their intersection unless the operation is a difference.
pub proof fn lemma_kept_within_union(op: Op, a: bool, b: bool)
    ensures
        keep_spec(op, a, b) ==> keep_spec(Op::Union, a, b),
        op != Op::Difference ==> (keep_spec(Op::Intersection, a, b) ==> keep_spec(op, a, b)),
{
}

} // verus!
