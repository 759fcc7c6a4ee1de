//! Members and their evaluation cache, the evaluation error vocabulary and
//! the per-member evaluation plan.

use vstd::prelude::*;
use vstd::std_specs::cmp::PartialEqSpec;

use crate::boolean::prismatic::error::{Operand, PrismError};
use crate::csg::node::{CsgNode, Opening};

verus! {

/// Why a member could not be reduced to the 2.5-D prismatic fast path.
#[derive(Debug, Clone, Copy, PartialEq, Eq, Structural)]
pub enum UnsupportedReason {
    /// The two operands share no common prismatic direction.
    NoCommonDirection,
    /// An operand has a circular cross-section whose curved boundary would land
    /// on the 2-D side as an arc.
    CircularOperand {
        /// Which operand is circular.
        operand: Operand,
    },
    /// The 2-D engine encountered an arc it cannot yet handle.
    ArcNotYetSupported,
    /// A boolean whose operands are not all single extruded leaves.
    NonLeafOperands,
    /// A curved panel is present in the CSG tree.
    CurvedPanel,
}

/// A machine-readable evaluation failure. Failures are member-local and
/// detectable, never silent data corruption.
#[derive(Debug, Clone, PartialEq)]
pub enum EvalError {
    /// A full 3-D boolean was required but is not supported; the result is
    /// withheld rather than approximated.
    Unsupported3dBoolean {
        /// Why the prismatic reduction was not applicable.
        reason: UnsupportedReason,
    },
    /// The evaluation exceeded the configured complexity limit.
    ComplexityLimit {
        /// The complexity measure that exceeded the budget.
        measure: usize,
        /// The budget it exceeded.
        budget: usize,
    },
    /// Evaluation produced a structurally invalid B-rep; the defects are
    /// carried as diagnostic messages.
    InvalidResult(Vec<String>),
    /// A constructor rejected the inputs; its diagnostic message is carried.
    Construction(String),
    /// A clip referenced a clipper id that is not present in the model.
    UnknownClipper {
        /// The `u64` payload of the clipper id that did not resolve.
        clipper: u64,
    },
    /// This member is part of a dependency cycle; the ids of the members
    /// forming the cycle are carried, sorted ascending.
    CyclicDependency {
        /// The member ids of the cycle, ascending.
        members: Vec<u64>,
    },
    /// This operation is not implemented in the current phase.
    NotYetImplemented,
}

/// The diagnostic carried when an extrusion axis has no direction.
pub open spec fn degenerate_axis_message() -> Seq<char> {
    "extrusion axis is degenerate (zero direction)"@
}

/// How a prismatic failure surfaces as a member evaluation error: the
/// unsupported cases become `Unsupported3dBoolean` with the matching reason, a
/// degenerate axis a construction error, and the budget, the defects and the
/// 2-D engine's message are carried over.
pub open spec fn prism_error_maps_to(e: PrismError, r: EvalError) -> bool {
    match e {
        PrismError::NoCommonDirection => r == EvalError::Unsupported3dBoolean {
            reason: UnsupportedReason::NoCommonDirection,
        },
        PrismError::DegenerateAxis => r matches EvalError::Construction(s) && s@
            == degenerate_axis_message(),
        PrismError::CircularInvolved { operand } => r == EvalError::Unsupported3dBoolean {
            reason: UnsupportedReason::CircularOperand { operand },
        },
        PrismError::ArcNotYetSupported => r == EvalError::Unsupported3dBoolean {
            reason: UnsupportedReason::ArcNotYetSupported,
        },
        PrismError::ComplexityLimit { measure, budget } => r == EvalError::ComplexityLimit {
            measure,
            budget,
        },
        PrismError::InvalidResult(defects) => r == EvalError::InvalidResult(defects),
        PrismError::Poly2(message) => r == EvalError::Construction(message),
    }
}

impl EvalError {
    /// Surface a prismatic failure as a member evaluation error.
    pub fn from_prism(e: PrismError) -> (r: EvalError)
        ensures
            prism_error_maps_to(e, r),
    {
        match e {
            PrismError::NoCommonDirection => EvalError::Unsupported3dBoolean {
                reason: UnsupportedReason::NoCommonDirection,
            },
            PrismError::DegenerateAxis => {
                let message = "extrusion axis is degenerate (zero direction)";
                proof {
                    reveal_strlit("extrusion axis is degenerate (zero direction)");
                }
                EvalError::Construction(message.to_string())
            },
            PrismError::CircularInvolved { operand } => EvalError::Unsupported3dBoolean {
                reason: UnsupportedReason::CircularOperand { operand },
            },
            PrismError::ArcNotYetSupported => EvalError::Unsupported3dBoolean {
                reason: UnsupportedReason::ArcNotYetSupported,
            },
            PrismError::ComplexityLimit { measure, budget } => EvalError::ComplexityLimit {
                measure,
                budget,
            },
            PrismError::InvalidResult(defects) => EvalError::InvalidResult(defects),
            PrismError::Poly2(message) => EvalError::Construction(message),
        }
    }
}

/// The leaf of a node that is a single extrusion.
pub open spec fn leaf_of<L>(node: CsgNode<L>) -> Option<L> {
    match node {
        CsgNode::Extrude(leaf) => Some(leaf),
        _ => None,
    }
}

/// Whether every node of `nodes` is a single extrusion.
pub open spec fn all_leaves<L>(nodes: Seq<CsgNode<L>>) -> bool {
    forall|i: int| 0 <= i < nodes.len() ==> #[trigger] leaf_of(nodes[i]) is Some
}

/// Whether every opening of `openings` is shaped by a single extrusion.
pub open spec fn all_opening_leaves<L>(openings: Seq<(crate::csg::ids::OpeningId, Opening<L>)>) -> bool {
    forall|i: int| 0 <= i < openings.len() ==> #[trigger] leaf_of(openings[i].1.shape) is Some
}

/// The leaves of a sequence of single-extrusion nodes.
pub open spec fn leaves_of<L>(nodes: Seq<CsgNode<L>>) -> Seq<L> {
    nodes.map_values(|n: CsgNode<L>| leaf_of(n).unwrap())
}

/// The leaves of a sequence of openings shaped by single extrusions.
pub open spec fn opening_leaves_of<L>(openings: Seq<(crate::csg::ids::OpeningId, Opening<L>)>) -> Seq<L> {
    openings.map_values(|o: (crate::csg::ids::OpeningId, Opening<L>)| leaf_of(o.1.shape).unwrap())
}

/// The error returned when a boolean's operands are not single extrusions.
pub open spec fn non_leaf_error() -> EvalError {
    EvalError::Unsupported3dBoolean { reason: UnsupportedReason::NonLeafOperands }
}

/// Extract the leaf from a CSG node when it is a single extrusion.
pub fn extrude_leaf<L: Copy>(node: &CsgNode<L>) -> (r: Option<L>)
    ensures
        r == leaf_of(*node),
{
    match node {
        CsgNode::Extrude(leaf) => Some(*leaf),
        _ => None,
    }
}

/// The evaluation path a member's tree takes on the 2.5-D fast path, with
/// every operand reduced to its extrusion leaf.
#[derive(Debug, Clone)]
pub enum MemberPlan<L> {
    /// Build the extruded solid.
    Extrude(L),
    /// The prismatic difference of two leaves.
    Difference {
        /// The solid to keep.
        positive: L,
        /// The solid to subtract.
        negative: L,
    },
    /// Subtract every opening from the base in one pass.
    OpeningSubtraction {
        /// The base leaf.
        base: L,
        /// The opening leaves, in declaration order.
        openings: Vec<L>,
    },
    /// The prismatic union of the leaves.
    Union(Vec<L>),
}

/// What a request for a member's B-rep at a tolerance does first.
#[derive(Debug, Clone, Copy, PartialEq, Eq, Structural)]
pub enum BrepAction {
    /// The cache is clean and was built with the same tolerance: return the
    /// cached result (success or failure) as it is.
    ReturnCached,
    /// Evaluate the tree anew, then [`record`](Member::record) the result.
    Evaluate,
}

/// A building member: its CSG tree plus the cache of its lazily evaluated
/// B-rep.
///
/// Evaluation is push-dirty / pull-clean: a change of the tree, or of a member
/// it clips against, marks it dirty; reading it re-evaluates on demand. The
/// cache is keyed by the tolerance `K` it was built with, and the last valid
/// B-rep `B` is kept so display can continue across a failed re-evaluation.
/// The tree is private so a mutation cannot bypass the dirty flag: read it
/// through [`csg`](Self::csg) and mutate it through [`csg_mut`](Self::csg_mut),
/// which marks the cache stale.
#[derive(Debug)]
pub struct Member<L, K, B> {
    csg: CsgNode<L>,
    dirty: bool,
    cache: Option<Result<B, EvalError>>,
    prev_valid: Option<B>,
    cached_tol: Option<K>,
}

impl<L, K, B> Member<L, K, B> {
    /// The member's CSG tree.
    pub closed spec fn tree(self) -> CsgNode<L> {
        self.csg
    }

    /// Whether the cache is marked stale.
    pub closed spec fn stale(self) -> bool {
        self.dirty
    }

    /// The cached evaluation result, if any.
    pub closed spec fn cached_result(self) -> Option<Result<B, EvalError>> {
        self.cache
    }

    /// The last successfully evaluated B-rep, if any.
    pub closed spec fn last_valid_brep(self) -> Option<B> {
        self.prev_valid
    }

    /// The tolerance the cache was built with, if any.
    pub closed spec fn cached_key(self) -> Option<K> {
        self.cached_tol
    }

    /// Whether `self` holds the same cache as `other`: the cached result, the
    /// last valid B-rep and the tolerance the cache was built with.
    pub open spec fn same_cache(self, other: Self) -> bool {
        &&& self.cached_result() == other.cached_result()
        &&& self.last_valid_brep() == other.last_valid_brep()
        &&& self.cached_key() == other.cached_key()
    }

    /// Create a member from its CSG tree. The cache starts empty and stale.
    pub fn new(csg: CsgNode<L>) -> (m: Self)
        ensures
            m.tree() == csg,
            m.stale(),
            m.cached_result() is None,
            m.last_valid_brep() is None,
            m.cached_key() is None,
    {
        Member { csg, dirty: true, cache: None, prev_valid: None, cached_tol: None }
    }

    /// Mark the cache stale; nothing else changes.
    pub fn mark_dirty(&mut self)
        ensures
            final(self).tree() == old(self).tree(),
            final(self).stale(),
            final(self).cached_result() == old(self).cached_result(),
            final(self).last_valid_brep() == old(self).last_valid_brep(),
            final(self).cached_key() == old(self).cached_key(),
    {
        self.dirty = true;
    }

    /// Borrow the CSG tree.
    pub fn csg(&self) -> (r: &CsgNode<L>)
        ensures
            *r == self.tree(),
    {
        &self.csg
    }

    /// Mutably borrow the CSG tree, marking the cache stale: whatever is
    /// written through the borrow becomes the tree, and the next read
    /// re-evaluates.
    pub fn csg_mut(&mut self) -> (r: &mut CsgNode<L>)
        ensures
            *r == old(self).tree(),
            final(self).tree() == *final(r),
            final(self).stale(),
            final(self).cached_result() == old(self).cached_result(),
            final(self).last_valid_brep() == old(self).last_valid_brep(),
            final(self).cached_key() == old(self).cached_key(),
    {
        self.dirty = true;
        &mut self.csg
    }

    /// The last successfully evaluated B-rep, if any: the display fallback
    /// when the current evaluation fails.
    pub fn last_valid(&self) -> (r: Option<&B>)
        ensures
            r == match self.last_valid_brep() {
                Some(b) => Some(&b),
                None => None::<&B>,
            },
    {
        match &self.prev_valid {
            Some(b) => Some(b),
            None => None,
        }
    }
}

impl<L, K: PartialEq, B> Member<L, K, B> {
    /// Whether the cache is stale or absent for tolerance `tol`: marked stale,
    /// or built with no tolerance or another one.
    pub fn is_dirty(&self, tol: &K) -> (r: bool)
        ensures
            self.stale() || self.cached_key() is None ==> r,
            K::obeys_eq_spec() ==> r == (self.stale() || !(self.cached_key() matches Some(k) && k.eq_spec(tol))),
    {
        if self.dirty {
            return true;
        }
        match &self.cached_tol {
            Some(k) => !k.eq(tol),
            None => true,
        }
    }

    /// The cached result for tolerance `tol`: returned directly when the cache
    /// is clean and was built with that tolerance; `None` when the member must
    /// be evaluated again.
    pub fn cached(&self, tol: &K) -> (r: Option<&Result<B, EvalError>>)
        ensures
            r matches Some(x) ==> !self.stale() && self.cached_result() == Some(*x),
            self.stale() || self.cached_key() is None || self.cached_result() is None ==> r is None,
            K::obeys_eq_spec() ==> (r is Some <==> (!self.stale() && self.cached_result() is Some
                && (self.cached_key() matches Some(k) && k.eq_spec(tol)))),
    {
        if self.is_dirty(tol) {
            return None;
        }
        match &self.cache {
            Some(res) => Some(res),
            None => None,
        }
    }

    /// The decision of a B-rep request at tolerance `tol`: reuse the cache
    /// when it is clean, holds a result and was built with `tol`; evaluate
    /// otherwise.
    pub fn brep_action(&self, tol: &K) -> (a: BrepAction)
        ensures
            self.stale() || self.cached_key() is None || self.cached_result() is None ==> a == BrepAction::Evaluate,
            a == BrepAction::ReturnCached ==> !self.stale() && self.cached_result() is Some,
            K::obeys_eq_spec() ==> (a == BrepAction::ReturnCached <==> (!self.stale() && self.cached_result() is Some
                && (self.cached_key() matches Some(k) && k.eq_spec(tol)))),
    {
        match self.cached(tol) {
            Some(_) => BrepAction::ReturnCached,
            None => BrepAction::Evaluate,
        }
    }
}

impl<L, K, B: Clone> Member<L, K, B> {
    /// Record a fresh evaluation with tolerance `tol`: it becomes the clean
    /// cache for that tolerance, and a success also becomes the last valid
    /// B-rep (a failure keeps the previous one).
    pub fn record(&mut self, tol: K, result: Result<B, EvalError>)
        ensures
            final(self).tree() == old(self).tree(),
            !final(self).stale(),
            final(self).cached_key() == Some(tol),
            final(self).cached_result() == Some(result),
            match result {
                Ok(b) => final(self).last_valid_brep() matches Some(v) && cloned(b, v),
                Err(_) => final(self).last_valid_brep() == old(self).last_valid_brep(),
            },
    {
        if let Ok(b) = &result {
            self.prev_valid = Some(b.clone());
        }
        self.cache = Some(result);
        self.cached_tol = Some(tol);
        self.dirty = false;
    }
}

/// How a tree is planned on its own: extrusions are built, differences,
/// opening subtractions and unions of extruded leaves go to the prismatic
/// boolean, an operand that is not a single extrusion is refused as
/// `NonLeafOperands`, and a clip is not planned without the model.
pub open spec fn member_plan_ok<L>(tree: CsgNode<L>, r: Result<MemberPlan<L>, EvalError>) -> bool {
    match tree {
        CsgNode::Extrude(leaf) => r matches Ok(MemberPlan::Extrude(l)) && l == leaf,
        CsgNode::Difference { positive, negative } => if leaf_of(*positive) is Some
            && leaf_of(*negative) is Some {
            r matches Ok(MemberPlan::Difference { positive: p, negative: n }) && p
                == leaf_of(*positive).unwrap() && n == leaf_of(*negative).unwrap()
        } else {
            r == Err::<MemberPlan<L>, EvalError>(non_leaf_error())
        },
        CsgNode::OpeningSubtraction { base, openings } => if leaf_of(*base) is Some
            && all_opening_leaves(openings@) {
            r matches Ok(MemberPlan::OpeningSubtraction { base: b, openings: o }) && b
                == leaf_of(*base).unwrap() && o@ == opening_leaves_of(openings@)
        } else {
            r == Err::<MemberPlan<L>, EvalError>(non_leaf_error())
        },
        CsgNode::Union(nodes) => if all_leaves(nodes@) {
            r matches Ok(MemberPlan::Union(v)) && v@ == leaves_of(nodes@)
        } else {
            r == Err::<MemberPlan<L>, EvalError>(non_leaf_error())
        },
        CsgNode::Clip { .. } => r == Err::<MemberPlan<L>, EvalError>(
            EvalError::NotYetImplemented,
        ),
    }
}

/// The plan of a difference of two extrusions is that difference, the
/// positive extrusion kept and the negative one subtracted, never the other
/// way round.
pub proof fn lemma_difference_plan<L>(tree: CsgNode<L>, r: Result<MemberPlan<L>, EvalError>)
    requires
        member_plan_ok(tree, r),
    ensures
        tree matches CsgNode::Difference { positive, negative } ==> (*positive matches CsgNode::Extrude(p) ==> (
        *negative matches CsgNode::Extrude(q) ==> r == Ok::<MemberPlan<L>, EvalError>(
            MemberPlan::Difference { positive: p, negative: q },
        ))),
{
}

/// Planning keeps every leaf where the tree has it: an extrusion is built as
/// it is; an opening subtraction keeps its base extrusion as the base and its
/// openings' extrusions as the openings, one for one and in order; a union
/// keeps its extrusions one for one and in order; a boolean with an operand
/// that is not an extrusion is refused as `NonLeafOperands`; a clip is not
/// planned on its own.
pub proof fn lemma_member_plan_law<L>(tree: CsgNode<L>, r: Result<MemberPlan<L>, EvalError>)
    requires
        member_plan_ok(tree, r),
    ensures
        tree matches CsgNode::Extrude(l) ==> r == Ok::<MemberPlan<L>, EvalError>(MemberPlan::Extrude(l)),
        tree matches CsgNode::Difference { positive, negative } ==> (!(*positive is Extrude) || !(*negative is Extrude)
            ==> r == Err::<MemberPlan<L>, EvalError>(
            EvalError::Unsupported3dBoolean { reason: UnsupportedReason::NonLeafOperands },
        )),
        tree matches CsgNode::OpeningSubtraction { base, openings } ==> (*base matches CsgNode::Extrude(b) ==> ((forall|i: int|
            0 <= i < openings.len() ==> (#[trigger] openings@[i]).1.shape is Extrude) ==> (r matches Ok(
            MemberPlan::OpeningSubtraction { base: b2, openings: o },
        ) && b2 == b && o.len() == openings.len() && forall|i: int|
            0 <= i < o.len() ==> openings@[i].1.shape == CsgNode::<L>::Extrude(#[trigger] o@[i])))),
        tree matches CsgNode::OpeningSubtraction { base, openings } ==> (!(*base is Extrude) || (exists|i: int|
            0 <= i < openings.len() && !((#[trigger] openings@[i]).1.shape is Extrude)) ==> r == Err::<
            MemberPlan<L>,
            EvalError,
        >(EvalError::Unsupported3dBoolean { reason: UnsupportedReason::NonLeafOperands })),
        tree matches CsgNode::Union(nodes) ==> ((forall|i: int| 0 <= i < nodes.len() ==> (#[trigger] nodes@[i]) is Extrude)
            ==> (r matches Ok(MemberPlan::Union(v)) && v.len() == nodes.len() && forall|i: int|
            0 <= i < v.len() ==> nodes@[i] == CsgNode::<L>::Extrude(#[trigger] v@[i]))),
        tree matches CsgNode::Union(nodes) ==> ((exists|i: int| 0 <= i < nodes.len() && !((#[trigger] nodes@[i]) is Extrude))
            ==> r == Err::<MemberPlan<L>, EvalError>(
            EvalError::Unsupported3dBoolean { reason: UnsupportedReason::NonLeafOperands },
        )),
        tree is Clip ==> r == Err::<MemberPlan<L>, EvalError>(EvalError::NotYetImplemented),
{
    match tree {
        CsgNode::OpeningSubtraction { base, openings } => {
            if forall|i: int| 0 <= i < openings.len() ==> (#[trigger] openings@[i]).1.shape is Extrude {
                assert forall|i: int| 0 <= i < openings.len() implies #[trigger] leaf_of(openings@[i].1.shape) is Some by {
                    assert(openings@[i].1.shape is Extrude);
                }
            } else {
                let i = choose|i: int| 0 <= i < openings.len() && !((#[trigger] openings@[i]).1.shape is Extrude);
                assert(leaf_of(openings@[i].1.shape) is None);
            }
        },
        CsgNode::Union(nodes) => {
            if forall|i: int| 0 <= i < nodes.len() ==> (#[trigger] nodes@[i]) is Extrude {
                assert forall|i: int| 0 <= i < nodes.len() implies #[trigger] leaf_of(nodes@[i]) is Some by {
                    assert(nodes@[i] is Extrude);
                }
            } else {
                let i = choose|i: int| 0 <= i < nodes.len() && !((#[trigger] nodes@[i]) is Extrude);
                assert(leaf_of(nodes@[i]) is None);
            }
        },
        _ => {},
    }
}

impl<L: Copy, K, B> Member<L, K, B> {
    /// Decide how this member's tree is evaluated: extrusions are built,
    /// differences, opening subtractions and unions of extruded leaves go to
    /// the prismatic boolean, any operand that is not a single extrusion is
    /// refused as `NonLeafOperands`, and a clip on its own is not evaluated
    /// here (the model resolves clips against the other members).
    pub fn evaluation_plan(&self) -> (r: Result<MemberPlan<L>, EvalError>)
        ensures
            member_plan_ok(self.tree(), r),
            // A difference of two extrusions keeps the positive one and
            // subtracts the negative one.
            self.tree() matches CsgNode::Difference { positive, negative } ==> (*positive matches CsgNode::Extrude(
                p,
            ) ==> (*negative matches CsgNode::Extrude(q) ==> r == Ok::<MemberPlan<L>, EvalError>(
                MemberPlan::Difference { positive: p, negative: q },
            ))),
    {
        match &self.csg {
            CsgNode::Extrude(leaf) => Ok(MemberPlan::Extrude(*leaf)),
            CsgNode::Difference { positive, negative } => {
                let pos = match extrude_leaf(positive) {
                    Some(l) => l,
                    None => {
                        return Err(
                            EvalError::Unsupported3dBoolean {
                                reason: UnsupportedReason::NonLeafOperands,
                            },
                        );
                    },
                };
                let neg = match extrude_leaf(negative) {
                    Some(l) => l,
                    None => {
                        return Err(
                            EvalError::Unsupported3dBoolean {
                                reason: UnsupportedReason::NonLeafOperands,
                            },
                        );
                    },
                };
                Ok(MemberPlan::Difference { positive: pos, negative: neg })
            },
            CsgNode::OpeningSubtraction { base, openings } => {
                let base_leaf = match extrude_leaf(base) {
                    Some(l) => l,
                    None => {
                        return Err(
                            EvalError::Unsupported3dBoolean {
                                reason: UnsupportedReason::NonLeafOperands,
                            },
                        );
                    },
                };
                let leaves = opening_leaves(openings)?;
                Ok(MemberPlan::OpeningSubtraction { base: base_leaf, openings: leaves })
            },
            CsgNode::Union(nodes) => {
                let leaves = node_leaves(nodes)?;
                Ok(MemberPlan::Union(leaves))
            },
            CsgNode::Clip { .. } => Err(EvalError::NotYetImplemented),
        }
    }
}

/// The leaves of a list of nodes, or `NonLeafOperands` if one of them is not a
/// single extrusion.
pub fn node_leaves<L: Copy>(nodes: &Vec<CsgNode<L>>) -> (r: Result<Vec<L>, EvalError>)
    ensures
        if all_leaves(nodes@) {
            r matches Ok(v) && v@ == leaves_of(nodes@)
        } else {
            r == Err::<Vec<L>, EvalError>(non_leaf_error())
        },
{
    let mut out: Vec<L> = Vec::new();
    let mut i: usize = 0;
    while i < nodes.len()
        invariant
            i <= nodes.len(),
            all_leaves(nodes@.take(i as int)),
            out@ == leaves_of(nodes@.take(i as int)),
        decreases nodes.len() - i,
    {
        match extrude_leaf(&nodes[i]) {
            Some(l) => {
                out.push(l);
            },
            None => {
                return Err(
                    EvalError::Unsupported3dBoolean { reason: UnsupportedReason::NonLeafOperands },
                );
            },
        }
        assert(nodes@.take(i + 1) == nodes@.take(i as int).push(nodes@[i as int]));
        i = i + 1;
    }
    assert(nodes@.take(nodes.len() as int) == nodes@);
    Ok(out)
}

/// The leaves of a list of openings, or `NonLeafOperands` if one of them is
/// not shaped by a single extrusion.
pub fn opening_leaves<L: Copy>(openings: &Vec<(crate::csg::ids::OpeningId, Opening<L>)>) -> (r: Result<
    Vec<L>,
    EvalError,
>)
    ensures
        if all_opening_leaves(openings@) {
            r matches Ok(v) && v@ == opening_leaves_of(openings@)
        } else {
            r == Err::<Vec<L>, EvalError>(non_leaf_error())
        },
{
    let mut out: Vec<L> = Vec::new();
    let mut i: usize = 0;
    while i < openings.len()
        invariant
            i <= openings.len(),
            all_opening_leaves(openings@.take(i as int)),
            out@ == opening_leaves_of(openings@.take(i as int)),
        decreases openings.len() - i,
    {
        match extrude_leaf(&openings[i].1.shape) {
            Some(l) => {
                out.push(l);
            },
            None => {
                return Err(
                    EvalError::Unsupported3dBoolean { reason: UnsupportedReason::NonLeafOperands },
                );
            },
        }
        assert(openings@.take(i + 1) == openings@.take(i as int).push(openings@[i as int]));
        i = i + 1;
    }
    assert(openings@.take(openings.len() as int) == openings@);
    Ok(out)
}

} // verus!
