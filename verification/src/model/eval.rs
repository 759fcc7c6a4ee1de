//! Resolving a member's clip deductions against the other members of the
//! model, and the error that isolates a member caught in a dependency cycle.
//!
//! A clip deducts the *gross* occupancy of every clipper from the base: each
//! clipper is reduced to the extrusion underneath its openings and clips, and
//! the base's own openings subtract alongside the clippers in one pass.

use vstd::prelude::*;

use crate::csg::ids::{OpeningId, StableId};
use crate::csg::member::{
    member_plan_ok, non_leaf_error, EvalError, Member, MemberPlan, UnsupportedReason,
};
use crate::csg::node::{CsgNode, Opening};
use crate::model::Model;

verus! {

/// The gross occupancy leaf of a tree: the extrusion found by descending
/// through opening subtractions and clips; none for any other node.
pub open spec fn occupancy_of<L>(node: CsgNode<L>) -> Option<L>
    decreases node,
{
    match node {
        CsgNode::Extrude(leaf) => Some(leaf),
        CsgNode::OpeningSubtraction { base, .. } => occupancy_of(*base),
        CsgNode::Clip { base, .. } => occupancy_of(*base),
        _ => None,
    }
}

/// The gross occupancy leaf of a tree: the prism it occupies for deduction
/// purposes, ignoring its own openings and clips.
pub fn occupancy_leaf<L: Copy>(node: &CsgNode<L>) -> (r: Option<L>)
    ensures
        r == occupancy_of(*node),
    decreases node,
{
    match node {
        CsgNode::Extrude(leaf) => Some(*leaf),
        CsgNode::OpeningSubtraction { base, .. } => occupancy_leaf(base),
        CsgNode::Clip { base, .. } => occupancy_leaf(base),
        _ => None,
    }
}

/// Every opening's shape has an occupancy leaf.
pub open spec fn openings_occupied<L>(openings: Seq<(OpeningId, Opening<L>)>) -> bool {
    forall|i: int| 0 <= i < openings.len() ==> #[trigger] occupancy_of(openings[i].1.shape) is Some
}

/// The occupancy leaves of the openings' shapes, in order.
pub open spec fn opening_occupancies<L>(openings: Seq<(OpeningId, Opening<L>)>) -> Seq<L> {
    openings.map_values(|o: (OpeningId, Opening<L>)| occupancy_of(o.1.shape).unwrap())
}

/// The opening leaves declared directly on a clip base: those of an opening
/// subtraction, in order, none for any other base; an opening whose shape has
/// no occupancy leaf is refused as `NonLeafOperands`.
#[verifier::loop_isolation(false)]
pub fn base_opening_leaves<L: Copy>(base: &CsgNode<L>) -> (r: Result<Vec<L>, EvalError>)
    ensures
        match *base {
            CsgNode::OpeningSubtraction { openings, .. } => if openings_occupied(openings@) {
                r matches Ok(v) && v@ == opening_occupancies(openings@)
            } else {
                r == Err::<Vec<L>, EvalError>(non_leaf_error())
            },
            _ => r matches Ok(v) && v@.len() == 0,
        },
{
    match base {
        CsgNode::OpeningSubtraction { openings, .. } => {
            let mut leaves: Vec<L> = Vec::new();
            let mut i: usize = 0;
            while i < openings.len()
                invariant
                    i <= openings.len(),
                    leaves.len() == i,
                    forall|j: int| 0 <= j < i ==> #[trigger] occupancy_of(openings@[j].1.shape) is Some,
                    forall|j: int| 0 <= j < i ==> #[trigger] leaves@[j] == occupancy_of(openings@[j].1.shape).unwrap(),
                decreases openings.len() - i,
            {
                match occupancy_leaf(&openings[i].1.shape) {
                    Some(leaf) => leaves.push(leaf),
                    None => {
                        proof {
                            assert(occupancy_of(openings@[i as int].1.shape) is None);
                            assert(!openings_occupied(openings@));
                        }
                        return Err(EvalError::Unsupported3dBoolean { reason: UnsupportedReason::NonLeafOperands });
                    },
                }
                i = i + 1;
            }
            proof {
                assert(leaves@ =~= opening_occupancies(openings@));
            }
            Ok(leaves)
        },
        _ => Ok(Vec::new()),
    }
}

/// The evaluation a member's tree takes once its clips are resolved.
#[derive(Debug)]
pub enum ModelPlan<L> {
    /// Deduct the base's own openings and every clipper's gross occupancy from
    /// the base's occupancy in one pass.
    Clip {
        /// The occupancy leaf of the clip base.
        base: L,
        /// The opening leaves declared on the base.
        openings: Vec<L>,
        /// The occupancy leaves of the clippers, in clipper order.
        clippers: Vec<L>,
    },
    /// A tree without a top-level clip, evaluated on its own.
    Member(MemberPlan<L>),
}

/// Resolving the clippers `cs` in order against the members `m`: the first
/// id absent from the model is reported as an unknown clipper, the first
/// clipper without an occupancy leaf as `NonLeafOperands`; otherwise the
/// occupancy leaves in order.
pub open spec fn resolve_clippers<L, K, B>(m: Map<u64, Member<L, K, B>>, cs: Seq<StableId>) -> Result<Seq<L>, EvalError>
    decreases cs.len(),
{
    if cs.len() == 0 {
        Ok(Seq::empty())
    } else {
        match resolve_clippers(m, cs.drop_last()) {
            Err(e) => Err(e),
            Ok(v) => if !m.contains_key(cs.last().0) {
                Err(EvalError::UnknownClipper { clipper: cs.last().0 })
            } else {
                match occupancy_of(m[cs.last().0].tree()) {
                    Some(leaf) => Ok(v.push(leaf)),
                    None => Err(non_leaf_error()),
                }
            },
        }
    }
}

/// What evaluating member `id` is planned as: a member not in the model is
/// an unknown id; a clip resolves its base, its openings and its clippers
/// against the model; any other tree is planned on its own.
pub open spec fn model_plan_ok<L, K, B>(m: Map<u64, Member<L, K, B>>, id: u64, r: Result<ModelPlan<L>, EvalError>) -> bool {
    &&& !m.contains_key(id) ==> r == Err::<ModelPlan<L>, EvalError>(
        EvalError::UnknownClipper { clipper: id },
    )
    &&& m.contains_key(id) ==> match m[id].tree() {
        CsgNode::Clip { base, clippers, .. } => if occupancy_of(*base) is None {
            r == Err::<ModelPlan<L>, EvalError>(non_leaf_error())
        } else if (*base matches CsgNode::OpeningSubtraction { openings, .. }
            && !openings_occupied(openings@)) {
            r == Err::<ModelPlan<L>, EvalError>(non_leaf_error())
        } else {
            match resolve_clippers(m, clippers@) {
                Err(e) => r == Err::<ModelPlan<L>, EvalError>(e),
                Ok(v) => r matches Ok(ModelPlan::Clip { base: b, openings: o, clippers: c })
                    && b == occupancy_of(*base).unwrap() && c@ == v && (match *base {
                    CsgNode::OpeningSubtraction { openings, .. } => o@ == opening_occupancies(
                        openings@,
                    ),
                    _ => o@.len() == 0,
                }),
            }
        },
        _ => match r {
            Ok(ModelPlan::Member(q)) => member_plan_ok(m[id].tree(), Ok(q)),
            Err(e) => member_plan_ok(m[id].tree(), Err(e)),
            _ => false,
        },
    }
}

impl<L: Copy, K, B> Model<L, K, B> {
    /// Resolve the clippers of a clip, in order, to their occupancy leaves.
    fn clipper_leaves(&self, clippers: &Vec<StableId>) -> (r: Result<Vec<L>, EvalError>)
        requires
            self.wf(),
        ensures
            match resolve_clippers(self@, clippers@) {
                Ok(v) => r matches Ok(w) && w@ == v,
                Err(e) => r == Err::<Vec<L>, EvalError>(e),
            },
    {
        let mut leaves: Vec<L> = Vec::new();
        let mut i: usize = 0;
        while i < clippers.len()
            invariant
                self.wf(),
                i <= clippers.len(),
                resolve_clippers(self@, clippers@.take(i as int)) == Ok::<Seq<L>, EvalError>(leaves@),
            decreases clippers.len() - i,
        {
            let c = clippers[i];
            proof {
                assert(clippers@.take(i + 1).drop_last() == clippers@.take(i as int));
                assert(clippers@.take(i + 1).last() == c);
            }
            match self.get(c) {
                None => {
                    proof {
                        lemma_resolve_stops(self@, clippers@, i as int + 1);
                    }
                    return Err(EvalError::UnknownClipper { clipper: c.0 });
                },
                Some(member) => match occupancy_leaf(member.csg()) {
                    Some(leaf) => {
                        leaves.push(leaf);
                    },
                    None => {
                        proof {
                            lemma_resolve_stops(self@, clippers@, i as int + 1);
                        }
                        return Err(EvalError::Unsupported3dBoolean { reason: UnsupportedReason::NonLeafOperands });
                    },
                },
            }
            i = i + 1;
        }
        proof {
            assert(clippers@.take(clippers.len() as int) == clippers@);
        }
        Ok(leaves)
    }

    /// How member `id` is evaluated. An id absent from the model is reported
    /// as an unknown clipper. A tree whose top node is a clip deducts from the
    /// occupancy leaf of its base (else `NonLeafOperands`) the opening leaves
    /// declared on that base and the occupancy leaf of every clipper, resolved
    /// in order (an absent clipper or one without an occupancy leaf fails
    /// first); any other tree is planned on its own.
    pub fn evaluation_plan(&self, id: StableId) -> (r: Result<ModelPlan<L>, EvalError>)
        requires
            self.wf(),
        ensures
            model_plan_ok(self@, id.0, r),
    {
        let member = match self.get(id) {
            None => {
                return Err(EvalError::UnknownClipper { clipper: id.0 });
            },
            Some(m) => m,
        };
        match member.csg() {
            CsgNode::Clip { base, clippers, .. } => {
                let base_leaf = match occupancy_leaf(base) {
                    None => {
                        return Err(EvalError::Unsupported3dBoolean { reason: UnsupportedReason::NonLeafOperands });
                    },
                    Some(l) => l,
                };
                let openings = match base_opening_leaves(base) {
                    Err(e) => {
                        return Err(e);
                    },
                    Ok(v) => v,
                };
                match self.clipper_leaves(clippers) {
                    Err(e) => Err(e),
                    Ok(c) => Ok(ModelPlan::Clip { base: base_leaf, openings, clippers: c }),
                }
            },
            _ => match member.evaluation_plan() {
                Ok(p) => Ok(ModelPlan::Member(p)),
                Err(e) => Err(e),
            },
        }
    }
}

/// Once resolving a prefix of the clippers fails, resolving any longer prefix
/// fails the same way.
proof fn lemma_resolve_stops<L, K, B>(m: Map<u64, Member<L, K, B>>, cs: Seq<StableId>, k: int)
    requires
        0 <= k <= cs.len(),
        resolve_clippers(m, cs.take(k)) is Err,
    ensures
        resolve_clippers(m, cs) == resolve_clippers(m, cs.take(k)),
    decreases cs.len() - k,
{
    if k < cs.len() {
        assert(cs.take(k + 1).drop_last() == cs.take(k));
        lemma_resolve_stops(m, cs, k + 1);
    } else {
        assert(cs.take(k) == cs);
    }
}

/// Clipper `c` is in the model and occupies a prism.
pub open spec fn clipper_resolves<L, K, B>(m: Map<u64, Member<L, K, B>>, c: StableId) -> bool {
    m.contains_key(c.0) && occupancy_of(m[c.0].tree()) is Some
}

/// Resolving clippers keeps them one for one and in order: when every
/// clipper is in the model with an occupancy leaf, the result holds each
/// clipper's leaf at its position; otherwise the first clipper that does not
/// resolve decides the error: an unknown id when it is not in the model,
/// `NonLeafOperands` when it has no occupancy leaf.
pub proof fn lemma_resolve_clippers_law<L, K, B>(m: Map<u64, Member<L, K, B>>, cs: Seq<StableId>)
    ensures
        (forall|i: int| 0 <= i < cs.len() ==> #[trigger] clipper_resolves(m, cs[i])) ==> (resolve_clippers(m, cs) matches Ok(
            v,
        ) && v.len() == cs.len() && forall|i: int|
            0 <= i < cs.len() ==> #[trigger] v[i] == occupancy_of(m[cs[i].0].tree())->Some_0),
        forall|i: int|
            0 <= i < cs.len() && !#[trigger] clipper_resolves(m, cs[i]) && (forall|j: int|
                0 <= j < i ==> clipper_resolves(m, #[trigger] cs[j])) ==> resolve_clippers(m, cs) == (if !m.contains_key(
                cs[i].0,
            ) {
                Err::<Seq<L>, EvalError>(EvalError::UnknownClipper { clipper: cs[i].0 })
            } else {
                Err::<Seq<L>, EvalError>(non_leaf_error())
            }),
    decreases cs.len(),
{
    if cs.len() > 0 {
        let pre = cs.drop_last();
        lemma_resolve_clippers_law(m, pre);
        let last = cs.len() - 1;
        if forall|i: int| 0 <= i < cs.len() ==> #[trigger] clipper_resolves(m, cs[i]) {
            assert forall|i: int| 0 <= i < pre.len() implies #[trigger] clipper_resolves(m, pre[i]) by {
                assert(pre[i] == cs[i]);
                assert(clipper_resolves(m, cs[i]));
            }
            assert(clipper_resolves(m, cs[last]));
            let v = resolve_clippers(m, pre)->Ok_0;
            assert forall|i: int| 0 <= i < cs.len() implies #[trigger] resolve_clippers(m, cs)->Ok_0[i] == occupancy_of(
                m[cs[i].0].tree(),
            )->Some_0 by {
                if i < last {
                    assert(pre[i] == cs[i]);
                }
            }
        }
        assert forall|i: int|
            0 <= i < cs.len() && !#[trigger] clipper_resolves(m, cs[i]) && (forall|j: int|
                0 <= j < i ==> clipper_resolves(m, #[trigger] cs[j])) implies resolve_clippers(m, cs) == (if !m.contains_key(
            cs[i].0,
        ) {
            Err::<Seq<L>, EvalError>(EvalError::UnknownClipper { clipper: cs[i].0 })
        } else {
            Err::<Seq<L>, EvalError>(non_leaf_error())
        }) by {
            if i < last {
                assert(pre[i] == cs[i]);
                assert forall|j: int| 0 <= j < i implies clipper_resolves(m, #[trigger] pre[j]) by {
                    assert(pre[j] == cs[j]);
                    assert(clipper_resolves(m, cs[j]));
                }
                assert(!clipper_resolves(m, pre[i]));
            } else {
                assert forall|j: int| 0 <= j < pre.len() implies #[trigger] clipper_resolves(m, pre[j]) by {
                    assert(pre[j] == cs[j]);
                    assert(clipper_resolves(m, cs[j]));
                }
            }
        }
    }
}

/// The error that isolates each member of a dependency cycle: the ids of the
/// cycle's members, in order.
pub fn cycle_error(cycle: &Vec<StableId>) -> (r: EvalError)
    ensures
        r matches EvalError::CyclicDependency { members } && members@ == cycle@.map_values(
            |x: StableId| x.0,
        ),
{
    let mut members: Vec<u64> = Vec::new();
    let mut i: usize = 0;
    while i < cycle.len()
        invariant
            i <= cycle.len(),
            members@ == cycle@.take(i as int).map_values(|x: StableId| x.0),
        decreases cycle.len() - i,
    {
        members.push(cycle[i].0);
        proof {
            assert(cycle@.take(i + 1) == cycle@.take(i as int).push(cycle@[i as int]));
        }
        i = i + 1;
    }
    proof {
        assert(cycle@.take(cycle.len() as int) == cycle@);
    }
    EvalError::CyclicDependency { members }
}


/// The occupancy leaves of the listed clippers that are in the model and
/// have one, in order.
pub open spec fn clipper_occupancies<L, K, B>(m: Map<u64, Member<L, K, B>>, ids: Seq<StableId>) -> Seq<L>
    decreases ids.len(),
{
    if ids.len() == 0 {
        Seq::empty()
    } else {
        let prev = clipper_occupancies(m, ids.drop_last());
        let c = ids.last().0;
        if m.contains_key(c) && occupancy_of(m[c].tree()) is Some {
            prev.push(occupancy_of(m[c].tree())->Some_0)
        } else {
            prev
        }
    }
}

/// The clipper occupancies along a chain of clips: those of the outermost
/// clip, then of the clip it is based on, and so on; none below any other
/// node.
pub open spec fn clip_chain_leaves<L, K, B>(m: Map<u64, Member<L, K, B>>, node: CsgNode<L>) -> Seq<L>
    decreases node,
{
    match node {
        CsgNode::Clip { base, clippers, .. } => clipper_occupancies(m, clippers@) + clip_chain_leaves(m, *base),
        _ => Seq::empty(),
    }
}

/// Append the occupancy leaves of the clippers along the chain of clips at
/// the top of `node`; clippers missing from the model, or occupying no single
/// prism, are passed over.
pub fn collect_clipper_leaves<L: Copy, K, B>(model: &Model<L, K, B>, node: &CsgNode<L>, out: &mut Vec<L>)
    requires
        model.wf(),
    ensures
        final(out)@ == old(out)@ + clip_chain_leaves(model@, *node),
    decreases node,
{
    if let CsgNode::Clip { base, clippers, .. } = node {
        let ghost o0 = out@;
        let mut i: usize = 0;
        while i < clippers.len()
            invariant
                model.wf(),
                i <= clippers.len(),
                out@ == o0 + clipper_occupancies(model@, clippers@.take(i as int)),
            decreases clippers.len() - i,
        {
            let cid = clippers[i];
            proof {
                assert(clippers@.take(i + 1).drop_last() =~= clippers@.take(i as int));
            }
            if let Some(cm) = model.get(cid) {
                if let Some(leaf) = occupancy_leaf(cm.csg()) {
                    out.push(leaf);
                }
            }
            proof {
                assert(out@ =~= o0 + clipper_occupancies(model@, clippers@.take(i + 1)));
            }
            i = i + 1;
        }
        proof {
            assert(clippers@.take(clippers.len() as int) =~= clippers@);
        }
        let ghost o1 = out@;
        collect_clipper_leaves(model, base, out);
        proof {
            assert(out@ =~= o0 + clip_chain_leaves(model@, *node));
        }
    } else {
        proof {
            assert(out@ =~= old(out)@ + clip_chain_leaves(model@, *node));
        }
    }
}

impl<L: Copy, K, B> Model<L, K, B> {
    /// The gross occupancy leaves of the clippers that member `id` deducts,
    /// read along the chain of clips at the top of its tree; none for a
    /// member not in the model.
    pub fn clipper_leaves_of(&self, id: StableId) -> (r: Vec<L>)
        requires
            self.wf(),
        ensures
            r@ == if self@.contains_key(id.0) {
                clip_chain_leaves(self@, self@[id.0].tree())
            } else {
                Seq::empty()
            },
    {
        let mut out: Vec<L> = Vec::new();
        if let Some(m) = self.get(id) {
            collect_clipper_leaves(self, m.csg(), &mut out);
        }
        proof {
            assert(out@ =~= (if self@.contains_key(id.0) {
                clip_chain_leaves(self@, self@[id.0].tree())
            } else {
                Seq::empty()
            }));
        }
        out
    }
}

} // verus!
