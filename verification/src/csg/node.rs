//! The CSG node vocabulary.

use vstd::prelude::*;

use crate::csg::ids::{OpeningId, StableId};

verus! {

/// The rule deciding which member wins where clippers overlap the base.
#[derive(Debug, Clone, Copy, PartialEq, Eq, Structural)]
pub enum ClipRule {
    /// The clipper with the higher priority wins (column over girder, …).
    Priority,
}

/// A node in a member's CSG tree, generic over the extrusion leaf `L` (the
/// profile, placement, direction and length of one extruded prism).
#[derive(Debug)]
pub enum CsgNode<L> {
    /// Extrude a 2-D profile along an axis for a given length.
    Extrude(L),
    /// The union of several sub-nodes.
    Union(Vec<CsgNode<L>>),
    /// Semantic opening subtraction (an `IfcRelVoidsElement`-equivalent void),
    /// kept distinct from a general difference so that opening areas can be
    /// read off the tree.
    OpeningSubtraction {
        /// The base solid the openings are cut from.
        base: Box<CsgNode<L>>,
        /// The openings, each with its stable id.
        openings: Vec<(OpeningId, Opening<L>)>,
    },
    /// Priority-based deduction for quantity take-off: the base loses the
    /// volume of every listed clipper member.
    Clip {
        /// The base solid being clipped.
        base: Box<CsgNode<L>>,
        /// The members (by stable id) that clip the base.
        clippers: Vec<StableId>,
        /// The rule deciding which member wins on overlap.
        rule: ClipRule,
    },
    /// A general boolean difference (joints, oblique notches).
    Difference {
        /// The solid to keep.
        positive: Box<CsgNode<L>>,
        /// The solid to subtract.
        negative: Box<CsgNode<L>>,
    },
}

/// A semantic opening (void) cut from a member, described by its own CSG
/// sub-tree (typically an extrusion).
#[derive(Debug)]
pub struct Opening<L> {
    /// The shape of the void.
    pub shape: CsgNode<L>,
}

/// `true` when the tree lists member `id` as a clipper in some `Clip` node,
/// at any depth (through clip bases, opening-subtraction bases, union members
/// and both sides of a difference; opening shapes are not searched).
pub open spec fn refs<L>(node: CsgNode<L>, id: u64) -> bool
    decreases node,
{
    match node {
        CsgNode::Extrude(_) => false,
        CsgNode::Union(nodes) => refs_any(nodes@, id),
        CsgNode::OpeningSubtraction { base, .. } => refs(*base, id),
        CsgNode::Clip { base, clippers, .. } => (exists|i: int|
            0 <= i < clippers.len() && #[trigger] clippers[i] == StableId(id)) || refs(*base, id),
        CsgNode::Difference { positive, negative } => refs(*positive, id) || refs(*negative, id),
    }
}

/// `true` when one of the trees of `nodes` lists member `id` as a clipper.
pub open spec fn refs_any<L>(nodes: Seq<CsgNode<L>>, id: u64) -> bool
    decreases nodes,
{
    if nodes.len() == 0 {
        false
    } else {
        refs_any(nodes.drop_last(), id) || refs(nodes.last(), id)
    }
}

/// Whether one of the first `i` ids of `s` is `k`.
pub open spec fn in_prefix(s: Seq<StableId>, i: int, k: u64) -> bool {
    exists|j: int| 0 <= j < i && #[trigger] s[j] == StableId(k)
}

proof fn lemma_in_prefix_step(s: Seq<StableId>, i: int, k: u64)
    requires
        0 <= i < s.len(),
    ensures
        in_prefix(s, i + 1, k) <==> (in_prefix(s, i, k) || s[i].0 == k),
{
    if s[i].0 == k {
        assert(s[i] == StableId(k));
    }
    if in_prefix(s, i + 1, k) {
        let j = choose|j: int| 0 <= j < i + 1 && #[trigger] s[j] == StableId(k);
        if j < i {
            assert(in_prefix(s, i, k));
        }
    }
}

proof fn lemma_refs_any_step<L>(s: Seq<CsgNode<L>>, i: int, k: u64)
    requires
        0 <= i < s.len(),
    ensures
        refs_any(s.take(i + 1), k) <==> (refs_any(s.take(i), k) || refs(s[i], k)),
{
    assert(s.take(i + 1).drop_last() == s.take(i));
}

/// Whether a list of ids holds no id twice.
pub open spec fn distinct_ids(s: Seq<StableId>) -> bool {
    forall|i: int, j: int| 0 <= i < j < s.len() ==> s[i].0 != s[j].0
}

/// Whether `s` holds the id `id`.
pub open spec fn has_id(s: Seq<StableId>, id: u64) -> bool {
    exists|i: int| 0 <= i < s.len() && s[i].0 == id
}

/// Add `id` to the id set `out` unless it is already there.
fn insert_id(out: &mut Vec<StableId>, id: StableId)
    requires
        distinct_ids(old(out)@),
    ensures
        distinct_ids(final(out)@),
        forall|k: u64|
            #![trigger has_id(final(out)@, k)]
            has_id(final(out)@, k) <==> (has_id(old(out)@, k) || k == id.0),
{
    let mut i: usize = 0;
    while i < out.len()
        invariant
            i <= out.len(),
            out@ == old(out)@,
            distinct_ids(out@),
            forall|j: int| 0 <= j < i ==> out@[j].0 != id.0,
        decreases out.len() - i,
    {
        if out[i].0 == id.0 {
            return;
        }
        i = i + 1;
    }
    out.push(id);
    assert forall|k: u64| has_id(out@, k) <==> (has_id(old(out)@, k) || k == id.0) by {
        if has_id(old(out)@, k) {
            let j = choose|j: int| 0 <= j < old(out)@.len() && old(out)@[j].0 == k;
            assert(out@[j].0 == k);
        }
        if k == id.0 {
            assert(out@[out@.len() - 1].0 == k);
        }
    }
}

/// Add every id of `ids` to the id set `out`.
fn insert_ids(out: &mut Vec<StableId>, ids: &Vec<StableId>)
    requires
        distinct_ids(old(out)@),
    ensures
        distinct_ids(final(out)@),
        forall|k: u64|
            #![trigger has_id(final(out)@, k)]
            has_id(final(out)@, k) <==> (has_id(old(out)@, k) || has_id(ids@, k)),
{
    let mut i: usize = 0;
    while i < ids.len()
        invariant
            i <= ids.len(),
            distinct_ids(out@),
            forall|k: u64|
                #![trigger has_id(out@, k)]
                has_id(out@, k) <==> (has_id(old(out)@, k) || in_prefix(ids@, i as int, k)),
        decreases ids.len() - i,
    {
        let ghost mid = out@;
        insert_id(out, ids[i]);
        proof {
            assert forall|k: u64|
                #![trigger has_id(out@, k)]
                has_id(out@, k) <==> (has_id(old(out)@, k) || in_prefix(ids@, i + 1, k)) by {
                assert(has_id(mid, k) <==> (has_id(old(out)@, k) || in_prefix(ids@, i as int, k)));
                lemma_in_prefix_step(ids@, i as int, k);
            }
        }
        i = i + 1;
    }
    assert forall|k: u64|
        #![trigger has_id(out@, k)]
        has_id(out@, k) <==> (has_id(old(out)@, k) || has_id(ids@, k)) by {
        if has_id(ids@, k) {
            let j = choose|j: int| 0 <= j < ids.len() && ids@[j].0 == k;
            assert(ids@[j] == StableId(k));
        }
        if in_prefix(ids@, ids.len() as int, k) {
            let j = choose|j: int| 0 <= j < ids.len() && #[trigger] ids@[j] == StableId(k);
            assert(ids@[j].0 == k);
        }
    }
}

/// Collect the clipper ids referenced anywhere in a CSG tree into `out`.
///
/// Each id is a dependency of the member owning the tree. Nested nodes are
/// walked, so a clip inside a union or a difference is still seen.
#[verifier::loop_isolation(false)]
pub fn clipper_ids<L>(node: &CsgNode<L>, out: &mut Vec<StableId>)
    requires
        distinct_ids(old(out)@),
    ensures
        distinct_ids(final(out)@),
        forall|k: u64|
            #![trigger has_id(final(out)@, k)]
            has_id(final(out)@, k) <==> (has_id(old(out)@, k) || refs(*node, k)),
    decreases node,
{
    match node {
        CsgNode::Clip { base, clippers, .. } => {
            insert_ids(out, clippers);
            clipper_ids(base, out);
            assert forall|k: u64|
                #![trigger has_id(out@, k)]
                has_id(out@, k) <==> (has_id(old(out)@, k) || refs(*node, k)) by {
                if has_id(clippers@, k) {
                    let j = choose|j: int| 0 <= j < clippers.len() && clippers@[j].0 == k;
                    assert(clippers[j] == StableId(k));
                }
                if exists|j: int| 0 <= j < clippers.len() && #[trigger] clippers[j] == StableId(k) {
                    let j = choose|j: int|
                        0 <= j < clippers.len() && #[trigger] clippers[j] == StableId(k);
                    assert(clippers@[j].0 == k);
                }
            }
        },
        CsgNode::OpeningSubtraction { base, .. } => clipper_ids(base, out),
        CsgNode::Union(nodes) => {
            let ghost before = out@;
            let mut i: usize = 0;
            while i < nodes.len()
                invariant
                    i <= nodes.len(),
                    distinct_ids(out@),
                    forall|k: u64|
                        #![trigger has_id(out@, k)]
                        has_id(out@, k) <==> (has_id(before, k) || refs_any(nodes@.take(i as int), k)),
                decreases nodes.len() - i,
            {
                let ghost mid = out@;
                clipper_ids(&nodes[i], out);
                proof {
                    assert forall|k: u64|
                        #![trigger has_id(out@, k)]
                        has_id(out@, k) <==> (has_id(before, k) || refs_any(
                            nodes@.take(i + 1),
                            k,
                        )) by {
                        assert(has_id(mid, k) <==> (has_id(before, k) || refs_any(nodes@.take(i as int), k)));
                        lemma_refs_any_step(nodes@, i as int, k);
                    }
                }
                i = i + 1;
            }
            assert(nodes@.take(nodes.len() as int) == nodes@);
        },
        CsgNode::Difference { positive, negative } => {
            clipper_ids(positive, out);
            clipper_ids(negative, out);
        },
        CsgNode::Extrude(_) => {},
    }
}

} // verus!
