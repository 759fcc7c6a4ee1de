//! The split-and-dedup step of the planar arrangement.
//!
//! Every input segment, split at its interior crossing vertices, contributes
//! unit segments between consecutive vertices. Coincident unit segments are
//! merged into one arrangement edge keyed by its unordered vertex pair, which
//! carries the net directed winding of each operand: `+1` for a unit running
//! from the smaller to the larger vertex id, `-1` for the other way. An edge
//! whose windings cancel for both operands (a shared edge traversed in opposite
//! directions) carries no boundary and is dropped.

use vstd::prelude::*;

use crate::boolean::poly2d::snap::VertexId;

verus! {

/// Which operand an input edge came from.
#[derive(Debug, Clone, Copy, PartialEq, Eq, Structural)]
pub enum Operand {
    /// The first operand (`A`).
    A,
    /// The second operand (`B`).
    B,
}

/// An input edge after snapping its endpoints to vertex ids, with its operand
/// and its original direction `a → b`.
#[derive(Debug, Clone, Copy, PartialEq, Eq, Structural)]
pub struct InputSeg {
    /// The start vertex.
    pub a: VertexId,
    /// The end vertex.
    pub b: VertexId,
    /// The operand the edge belongs to.
    pub operand: Operand,
}

/// An arrangement edge between two distinct vertices `a < b`, with the net
/// directed winding of each operand along it.
#[derive(Debug, Clone, Copy, PartialEq, Eq, Structural)]
pub struct ArrEdge {
    /// The smaller vertex.
    pub a: VertexId,
    /// The larger vertex.
    pub b: VertexId,
    /// The net winding of operand `A` from `a` to `b`.
    pub wind_a: i32,
    /// The net winding of operand `B` from `a` to `b`.
    pub wind_b: i32,
}

/// Whether `v` is one of the ids of `s`.
pub open spec fn holds_vertex(s: Seq<VertexId>, v: VertexId) -> bool {
    exists|i: int| 0 <= i < s.len() && #[trigger] s[i] == v
}

/// Record `v` as a split point of input segment `s` if it is interior to it
/// (not one of its endpoints) and not recorded yet.
pub fn push_split(splits: &mut Vec<VertexId>, v: VertexId, s: &InputSeg)
    ensures
        if v != s.a && v != s.b && !holds_vertex(old(splits)@, v) {
            final(splits)@ == old(splits)@.push(v)
        } else {
            final(splits)@ == old(splits)@
        },
{
    if v == s.a || v == s.b {
        return;
    }
    let mut i: usize = 0;
    while i < splits.len()
        invariant
            i <= splits.len(),
            forall|j: int| 0 <= j < i ==> splits@[j] != v,
        decreases splits.len() - i,
    {
        if splits[i] == v {
            return;
        }
        i = i + 1;
    }
    splits.push(v);
}

/// The winding a unit segment `u → v` of operand `op` contributes to the
/// arrangement edge `a → b` (`a < b`) for operand `which`.
pub open spec fn contribution(u: VertexId, v: VertexId, op: Operand, a: VertexId, b: VertexId, which: Operand) -> int {
    if op != which {
        0
    } else if u == a && v == b {
        1
    } else if u == b && v == a {
        -1
    } else {
        0
    }
}

/// The net winding of operand `which` along `a → b` over a list of unit
/// segments.
pub open spec fn net_winding(units: Seq<(VertexId, VertexId, Operand)>, a: VertexId, b: VertexId, which: Operand) -> int
    decreases units.len(),
{
    if units.len() == 0 {
        0
    } else {
        net_winding(units.drop_last(), a, b, which) + contribution(
            units.last().0,
            units.last().1,
            units.last().2,
            a,
            b,
            which,
        )
    }
}

proof fn lemma_net_bound(units: Seq<(VertexId, VertexId, Operand)>, a: VertexId, b: VertexId, which: Operand)
    ensures
        -units.len() <= net_winding(units, a, b, which) <= units.len(),
    decreases units.len(),
{
    if units.len() > 0 {
        lemma_net_bound(units.drop_last(), a, b, which);
    }
}

/// The lower vertex of the unordered pair `{u, v}`.
pub open spec fn key_lo(u: VertexId, v: VertexId) -> VertexId {
    if u.0 <= v.0 {
        u
    } else {
        v
    }
}

/// The upper vertex of the unordered pair `{u, v}`.
pub open spec fn key_hi(u: VertexId, v: VertexId) -> VertexId {
    if u.0 <= v.0 {
        v
    } else {
        u
    }
}

/// `+1` when `u → v` runs from the lower to the upper vertex, else `-1`.
pub open spec fn dir(u: VertexId, v: VertexId) -> int {
    if u.0 <= v.0 {
        1
    } else {
        -1
    }
}

/// The edge `e` with `d` added to the winding of `op`.
pub open spec fn bump(e: ArrEdge, op: Operand, d: int) -> ArrEdge {
    ArrEdge {
        a: e.a,
        b: e.b,
        wind_a: if op == Operand::A {
            (e.wind_a + d) as i32
        } else {
            e.wind_a
        },
        wind_b: if op == Operand::B {
            (e.wind_b + d) as i32
        } else {
            e.wind_b
        },
    }
}

/// Some edge of `m` is keyed `(a, b)`.
pub open spec fn has_key(m: Seq<ArrEdge>, a: VertexId, b: VertexId) -> bool {
    exists|i: int| 0 <= i < m.len() && #[trigger] m[i].a == a && m[i].b == b
}

/// The position of the edge keyed `(a, b)`.
pub open spec fn key_index(m: Seq<ArrEdge>, a: VertexId, b: VertexId) -> int {
    choose|i: int| 0 <= i < m.len() && #[trigger] m[i].a == a && m[i].b == b
}

/// No two edges share a key.
pub open spec fn keys_distinct(m: Seq<ArrEdge>) -> bool {
    forall|i: int, j: int| 0 <= i < j < m.len() ==> !(m[i].a == m[j].a && m[i].b == m[j].b)
}

/// The edges after adding the unit segment `u → v` of `op`.
pub open spec fn accumulated(m: Seq<ArrEdge>, u: VertexId, v: VertexId, op: Operand) -> Seq<ArrEdge> {
    let a = key_lo(u, v);
    let b = key_hi(u, v);
    if has_key(m, a, b) {
        m.update(key_index(m, a, b), bump(m[key_index(m, a, b)], op, dir(u, v)))
    } else {
        m.push(bump(ArrEdge { a, b, wind_a: 0, wind_b: 0 }, op, dir(u, v)))
    }
}

/// Add the directed unit segment `u → v` of `operand` to the arrangement
/// edges: the edge keyed by the unordered pair gains `+1` (`u < v`) or `-1`
/// (`u > v`) in that operand's winding, and is created when absent.
#[verifier::loop_isolation(false)]
pub fn accumulate_edge(map: &mut Vec<ArrEdge>, u: VertexId, v: VertexId, operand: Operand)
    requires
        keys_distinct(old(map)@),
        forall|i: int|
            0 <= i < old(map).len() ==> -i32::MAX < #[trigger] old(map)@[i].wind_a < i32::MAX && -i32::MAX
                < old(map)@[i].wind_b < i32::MAX,
    ensures
        final(map)@ == accumulated(old(map)@, u, v, operand),
{
    let ghost m0 = map@;
    let (ka, kb, d): (VertexId, VertexId, i32) = if u.0 <= v.0 {
        (u, v, 1)
    } else {
        (v, u, -1)
    };
    let mut i: usize = 0;
    while i < map.len()
        invariant
            map@ == m0,
            i <= map.len(),
            forall|j: int| 0 <= j < i ==> !(#[trigger] map@[j].a == ka && map@[j].b == kb),
        decreases map.len() - i,
    {
        if map[i].a == ka && map[i].b == kb {
            let e = map[i];
            proof {
                let k = key_index(m0, ka, kb);
                assert(m0[i as int].a == ka && m0[i as int].b == kb);
                assert(has_key(m0, ka, kb));
                if k != i {
                    if k < i {
                        assert(!(m0[k].a == m0[i as int].a && m0[k].b == m0[i as int].b));
                    } else {
                        assert(!(m0[i as int].a == m0[k].a && m0[i as int].b == m0[k].b));
                    }
                }
            }
            let wa: i32 = match operand {
                Operand::A => e.wind_a + d,
                Operand::B => e.wind_a,
            };
            let wb: i32 = match operand {
                Operand::A => e.wind_b,
                Operand::B => e.wind_b + d,
            };
            map.set(i, ArrEdge { a: ka, b: kb, wind_a: wa, wind_b: wb });
            return;
        }
        i = i + 1;
    }
    let wa: i32 = match operand {
        Operand::A => d,
        Operand::B => 0,
    };
    let wb: i32 = match operand {
        Operand::A => 0,
        Operand::B => d,
    };
    map.push(ArrEdge { a: ka, b: kb, wind_a: wa, wind_b: wb });
}

/// The unit segments of a split chain: each pair of consecutive vertices,
/// tagged with the operand.
pub open spec fn chain_units(chain: Seq<VertexId>, op: Operand) -> Seq<(VertexId, VertexId, Operand)> {
    Seq::new((if chain.len() == 0 { 0 } else { chain.len() - 1 }) as nat, |t: int| (chain[t], chain[t + 1], op))
}

/// The unit segments of the first `i` input segments, split along their
/// chains, in order.
pub open spec fn all_units(inputs: Seq<InputSeg>, chains: Seq<Vec<VertexId>>, i: int) -> Seq<(VertexId, VertexId, Operand)>
    decreases i,
{
    if i <= 0 {
        Seq::empty()
    } else {
        all_units(inputs, chains, i - 1) + chain_units(chains[i - 1]@, inputs[i - 1].operand)
    }
}

/// The arrangement edges well formed and summing `units`: keys are distinct
/// with the smaller id first, each edge carries the net winding of each
/// operand, and every pair with a non-zero net winding has an edge.
pub open spec fn edges_sum(m: Seq<ArrEdge>, units: Seq<(VertexId, VertexId, Operand)>) -> bool {
    &&& keys_distinct(m)
    &&& forall|i: int|
        0 <= i < m.len() ==> (#[trigger] m[i]).a.0 < m[i].b.0 && m[i].wind_a == net_winding(units, m[i].a, m[i].b, Operand::A)
            && m[i].wind_b == net_winding(units, m[i].a, m[i].b, Operand::B)
    &&& forall|a: VertexId, b: VertexId|
        #![trigger net_winding(units, a, b, Operand::A)]
        #![trigger net_winding(units, a, b, Operand::B)]
        a.0 < b.0 && (net_winding(units, a, b, Operand::A) != 0 || net_winding(units, a, b, Operand::B) != 0) ==> has_key(m, a, b)
}

proof fn lemma_edges_step(m: Seq<ArrEdge>, units: Seq<(VertexId, VertexId, Operand)>, u: VertexId, v: VertexId, op: Operand)
    requires
        edges_sum(m, units),
        u != v,
        units.len() + 1 < i32::MAX,
    ensures
        edges_sum(accumulated(m, u, v, op), units.push((u, v, op))),
{
    let us = units.push((u, v, op));
    let m2 = accumulated(m, u, v, op);
    let lo = key_lo(u, v);
    let hi = key_hi(u, v);
    assert(u.0 != v.0);
    assert(lo.0 < hi.0);
    assert(us.drop_last() == units);
    assert forall|a: VertexId, b: VertexId, w: Operand| a.0 < b.0 implies #[trigger] net_winding(us, a, b, w) == net_winding(units, a, b, w)
        + contribution(u, v, op, a, b, w) by {}
    assert forall|a: VertexId, b: VertexId, w: Operand| a.0 < b.0 && !(a == lo && b == hi) implies #[trigger] contribution(u, v, op, a, b, w) == 0 by {}
    if has_key(m, lo, hi) {
        let k = key_index(m, lo, hi);
        lemma_net_bound(units, lo, hi, Operand::A);
        lemma_net_bound(units, lo, hi, Operand::B);
        assert forall|i: int, j: int| 0 <= i < j < m2.len() implies !(m2[i].a == m2[j].a && m2[i].b == m2[j].b) by {
            assert(!(m[i].a == m[j].a && m[i].b == m[j].b));
        }
        assert forall|i: int| 0 <= i < m2.len() implies (#[trigger] m2[i]).a.0 < m2[i].b.0 && m2[i].wind_a == net_winding(us, m2[i].a, m2[i].b, Operand::A)
            && m2[i].wind_b == net_winding(us, m2[i].a, m2[i].b, Operand::B) by {
            assert(m[i].a.0 < m[i].b.0);
            if i != k {
                assert(!(m[i].a == lo && m[i].b == hi)) by {
                    if m[i].a == lo && m[i].b == hi {
                        if i < k {
                            assert(!(m[i].a == m[k].a && m[i].b == m[k].b));
                        } else {
                            assert(!(m[k].a == m[i].a && m[k].b == m[i].b));
                        }
                    }
                }
            }
        }
        assert forall|a: VertexId, b: VertexId|
            #![trigger net_winding(us, a, b, Operand::A)]
            #![trigger net_winding(us, a, b, Operand::B)]
            a.0 < b.0 && (net_winding(us, a, b, Operand::A) != 0 || net_winding(us, a, b, Operand::B) != 0) implies has_key(m2, a, b) by {
            if a == lo && b == hi {
                assert(m2[k].a == a && m2[k].b == b);
            } else {
                assert(net_winding(us, a, b, Operand::A) == net_winding(units, a, b, Operand::A));
                assert(net_winding(us, a, b, Operand::B) == net_winding(units, a, b, Operand::B));
                assert(contribution(u, v, op, a, b, Operand::A) == 0);
                assert(contribution(u, v, op, a, b, Operand::B) == 0);
                assert(has_key(m, a, b));
                let t = key_index(m, a, b);
                assert(m2[t].a == a && m2[t].b == b);
            }
        }
    } else {
        assert forall|i: int, j: int| 0 <= i < j < m2.len() implies !(m2[i].a == m2[j].a && m2[i].b == m2[j].b) by {
            if j == m.len() {
                assert(m2[i] == m[i]);
                if m[i].a == lo && m[i].b == hi {
                    assert(has_key(m, lo, hi));
                }
            } else {
                assert(!(m[i].a == m[j].a && m[i].b == m[j].b));
            }
        }
        assert(net_winding(units, lo, hi, Operand::A) == 0);
        assert(net_winding(units, lo, hi, Operand::B) == 0);
        assert forall|i: int| 0 <= i < m2.len() implies (#[trigger] m2[i]).a.0 < m2[i].b.0 && m2[i].wind_a == net_winding(us, m2[i].a, m2[i].b, Operand::A)
            && m2[i].wind_b == net_winding(us, m2[i].a, m2[i].b, Operand::B) by {
            if i < m.len() {
                assert(m2[i] == m[i]);
                assert(m[i].a.0 < m[i].b.0);
                assert(!(m[i].a == lo && m[i].b == hi));
            } else {
                assert(u.0 != v.0);
            }
        }
        assert forall|a: VertexId, b: VertexId|
            #![trigger net_winding(us, a, b, Operand::A)]
            #![trigger net_winding(us, a, b, Operand::B)]
            a.0 < b.0 && (net_winding(us, a, b, Operand::A) != 0 || net_winding(us, a, b, Operand::B) != 0) implies has_key(m2, a, b) by {
            if a == lo && b == hi {
                assert(m2[m.len() as int].a == a && m2[m.len() as int].b == b);
            } else {
                assert(net_winding(us, a, b, Operand::A) == net_winding(units, a, b, Operand::A));
                assert(net_winding(us, a, b, Operand::B) == net_winding(units, a, b, Operand::B));
                assert(contribution(u, v, op, a, b, Operand::A) == 0);
                assert(contribution(u, v, op, a, b, Operand::B) == 0);
                assert(has_key(m, a, b));
                let t = key_index(m, a, b);
                assert(m2[t].a == a && m2[t].b == b);
            }
        }
    }
}

/// A unit segment that collapsed to a point changes no winding.
proof fn lemma_edges_skip(m: Seq<ArrEdge>, units: Seq<(VertexId, VertexId, Operand)>, u: VertexId, op: Operand)
    requires
        edges_sum(m, units),
    ensures
        edges_sum(m, units.push((u, u, op))),
{
    let us = units.push((u, u, op));
    assert(us.drop_last() == units);
    assert forall|a: VertexId, b: VertexId, w: Operand| a.0 < b.0 implies #[trigger] net_winding(us, a, b, w) == net_winding(units, a, b, w) by {
        assert(contribution(u, u, op, a, b, w) == 0);
    }
    assert forall|i: int| 0 <= i < m.len() implies (#[trigger] m[i]).a.0 < m[i].b.0 && m[i].wind_a == net_winding(us, m[i].a, m[i].b, Operand::A)
        && m[i].wind_b == net_winding(us, m[i].a, m[i].b, Operand::B) by {
        assert(m[i].a.0 < m[i].b.0);
        assert(net_winding(us, m[i].a, m[i].b, Operand::A) == net_winding(units, m[i].a, m[i].b, Operand::A));
        assert(net_winding(us, m[i].a, m[i].b, Operand::B) == net_winding(units, m[i].a, m[i].b, Operand::B));
    }
    assert forall|a: VertexId, b: VertexId|
        #![trigger net_winding(us, a, b, Operand::A)]
        #![trigger net_winding(us, a, b, Operand::B)]
        a.0 < b.0 && (net_winding(us, a, b, Operand::A) != 0 || net_winding(us, a, b, Operand::B) != 0) implies has_key(m, a, b) by {
        assert(net_winding(us, a, b, Operand::A) == net_winding(units, a, b, Operand::A));
        assert(net_winding(us, a, b, Operand::B) == net_winding(units, a, b, Operand::B));
    }
}

/// The arrangement edges of the split input segments: `chains[i]` is input
/// segment `i` split at its crossing vertices, in order along it. Unit
/// segments that collapsed to a point are skipped, coincident ones are merged
/// with their windings summed, and edges whose windings cancel for both
/// operands are dropped; the others keep the order in which their pair first
/// occurs.
pub fn arrangement_edges(inputs: &Vec<InputSeg>, chains: &Vec<Vec<VertexId>>) -> (r: Vec<ArrEdge>)
    requires
        inputs.len() == chains.len(),
        all_units(inputs@, chains@, inputs.len() as int).len() + 1 < i32::MAX,
    ensures
        keys_distinct(r@),
        forall|i: int|
            0 <= i < r.len() ==> (#[trigger] r@[i]).a.0 < r@[i].b.0
                && r@[i].wind_a == net_winding(all_units(inputs@, chains@, inputs.len() as int), r@[i].a, r@[i].b, Operand::A)
                && r@[i].wind_b == net_winding(all_units(inputs@, chains@, inputs.len() as int), r@[i].a, r@[i].b, Operand::B)
                && (r@[i].wind_a != 0 || r@[i].wind_b != 0),
        forall|a: VertexId, b: VertexId|
            #![trigger net_winding(all_units(inputs@, chains@, inputs.len() as int), a, b, Operand::A)]
            #![trigger net_winding(all_units(inputs@, chains@, inputs.len() as int), a, b, Operand::B)]
            a.0 < b.0 && (net_winding(all_units(inputs@, chains@, inputs.len() as int), a, b, Operand::A) != 0
                || net_winding(all_units(inputs@, chains@, inputs.len() as int), a, b, Operand::B) != 0) ==> has_key(r@, a, b),
{
    let ghost total = all_units(inputs@, chains@, inputs.len() as int);
    let mut map: Vec<ArrEdge> = Vec::new();
    let ghost mut done: Seq<(VertexId, VertexId, Operand)> = Seq::empty();
    proof {
        assert(edges_sum(map@, done));
        assert forall|k: int| 0 <= k <= inputs.len() implies all_units(inputs@, chains@, k).len() <= total.len() by {
            lemma_all_units_grow(inputs@, chains@, k, inputs.len() as int);
        }
    }
    let mut i: usize = 0;
    while i < inputs.len()
        invariant
            inputs.len() == chains.len(),
            total == all_units(inputs@, chains@, inputs.len() as int),
            total.len() + 1 < i32::MAX,
            forall|k: int| 0 <= k <= inputs.len() ==> #[trigger] all_units(inputs@, chains@, k).len() <= total.len(),
            i <= inputs.len(),
            done == all_units(inputs@, chains@, i as int),
            edges_sum(map@, done),
        decreases inputs.len() - i,
    {
        let chain = &chains[i];
        let op = inputs[i].operand;
        let ghost before = done;
        proof {
            lemma_all_units_grow(inputs@, chains@, i + 1, inputs.len() as int);
            assert(all_units(inputs@, chains@, i + 1) == before + chain_units(chain@, op));
        }
        let mut t: usize = 0;
        while t + 1 < chain.len()
            invariant
                *chain == chains@[i as int],
                total.len() + 1 < i32::MAX,
                all_units(inputs@, chains@, i + 1) == before + chain_units(chain@, op),
                all_units(inputs@, chains@, i + 1).len() <= total.len(),
                t <= chain.len(),
                chain.len() == 0 ==> t == 0,
                chain.len() > 0 ==> t + 1 <= chain.len(),
                done == before + chain_units(chain@, op).take(t as int),
                edges_sum(map@, done),
            decreases chain.len() - t,
        {
            let u = chain[t];
            let v = chain[t + 1];
            let ghost d0 = done;
            proof {
                assert(chain_units(chain@, op).take(t + 1) == chain_units(chain@, op).take(t as int).push((u, v, op)));
                done = done.push((u, v, op));
                assert(done.len() <= total.len());
            }
            if u != v {
                proof {
                    lemma_edges_step(map@, d0, u, v, op);
                    assert forall|k: int| 0 <= k < map.len() implies -i32::MAX < #[trigger] map@[k].wind_a < i32::MAX && -i32::MAX < map@[k].wind_b < i32::MAX by {
                        lemma_net_bound(d0, map@[k].a, map@[k].b, Operand::A);
                        lemma_net_bound(d0, map@[k].a, map@[k].b, Operand::B);
                    }
                }
                accumulate_edge(&mut map, u, v, op);
            } else {
                proof {
                    lemma_edges_skip(map@, d0, u, op);
                }
            }
            t = t + 1;
        }
        proof {
            if chain.len() > 0 {
                assert(chain_units(chain@, op).take(t as int) == chain_units(chain@, op));
            } else {
                assert(chain_units(chain@, op) == Seq::<(VertexId, VertexId, Operand)>::empty());
            }
        }
        i = i + 1;
    }
    let mut r: Vec<ArrEdge> = Vec::new();
    let ghost mut ps: Seq<int> = Seq::empty();
    let mut k: usize = 0;
    while k < map.len()
        invariant
            edges_sum(map@, total),
            k <= map.len(),
            keys_distinct(r@),
            forall|i: int|
                0 <= i < r.len() ==> (#[trigger] r@[i]).a.0 < r@[i].b.0 && r@[i].wind_a == net_winding(total, r@[i].a, r@[i].b, Operand::A)
                    && r@[i].wind_b == net_winding(total, r@[i].a, r@[i].b, Operand::B) && (r@[i].wind_a != 0 || r@[i].wind_b != 0),
            ps.len() == r.len(),
            forall|i: int| 0 <= i < r.len() ==> 0 <= #[trigger] ps[i] < k && map@[ps[i]] == r@[i],
            forall|j: int| 0 <= j < k && (map@[j].wind_a != 0 || map@[j].wind_b != 0) ==> exists|i: int| 0 <= i < r.len() && #[trigger] r@[i] == #[trigger] map@[j],
        decreases map.len() - k,
    {
        let e = map[k];
        if e.wind_a != 0 || e.wind_b != 0 {
            let ghost r0 = r@;
            let ghost ps0 = ps;
            r.push(e);
            proof {
                ps = ps.push(k as int);
                assert forall|i: int, j: int| 0 <= i < j < r.len() implies !(r@[i].a == r@[j].a && r@[i].b == r@[j].b) by {
                    if j == r0.len() {
                        let x = ps0[i];
                        assert(map@[x] == r0[i]);
                        assert(!(map@[x].a == map@[k as int].a && map@[x].b == map@[k as int].b));
                    }
                }
                assert forall|i: int| 0 <= i < r.len() implies 0 <= #[trigger] ps[i] < k + 1 && map@[ps[i]] == r@[i] by {
                    if i < r0.len() {
                        assert(ps[i] == ps0[i]);
                    }
                }
                assert forall|j: int| 0 <= j < k + 1 && (map@[j].wind_a != 0 || map@[j].wind_b != 0) implies exists|i: int| 0 <= i < r.len() && #[trigger] r@[i] == #[trigger] map@[j] by {
                    if j < k {
                        let x = choose|x: int| 0 <= x < r0.len() && #[trigger] r0[x] == #[trigger] map@[j];
                        assert(r@[x] == r0[x]);
                    } else {
                        assert(r@[r0.len() as int] == map@[j]);
                    }
                }
            }
        }
        k = k + 1;
    }
    proof {
        assert forall|a: VertexId, b: VertexId|
            #![trigger net_winding(total, a, b, Operand::A)]
            #![trigger net_winding(total, a, b, Operand::B)]
            a.0 < b.0 && (net_winding(total, a, b, Operand::A) != 0 || net_winding(total, a, b, Operand::B) != 0) implies has_key(r@, a, b) by {
            assert(has_key(map@, a, b));
            let j = key_index(map@, a, b);
            assert(map@[j].wind_a != 0 || map@[j].wind_b != 0);
            let x = choose|x: int| 0 <= x < r.len() && #[trigger] r@[x] == #[trigger] map@[j];
            assert(r@[x].a == a && r@[x].b == b);
        }
    }
    r
}

proof fn lemma_all_units_grow(inputs: Seq<InputSeg>, chains: Seq<Vec<VertexId>>, k: int, m: int)
    requires
        0 <= k <= m,
    ensures
        all_units(inputs, chains, k).len() <= all_units(inputs, chains, m).len(),
    decreases m - k,
{
    if k < m {
        lemma_all_units_grow(inputs, chains, k, m - 1);
    }
}

/// A unit segment and its reverse cancel: traversing an edge once in each
/// direction leaves every winding as it was, which is how an edge shared by
/// two regions of one operand vanishes from the arrangement.
pub proof fn lemma_opposite_traversals_cancel(
    units: Seq<(VertexId, VertexId, Operand)>,
    u: VertexId,
    v: VertexId,
    op: Operand,
    a: VertexId,
    b: VertexId,
    which: Operand,
)
    requires
        a.0 < b.0,
    ensures
        net_winding(units.push((u, v, op)).push((v, u, op)), a, b, which) == net_winding(units, a, b, which),
{
    let s1 = units.push((u, v, op));
    let s2 = s1.push((v, u, op));
    assert(s2.drop_last() == s1);
    assert(s1.drop_last() == units);
    assert(net_winding(s2, a, b, which) == net_winding(s1, a, b, which) + contribution(v, u, op, a, b, which));
    assert(net_winding(s1, a, b, which) == net_winding(units, a, b, which) + contribution(u, v, op, a, b, which));
    assert(contribution(u, v, op, a, b, which) + contribution(v, u, op, a, b, which) == 0);
}

} // verus!
