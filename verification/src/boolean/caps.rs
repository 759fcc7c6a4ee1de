//! The cap boundary of a half-space cut, on quantised coordinate keys.
//!
//! The section edges that the kept faces record along the cutting plane are
//! directed wall-side edges `pa → pb`. A straight edge that two adjacent kept
//! faces record in opposite directions is internal and cancels; the others,
//! one per direction, and every section arc, bound the cap. The cap edges are
//! then chained into cycles by matching each edge's end key with the start key
//! of the next.

use vstd::prelude::*;

use crate::boolean::poly2d::dcel::{
    advance, is_closed_loop, is_permutation, lemma_advance_add, lemma_advance_range, lemma_first_return, loop_holds,
};
use crate::model::graph::{count_true, lemma_count_true_bound, lemma_count_true_set};

verus! {

/// A quantised 3-D point: equal keys mean the same vertex.
pub type CoordKey = (i64, i64, i64);

/// A directed edge by the keys of its start and end.
pub type KeyEdge = (CoordKey, CoordKey);

/// Lexicographic order of keys.
pub open spec fn key_le(a: CoordKey, b: CoordKey) -> bool {
    a.0 < b.0 || (a.0 == b.0 && (a.1 < b.1 || (a.1 == b.1 && a.2 <= b.2)))
}

fn key_le_exec(a: CoordKey, b: CoordKey) -> (r: bool)
    ensures
        r == key_le(a, b),
{
    a.0 < b.0 || (a.0 == b.0 && (a.1 < b.1 || (a.1 == b.1 && a.2 <= b.2)))
}

fn same_key(a: CoordKey, b: CoordKey) -> (r: bool)
    ensures
        r == (a == b),
{
    a.0 == b.0 && a.1 == b.1 && a.2 == b.2
}

fn same_edge(a: KeyEdge, b: KeyEdge) -> (r: bool)
    ensures
        r == (a == b),
{
    same_key(a.0, b.0) && same_key(a.1, b.1)
}

/// The undirected key of an edge: its two keys, smaller first.
pub open spec fn undirected(e: KeyEdge) -> KeyEdge {
    if key_le(e.0, e.1) {
        e
    } else {
        (e.1, e.0)
    }
}

/// `+1` for an edge running from its smaller key, `-1` otherwise.
pub open spec fn direction(e: KeyEdge) -> int {
    if key_le(e.0, e.1) {
        1
    } else {
        -1
    }
}

/// The signed multiplicity of undirected key `uk` among the first `k`
/// straight edges.
pub open spec fn tally(straight: Seq<KeyEdge>, uk: KeyEdge, k: nat) -> int
    decreases k,
{
    if k == 0 {
        0
    } else {
        tally(straight, uk, (k - 1) as nat) + if undirected(straight[k - 1]) == uk {
            direction(straight[k - 1])
        } else {
            0
        }
    }
}

/// Where a cap edge comes from: a straight section edge or a section arc,
/// by position.
#[derive(Debug, Clone, Copy, PartialEq, Eq, Structural)]
pub enum CapSource {
    /// The straight section edge at this position.
    Straight(usize),
    /// The section arc at this position.
    Arc(usize),
}

/// The cap edges emitted after the first `k` straight edges, with the
/// directed keys emitted so far: a straight edge whose undirected key tallies
/// to zero cancels, and of the others only the first per directed key stays.
pub open spec fn emit_straight(straight: Seq<KeyEdge>, k: nat) -> (Seq<CapSource>, Set<KeyEdge>)
    decreases k,
{
    if k == 0 {
        (Seq::empty(), Set::empty())
    } else {
        let prev = emit_straight(straight, (k - 1) as nat);
        let e = straight[k - 1];
        if tally(straight, undirected(e), straight.len()) == 0 || prev.1.contains(e) {
            prev
        } else {
            (prev.0.push(CapSource::Straight((k - 1) as usize)), prev.1.insert(e))
        }
    }
}

/// The cap edges after all straight edges and the first `k` arcs: an arc
/// stays unless its directed key was already emitted.
pub open spec fn emit_arcs(straight: Seq<KeyEdge>, arcs: Seq<KeyEdge>, k: nat) -> (Seq<CapSource>, Set<KeyEdge>)
    decreases k,
{
    if k == 0 {
        emit_straight(straight, straight.len())
    } else {
        let prev = emit_arcs(straight, arcs, (k - 1) as nat);
        let e = arcs[k - 1];
        if prev.1.contains(e) {
            prev
        } else {
            (prev.0.push(CapSource::Arc((k - 1) as usize)), prev.1.insert(e))
        }
    }
}

/// The cap boundary edges in emission order.
pub open spec fn cap_edges_spec(straight: Seq<KeyEdge>, arcs: Seq<KeyEdge>) -> Seq<CapSource> {
    emit_arcs(straight, arcs, arcs.len()).0
}

fn tally_of(straight: &Vec<KeyEdge>, uk: KeyEdge) -> (t: i32)
    requires
        straight.len() <= i32::MAX,
    ensures
        t == tally(straight@, uk, straight.len() as nat),
{
    let mut t: i32 = 0;
    let mut i: usize = 0;
    while i < straight.len()
        invariant
            straight.len() <= i32::MAX,
            i <= straight.len(),
            t == tally(straight@, uk, i as nat),
            -(i as int) <= t <= i,
        decreases straight.len() - i,
    {
        let e = straight[i];
        let up = key_le_exec(e.0, e.1);
        let u: KeyEdge = if up { e } else { (e.1, e.0) };
        if same_edge(u, uk) {
            if up {
                t = t + 1;
            } else {
                t = t - 1;
            }
        }
        i = i + 1;
    }
    t
}

fn emitted_has(emitted: &Vec<KeyEdge>, e: KeyEdge) -> (r: bool)
    ensures
        r == emitted@.contains(e),
{
    let mut i: usize = 0;
    while i < emitted.len()
        invariant
            i <= emitted.len(),
            forall|j: int| 0 <= j < i ==> emitted@[j] != e,
        decreases emitted.len() - i,
    {
        if same_edge(emitted[i], e) {
            proof {
                assert(emitted@[i as int] == e);
            }
            return true;
        }
        i = i + 1;
    }
    false
}

/// Collect the cap boundary edges from the straight section edges and the
/// section arcs, by their directed keys: straight edges whose undirected key
/// has signed multiplicity zero cancel, the other straight edges stay once per
/// directed key, and then each arc stays unless its directed key was already
/// emitted.
pub fn collect_cap_edges(straight: &Vec<KeyEdge>, arcs: &Vec<KeyEdge>) -> (out: Vec<CapSource>)
    requires
        straight.len() <= i32::MAX,
    ensures
        out@ == cap_edges_spec(straight@, arcs@),
        // Every section arc bounds the cap: its directed key is emitted.
        forall|q: int|
            0 <= q < arcs.len() ==> exists|t: int|
                0 <= t < out.len() && source_key(straight@, arcs@, #[trigger] out@[t]) == #[trigger] arcs@[q],
        // So does every straight edge whose undirected key does not cancel.
        forall|i: int|
            0 <= i < straight.len() && tally(straight@, undirected(#[trigger] straight@[i]), straight.len() as nat) != 0
                ==> exists|t: int| 0 <= t < out.len() && source_key(straight@, arcs@, #[trigger] out@[t]) == straight@[i],
        // Nothing else is emitted, and no directed key twice.
        forall|t: int|
            0 <= t < out.len() ==> match #[trigger] out@[t] {
                CapSource::Straight(p) => p < straight.len() && tally(straight@, undirected(straight@[p as int]), straight.len() as nat)
                    != 0,
                CapSource::Arc(q) => q < arcs.len(),
            },
        forall|t1: int, t2: int|
            0 <= t1 < t2 < out.len() ==> #[trigger] source_key(straight@, arcs@, out@[t1]) != #[trigger] source_key(
                straight@,
                arcs@,
                out@[t2],
            ),
{
    let mut out: Vec<CapSource> = Vec::new();
    let mut emitted: Vec<KeyEdge> = Vec::new();
    let mut i: usize = 0;
    while i < straight.len()
        invariant
            straight.len() <= i32::MAX,
            i <= straight.len(),
            out@ == emit_straight(straight@, i as nat).0,
            emitted@.to_set() == emit_straight(straight@, i as nat).1,
        decreases straight.len() - i,
    {
        let e = straight[i];
        let up = key_le_exec(e.0, e.1);
        let uk: KeyEdge = if up { e } else { (e.1, e.0) };
        let t = tally_of(straight, uk);
        let seen = emitted_has(&emitted, e);
        proof {
            assert(emitted@.to_set().contains(e) == emitted@.contains(e));
        }
        if t != 0 && !seen {
            out.push(CapSource::Straight(i));
            let ghost old_emitted = emitted@;
            emitted.push(e);
            proof {
                assert(emitted@.to_set() =~= old_emitted.to_set().insert(e)) by {
                    assert forall|x: KeyEdge| emitted@.to_set().contains(x) <==> old_emitted.to_set().insert(e).contains(x) by {
                        if emitted@.contains(x) && x != e {
                            let j = emitted@.index_of(x);
                            assert(old_emitted[j] == x);
                        }
                        if old_emitted.contains(x) {
                            let j = old_emitted.index_of(x);
                            assert(emitted@[j] == x);
                        }
                        if x == e {
                            assert(emitted@[old_emitted.len() as int] == e);
                        }
                    }
                }
            }
        }
        i = i + 1;
    }
    let mut j: usize = 0;
    while j < arcs.len()
        invariant
            j <= arcs.len(),
            out@ == emit_arcs(straight@, arcs@, j as nat).0,
            emitted@.to_set() == emit_arcs(straight@, arcs@, j as nat).1,
        decreases arcs.len() - j,
    {
        let e = arcs[j];
        let seen = emitted_has(&emitted, e);
        proof {
            assert(emitted@.to_set().contains(e) == emitted@.contains(e));
        }
        if !seen {
            out.push(CapSource::Arc(j));
            let ghost old_emitted = emitted@;
            emitted.push(e);
            proof {
                assert(emitted@.to_set() =~= old_emitted.to_set().insert(e)) by {
                    assert forall|x: KeyEdge| emitted@.to_set().contains(x) <==> old_emitted.to_set().insert(e).contains(x) by {
                        if emitted@.contains(x) && x != e {
                            let q = emitted@.index_of(x);
                            assert(old_emitted[q] == x);
                        }
                        if old_emitted.contains(x) {
                            let q = old_emitted.index_of(x);
                            assert(emitted@[q] == x);
                        }
                        if x == e {
                            assert(emitted@[old_emitted.len() as int] == e);
                        }
                    }
                }
            }
        }
        j = j + 1;
    }
    proof {
        lemma_cap_edges_complete(straight@, arcs@);
        lemma_emit_arcs_ok(straight@, arcs@, arcs.len() as nat);
    }
    out
}


/// The first position whose edge starts at key `k` (`edges.len()` when
/// none does).
pub open spec fn first_start(edges: Seq<KeyEdge>, k: CoordKey) -> int
    decreases edges.len(),
{
    if edges.len() == 0 {
        0
    } else if edges[0].0 == k {
        0
    } else {
        1 + first_start(edges.drop_first(), k)
    }
}

proof fn lemma_first_start(edges: Seq<KeyEdge>, k: CoordKey)
    ensures
        0 <= first_start(edges, k) <= edges.len(),
        first_start(edges, k) < edges.len() ==> edges[first_start(edges, k)].0 == k,
        forall|q: int| 0 <= q < first_start(edges, k) ==> edges[q].0 != k,
    decreases edges.len(),
{
    if edges.len() > 0 && edges[0].0 != k {
        lemma_first_start(edges.drop_first(), k);
        assert forall|q: int| 0 <= q < first_start(edges, k) implies edges[q].0 != k by {
            if q > 0 {
                assert(edges[q] == edges.drop_first()[q - 1]);
            }
        }
    }
}

/// The chain walked from `cur`: `cur` is marked used and recorded, and the
/// walk goes on to the first edge starting where `cur` ends, while that edge
/// is unused. Gives the chain and the used marks after it.
#[verifier::opaque]
pub open spec fn chain_walk(edges: Seq<KeyEdge>, used: Seq<bool>, cur: int) -> (Seq<usize>, Seq<bool>)
    decreases used.len() - count_true(used),
{
    if !(0 <= cur < used.len()) || used[cur] {
        (Seq::empty(), used)
    } else {
        let u2 = used.update(cur, true);
        let nx = first_start(edges, edges[cur].1);
        if 0 <= nx < used.len() && !u2[nx] {
            proof {
                lemma_count_true_set(used, cur);
                lemma_count_true_bound(u2);
            }
            let rest = chain_walk(edges, u2, nx);
            (seq![cur as usize] + rest.0, rest.1)
        } else {
            (seq![cur as usize], u2)
        }
    }
}

/// `s` back to front.
pub open spec fn backwards(s: Seq<usize>) -> Seq<usize> {
    Seq::new(s.len(), |t: int| s[s.len() - 1 - t])
}

/// The used marks and the cycles after trying the first `k` edges as chain
/// starts: a used start is skipped; a chain of at least two edges is kept,
/// back to front (the cap loop runs the wall chain in reverse).
pub open spec fn chains_upto(edges: Seq<KeyEdge>, k: nat) -> (Seq<bool>, Seq<Seq<usize>>)
    decreases k,
{
    if k == 0 {
        (Seq::new(edges.len(), |i: int| false), Seq::empty())
    } else {
        let prev = chains_upto(edges, (k - 1) as nat);
        let st = k - 1;
        if prev.0[st] {
            prev
        } else {
            let w = chain_walk(edges, prev.0, st);
            if w.0.len() >= 2 {
                (w.1, prev.1.push(backwards(w.0)))
            } else {
                (w.1, prev.1)
            }
        }
    }
}

proof fn lemma_chains_used_len(edges: Seq<KeyEdge>, k: nat)
    ensures
        chains_upto(edges, k).0.len() == edges.len(),
    decreases k,
{
    if k > 0 {
        lemma_chains_used_len(edges, (k - 1) as nat);
        let prev = chains_upto(edges, (k - 1) as nat);
        if !prev.0[k - 1] {
            lemma_walk_used_len(edges, prev.0, k - 1);
        }
    }
}

proof fn lemma_walk_used_len(edges: Seq<KeyEdge>, used: Seq<bool>, cur: int)
    ensures
        chain_walk(edges, used, cur).1.len() == used.len(),
    decreases used.len() - count_true(used),
{
    reveal(chain_walk);
    if 0 <= cur < used.len() && !used[cur] {
        let u2 = used.update(cur, true);
        let nx = first_start(edges, edges[cur].1);
        if 0 <= nx < used.len() && !u2[nx] {
            lemma_count_true_set(used, cur);
            lemma_count_true_bound(u2);
            lemma_walk_used_len(edges, u2, nx);
        }
    }
}

fn first_start_exec(edges: &Vec<KeyEdge>, k: CoordKey) -> (r: usize)
    ensures
        r == first_start(edges@, k),
{
    proof {
        lemma_first_start(edges@, k);
    }
    let mut i: usize = 0;
    while i < edges.len()
        invariant
            i <= edges.len(),
            0 <= first_start(edges@, k) <= edges.len(),
            first_start(edges@, k) < edges.len() ==> edges@[first_start(edges@, k)].0 == k,
            forall|q: int| 0 <= q < first_start(edges@, k) ==> edges@[q].0 != k,
            forall|q: int| 0 <= q < i ==> edges@[q].0 != k,
        decreases edges.len() - i,
    {
        if same_key(edges[i].0, k) {
            return i;
        }
        i = i + 1;
    }
    i
}

/// Chain the cap edges into cycles: from each edge not yet chained, follow
/// the first edge that starts where the current one ends, while it is not yet
/// chained; keep each chain of two or more edges, back to front, as a cycle of
/// edge positions.
pub fn chain_cap_edges(edges: &Vec<KeyEdge>) -> (cycles: Vec<Vec<usize>>)
    ensures
        cycles.len() == chains_upto(edges@, edges.len() as nat).1.len(),
        forall|i: int| 0 <= i < cycles.len() ==> #[trigger] cycles@[i]@ == chains_upto(edges@, edges.len() as nat).1[i],
{
    let n = edges.len();
    let mut used: Vec<bool> = Vec::new();
    while used.len() < n
        invariant
            used.len() <= n,
            forall|h: int| 0 <= h < used.len() ==> !#[trigger] used@[h],
        decreases n - used.len(),
    {
        used.push(false);
    }
    proof {
        assert(used@ =~= chains_upto(edges@, 0).0);
    }
    let mut cycles: Vec<Vec<usize>> = Vec::new();
    let mut start: usize = 0;
    while start < n
        invariant
            n == edges.len(),
            start <= n,
            used@ == chains_upto(edges@, start as nat).0,
            used.len() == n,
            cycles.len() == chains_upto(edges@, start as nat).1.len(),
            forall|i: int| 0 <= i < cycles.len() ==> #[trigger] cycles@[i]@ == chains_upto(edges@, start as nat).1[i],
        decreases n - start,
    {
        let ghost prev = chains_upto(edges@, start as nat);
        if used[start] {
            start = start + 1;
            continue;
        }
        let ghost w = chain_walk(edges@, used@, start as int);
        let mut chain: Vec<usize> = Vec::new();
        let mut cur: usize = start;
        loop
            invariant_except_break
                cur < n,
                !used@[cur as int],
                chain@ + chain_walk(edges@, used@, cur as int).0 == w.0,
                chain_walk(edges@, used@, cur as int).1 == w.1,
            invariant
                n == edges.len(),
                used.len() == n,
            ensures
                chain@ == w.0,
                used@ == w.1,
            decreases used.len() - count_true(used@),
        {
            let ghost u0 = used@;
            let ghost c0 = chain@;
            proof {
                reveal(chain_walk);
            }
            used.set(cur, true);
            chain.push(cur);
            let nx = first_start_exec(edges, edges[cur].1);
            proof {
                lemma_count_true_set(u0, cur as int);
                lemma_count_true_bound(used@);
            }
            if nx < n && !used[nx] {
                proof {
                    let rest = chain_walk(edges@, used@, nx as int);
                    assert(chain_walk(edges@, u0, cur as int) == (seq![cur] + rest.0, rest.1));
                    assert(chain@ + rest.0 == c0 + (seq![cur] + rest.0));
                }
                cur = nx;
            } else {
                proof {
                    assert(chain_walk(edges@, u0, cur as int) == (seq![cur], used@));
                    assert(chain@ == c0 + seq![cur]);
                }
                break;
            }
        }
        if chain.len() >= 2 {
            let mut rv: Vec<usize> = Vec::new();
            let mut q: usize = chain.len();
            while q > 0
                invariant
                    q <= chain.len(),
                    rv.len() == chain.len() - q,
                    forall|t: int| 0 <= t < rv.len() ==> #[trigger] rv@[t] == chain@[chain.len() - 1 - t],
                decreases q,
            {
                q = q - 1;
                rv.push(chain[q]);
            }
            proof {
                assert(rv@ =~= backwards(chain@));
            }
            cycles.push(rv);
        }
        start = start + 1;
    }
    cycles
}


/// The directed key of a cap edge.
pub open spec fn source_key(straight: Seq<KeyEdge>, arcs: Seq<KeyEdge>, c: CapSource) -> KeyEdge {
    match c {
        CapSource::Straight(p) => straight[p as int],
        CapSource::Arc(q) => arcs[q as int],
    }
}

/// What emission keeps true: every emitted straight edge is a real one that
/// did not cancel, every emitted arc is a real one, the emitted set is the set
/// of emitted keys, and no key is emitted twice.
pub open spec fn emission_ok(
    straight: Seq<KeyEdge>,
    arcs: Seq<KeyEdge>,
    out: Seq<CapSource>,
    set: Set<KeyEdge>,
) -> bool {
    &&& forall|t: int|
        0 <= t < out.len() ==> match #[trigger] out[t] {
            CapSource::Straight(p) => p < straight.len() && tally(straight, undirected(straight[p as int]), straight.len())
                != 0,
            CapSource::Arc(q) => q < arcs.len(),
        }
    &&& forall|x: KeyEdge|
        #[trigger] set.contains(x) <==> exists|t: int| 0 <= t < out.len() && #[trigger] source_key(straight, arcs, out[t]) == x
    &&& forall|t1: int, t2: int|
        0 <= t1 < t2 < out.len() ==> #[trigger] source_key(straight, arcs, out[t1]) != #[trigger] source_key(
            straight,
            arcs,
            out[t2],
        )
}

proof fn lemma_emit_push(
    straight: Seq<KeyEdge>,
    arcs: Seq<KeyEdge>,
    out: Seq<CapSource>,
    set: Set<KeyEdge>,
    c: CapSource,
)
    requires
        emission_ok(straight, arcs, out, set),
        !set.contains(source_key(straight, arcs, c)),
        match c {
            CapSource::Straight(p) => p < straight.len() && tally(straight, undirected(straight[p as int]), straight.len()) != 0,
            CapSource::Arc(q) => q < arcs.len(),
        },
    ensures
        emission_ok(straight, arcs, out.push(c), set.insert(source_key(straight, arcs, c))),
{
    let o2 = out.push(c);
    let s2 = set.insert(source_key(straight, arcs, c));
    assert forall|t: int| 0 <= t < o2.len() implies match #[trigger] o2[t] {
        CapSource::Straight(p) => p < straight.len() && tally(straight, undirected(straight[p as int]), straight.len()) != 0,
        CapSource::Arc(q) => q < arcs.len(),
    } by {
        if t < out.len() {
            assert(o2[t] == out[t]);
        }
    }
    assert forall|x: KeyEdge| #[trigger] s2.contains(x) <==> exists|t: int|
        0 <= t < o2.len() && #[trigger] source_key(straight, arcs, o2[t]) == x by {
        if set.contains(x) {
            let t = choose|t: int| 0 <= t < out.len() && #[trigger] source_key(straight, arcs, out[t]) == x;
            assert(o2[t] == out[t]);
        }
        if x == source_key(straight, arcs, c) {
            assert(o2[out.len() as int] == c);
        }
        if exists|t: int| 0 <= t < o2.len() && #[trigger] source_key(straight, arcs, o2[t]) == x {
            let t = choose|t: int| 0 <= t < o2.len() && #[trigger] source_key(straight, arcs, o2[t]) == x;
            if t < out.len() {
                assert(o2[t] == out[t]);
            }
        }
    }
    assert forall|t1: int, t2: int| 0 <= t1 < t2 < o2.len() implies #[trigger] source_key(straight, arcs, o2[t1])
        != #[trigger] source_key(straight, arcs, o2[t2]) by {
        assert(o2[t1] == out[t1]);
        if t2 < out.len() {
            assert(o2[t2] == out[t2]);
        } else {
            assert(set.contains(source_key(straight, arcs, out[t1])));
        }
    }
}

proof fn lemma_emit_straight_ok(straight: Seq<KeyEdge>, arcs: Seq<KeyEdge>, k: nat)
    requires
        k <= straight.len(),
        straight.len() <= usize::MAX,
    ensures
        emission_ok(straight, arcs, emit_straight(straight, k).0, emit_straight(straight, k).1),
    decreases k,
{
    if k > 0 {
        lemma_emit_straight_ok(straight, arcs, (k - 1) as nat);
        let prev = emit_straight(straight, (k - 1) as nat);
        let e = straight[k - 1];
        if !(tally(straight, undirected(e), straight.len()) == 0 || prev.1.contains(e)) {
            lemma_emit_push(straight, arcs, prev.0, prev.1, CapSource::Straight((k - 1) as usize));
        }
    }
}

proof fn lemma_emit_arcs_ok(straight: Seq<KeyEdge>, arcs: Seq<KeyEdge>, k: nat)
    requires
        k <= arcs.len(),
        straight.len() <= usize::MAX,
        arcs.len() <= usize::MAX,
    ensures
        emission_ok(straight, arcs, emit_arcs(straight, arcs, k).0, emit_arcs(straight, arcs, k).1),
    decreases k,
{
    if k == 0 {
        lemma_emit_straight_ok(straight, arcs, straight.len());
    } else {
        lemma_emit_arcs_ok(straight, arcs, (k - 1) as nat);
        let prev = emit_arcs(straight, arcs, (k - 1) as nat);
        let e = arcs[k - 1];
        if !prev.1.contains(e) {
            lemma_emit_push(straight, arcs, prev.0, prev.1, CapSource::Arc((k - 1) as usize));
        }
    }
}

/// The cap keeps at most one edge per directed key, and a straight edge it
/// keeps never belongs to an undirected key whose records cancel.
pub proof fn lemma_cap_edges_distinct(straight: Seq<KeyEdge>, arcs: Seq<KeyEdge>)
    requires
        straight.len() <= usize::MAX,
        arcs.len() <= usize::MAX,
    ensures
        forall|t1: int, t2: int|
            0 <= t1 < t2 < cap_edges_spec(straight, arcs).len() ==> #[trigger] source_key(
                straight,
                arcs,
                cap_edges_spec(straight, arcs)[t1],
            ) != #[trigger] source_key(straight, arcs, cap_edges_spec(straight, arcs)[t2]),
        forall|t: int|
            0 <= t < cap_edges_spec(straight, arcs).len() && (#[trigger] cap_edges_spec(straight, arcs)[t]) is Straight
                ==> tally(
                straight,
                undirected(straight[cap_edges_spec(straight, arcs)[t]->Straight_0 as int]),
                straight.len(),
            ) != 0,
{
    lemma_emit_arcs_ok(straight, arcs, arcs.len());
    let out = cap_edges_spec(straight, arcs);
    assert forall|t: int| 0 <= t < out.len() && (#[trigger] out[t]) is Straight implies tally(
        straight,
        undirected(straight[out[t]->Straight_0 as int]),
        straight.len(),
    ) != 0 by {
        assert(match out[t] {
            CapSource::Straight(p) => p < straight.len() && tally(straight, undirected(straight[p as int]), straight.len()) != 0,
            CapSource::Arc(q) => q < arcs.len(),
        });
    }
}

proof fn lemma_emit_straight_complete(straight: Seq<KeyEdge>, k: nat)
    requires
        k <= straight.len(),
    ensures
        forall|i: int|
            0 <= i < k && tally(straight, undirected(#[trigger] straight[i]), straight.len()) != 0 ==> emit_straight(
                straight,
                k,
            ).1.contains(straight[i]),
    decreases k,
{
    if k > 0 {
        lemma_emit_straight_complete(straight, (k - 1) as nat);
    }
}

proof fn lemma_emit_arcs_complete(straight: Seq<KeyEdge>, arcs: Seq<KeyEdge>, k: nat)
    requires
        k <= arcs.len(),
    ensures
        forall|i: int|
            0 <= i < straight.len() && tally(straight, undirected(#[trigger] straight[i]), straight.len()) != 0
                ==> emit_arcs(straight, arcs, k).1.contains(straight[i]),
        forall|q: int| 0 <= q < k ==> emit_arcs(straight, arcs, k).1.contains(#[trigger] arcs[q]),
    decreases k,
{
    if k == 0 {
        lemma_emit_straight_complete(straight, straight.len());
    } else {
        lemma_emit_arcs_complete(straight, arcs, (k - 1) as nat);
    }
}

/// Nothing that bounds the cap is lost: every section arc's directed key is
/// emitted (by the arc itself, or by an earlier edge with the same directed
/// key), and so is the directed key of every straight edge whose undirected
/// key does not cancel.
pub proof fn lemma_cap_edges_complete(straight: Seq<KeyEdge>, arcs: Seq<KeyEdge>)
    requires
        straight.len() <= usize::MAX,
        arcs.len() <= usize::MAX,
    ensures
        forall|q: int|
            0 <= q < arcs.len() ==> exists|t: int|
                0 <= t < cap_edges_spec(straight, arcs).len() && source_key(
                    straight,
                    arcs,
                    #[trigger] cap_edges_spec(straight, arcs)[t],
                ) == #[trigger] arcs[q],
        forall|i: int|
            0 <= i < straight.len() && tally(straight, undirected(#[trigger] straight[i]), straight.len()) != 0
                ==> exists|t: int|
                0 <= t < cap_edges_spec(straight, arcs).len() && source_key(
                    straight,
                    arcs,
                    #[trigger] cap_edges_spec(straight, arcs)[t],
                ) == straight[i],
{
    lemma_emit_arcs_ok(straight, arcs, arcs.len());
    lemma_emit_arcs_complete(straight, arcs, arcs.len());
    let set = emit_arcs(straight, arcs, arcs.len()).1;
    let out = cap_edges_spec(straight, arcs);
    assert forall|q: int| 0 <= q < arcs.len() implies exists|t: int|
        0 <= t < out.len() && source_key(straight, arcs, #[trigger] out[t]) == #[trigger] arcs[q] by {
        assert(set.contains(arcs[q]));
    }
    assert forall|i: int|
        0 <= i < straight.len() && tally(straight, undirected(#[trigger] straight[i]), straight.len()) != 0 implies exists|t: int|
        0 <= t < out.len() && source_key(straight, arcs, #[trigger] out[t]) == straight[i] by {
        assert(set.contains(straight[i]));
    }
}

proof fn lemma_tally_pair(straight: Seq<KeyEdge>, i: int, j: int, k: nat)
    requires
        0 <= i < straight.len(),
        0 <= j < straight.len(),
        i != j,
        k <= straight.len(),
        forall|p: int| 0 <= p < straight.len() && p != i && p != j ==> undirected(#[trigger] straight[p]) != undirected(
            straight[i],
        ),
        undirected(straight[j]) == undirected(straight[i]),
    ensures
        tally(straight, undirected(straight[i]), k) == (if i < k {
            direction(straight[i])
        } else {
            0
        }) + (if j < k {
            direction(straight[j])
        } else {
            0
        }),
    decreases k,
{
    if k > 0 {
        lemma_tally_pair(straight, i, j, (k - 1) as nat);
    }
}

/// A straight edge recorded once in each direction, by two adjacent kept
/// faces, and by no other straight edge, is internal: neither record reaches
/// the cap.
pub proof fn lemma_opposite_records_cancel(straight: Seq<KeyEdge>, arcs: Seq<KeyEdge>, i: int, j: int)
    requires
        straight.len() <= usize::MAX,
        arcs.len() <= usize::MAX,
        0 <= i < straight.len(),
        0 <= j < straight.len(),
        i != j,
        straight[i].0 != straight[i].1,
        straight[j] == (straight[i].1, straight[i].0),
        forall|p: int| 0 <= p < straight.len() && p != i && p != j ==> undirected(#[trigger] straight[p]) != undirected(
            straight[i],
        ),
    ensures
        forall|t: int|
            0 <= t < cap_edges_spec(straight, arcs).len() ==> #[trigger] cap_edges_spec(straight, arcs)[t]
                != CapSource::Straight(i as usize) && cap_edges_spec(straight, arcs)[t] != CapSource::Straight(j as usize),
{
    let a = straight[i].0;
    let b = straight[i].1;
    assert(key_le(a, b) != key_le(b, a) || a == b);
    assert(undirected(straight[j]) == undirected(straight[i]));
    lemma_tally_pair(straight, i, j, straight.len());
    lemma_cap_edges_distinct(straight, arcs);
    let out = cap_edges_spec(straight, arcs);
    assert forall|t: int| 0 <= t < out.len() implies #[trigger] out[t] != CapSource::Straight(i as usize) && out[t]
        != CapSource::Straight(j as usize) by {
        if out[t] == CapSource::Straight(i as usize) {
            assert(tally(straight, undirected(straight[i]), straight.len()) != 0);
        }
        if out[t] == CapSource::Straight(j as usize) {
            assert(tally(straight, undirected(straight[j]), straight.len()) != 0);
        }
    }
}


/// The successor of each cap edge: the first edge that starts where it ends
/// (`edges.len()` when none does).
pub open spec fn cap_successors(edges: Seq<KeyEdge>) -> Seq<usize> {
    Seq::new(edges.len(), |i: int| first_start(edges, edges[i].1) as usize)
}

/// The cap edges close up: every edge's end is some edge's start, and no two
/// edges share a start or an end.
pub open spec fn keys_close_up(edges: Seq<KeyEdge>) -> bool {
    &&& forall|i: int| 0 <= i < edges.len() ==> exists|j: int| 0 <= j < edges.len() && #[trigger] edges[j].0 == (#[trigger] edges[i]).1
    &&& forall|i: int, j: int|
        #![trigger edges[i], edges[j]]
        0 <= i < edges.len() && 0 <= j < edges.len() && i != j ==> edges[i].0 != edges[j].0 && edges[i].1 != edges[j].1
}

proof fn lemma_successors_permute(edges: Seq<KeyEdge>)
    requires
        keys_close_up(edges),
        edges.len() <= usize::MAX,
    ensures
        is_permutation(cap_successors(edges)),
        forall|i: int| 0 <= i < edges.len() ==> #[trigger] cap_successors(edges)[i] as int == first_start(edges, edges[i].1),
{
    let sc = cap_successors(edges);
    let n = edges.len() as int;
    assert forall|i: int| 0 <= i < n implies #[trigger] sc[i] < n && sc[i] as int == first_start(edges, edges[i].1) by {
        lemma_first_start(edges, edges[i].1);
        let j = choose|j: int| 0 <= j < edges.len() && #[trigger] edges[j].0 == (#[trigger] edges[i]).1;
        assert(first_start(edges, edges[i].1) <= j);
    }
    assert forall|a: int, b: int| 0 <= a < n && 0 <= b < n && #[trigger] sc[a] == #[trigger] sc[b] implies a == b by {
        lemma_first_start(edges, edges[a].1);
        lemma_first_start(edges, edges[b].1);
        let f = sc[a] as int;
        assert(edges[f].0 == edges[a].1);
        assert(edges[f].0 == edges[b].1);
        if a != b {
            assert(edges[a].1 != edges[b].1);
        }
    }
}

/// The used marks after marking the first `m` edges of the orbit of `s`.
pub open spec fn mark_orbit(used: Seq<bool>, succ: Seq<usize>, s: int, m: nat) -> Seq<bool>
    decreases m,
{
    if m == 0 {
        used
    } else {
        mark_orbit(used, succ, s, (m - 1) as nat).update(advance(succ, s, (m - 1) as nat), true)
    }
}

/// Used marks closed under successors.
pub open spec fn used_closed(used: Seq<bool>, succ: Seq<usize>) -> bool {
    forall|i: int| 0 <= i < used.len() && #[trigger] used[i] ==> used[succ[i] as int]
}

proof fn lemma_mark_orbit(used: Seq<bool>, succ: Seq<usize>, s: int, m: nat)
    requires
        is_permutation(succ),
        used.len() == succ.len(),
        0 <= s < succ.len(),
    ensures
        mark_orbit(used, succ, s, m).len() == used.len(),
        forall|i: int|
            0 <= i < used.len() ==> (#[trigger] mark_orbit(used, succ, s, m)[i] <==> (used[i] || exists|t: nat|
                t < m && #[trigger] advance(succ, s, t) == i)),
    decreases m,
{
    if m > 0 {
        lemma_mark_orbit(used, succ, s, (m - 1) as nat);
        lemma_advance_range(succ, s, (m - 1) as nat);
        let mk = mark_orbit(used, succ, s, m);
        let m0 = mark_orbit(used, succ, s, (m - 1) as nat);
        let x = advance(succ, s, (m - 1) as nat);
        assert forall|i: int| 0 <= i < used.len() implies (#[trigger] mk[i] <==> (used[i] || exists|t: nat|
            t < m && #[trigger] advance(succ, s, t) == i)) by {
            if i == x {
                assert(advance(succ, s, (m - 1) as nat) == i);
            } else {
                assert(mk[i] == m0[i]);
                if exists|t: nat| t < m && #[trigger] advance(succ, s, t) == i {
                    let t = choose|t: nat| t < m && #[trigger] advance(succ, s, t) == i;
                    assert(t < m - 1);
                }
            }
        }
    }
}

proof fn lemma_used_reach(used: Seq<bool>, succ: Seq<usize>, x: int, k: nat)
    requires
        is_permutation(succ),
        used.len() == succ.len(),
        used_closed(used, succ),
        0 <= x < used.len(),
        used[x],
    ensures
        used[advance(succ, x, k)],
    decreases k,
{
    if k > 0 {
        lemma_used_reach(used, succ, x, (k - 1) as nat);
        lemma_advance_range(succ, x, (k - 1) as nat);
    }
}

proof fn lemma_orbit_unused(used: Seq<bool>, succ: Seq<usize>, s: int, r: nat, t: nat)
    requires
        is_permutation(succ),
        used.len() == succ.len(),
        used_closed(used, succ),
        0 <= s < used.len(),
        !used[s],
        advance(succ, s, r) == s,
        t <= r,
    ensures
        !used[advance(succ, s, t)],
{
    let x = advance(succ, s, t);
    lemma_advance_range(succ, s, t);
    if used[x] {
        lemma_used_reach(used, succ, x, (r - t) as nat);
        lemma_advance_add(succ, s, t, (r - t) as nat);
    }
}

proof fn lemma_walk_caps(edges: Seq<KeyEdge>, used: Seq<bool>, s: int, r: nat, m: nat)
    requires
        edges.len() <= usize::MAX,
        used.len() == edges.len(),
        is_permutation(cap_successors(edges)),
        forall|i: int| 0 <= i < edges.len() ==> #[trigger] cap_successors(edges)[i] as int == first_start(edges, edges[i].1),
        used_closed(used, cap_successors(edges)),
        0 <= s < edges.len(),
        !used[s],
        1 <= r <= edges.len(),
        advance(cap_successors(edges), s, r) == s,
        forall|a: nat, b: nat| a < b < r ==> advance(cap_successors(edges), s, a) != advance(cap_successors(edges), s, b),
        m < r,
    ensures
        chain_walk(edges, mark_orbit(used, cap_successors(edges), s, m), advance(cap_successors(edges), s, m)) == (
        Seq::new((r - m) as nat, |t: int| advance(cap_successors(edges), s, (m + t) as nat) as usize),
        mark_orbit(used, cap_successors(edges), s, r),
        ),
    decreases r - m,
{
    reveal(chain_walk);
    let sc = cap_successors(edges);
    let um = mark_orbit(used, sc, s, m);
    let x = advance(sc, s, m);
    lemma_advance_range(sc, s, m);
    lemma_mark_orbit(used, sc, s, m);
    lemma_mark_orbit(used, sc, s, m + 1);
    lemma_orbit_unused(used, sc, s, r, m);
    assert(!um[x]) by {
        if exists|t: nat| t < m && #[trigger] advance(sc, s, t) == x {
            let t = choose|t: nat| t < m && #[trigger] advance(sc, s, t) == x;
            assert(advance(sc, s, t) != advance(sc, s, m));
        }
    }
    let u2 = um.update(x, true);
    assert(u2 == mark_orbit(used, sc, s, m + 1));
    let nx = first_start(edges, edges[x].1);
    assert(nx == advance(sc, s, m + 1));
    lemma_advance_range(sc, s, m + 1);
    let target = Seq::new((r - m) as nat, |t: int| advance(sc, s, (m + t) as nat) as usize);
    if m + 1 < r {
        lemma_orbit_unused(used, sc, s, r, m + 1);
        assert(!u2[nx]) by {
            if exists|t: nat| t < m + 1 && #[trigger] advance(sc, s, t) == nx {
                let t = choose|t: nat| t < m + 1 && #[trigger] advance(sc, s, t) == nx;
                assert(advance(sc, s, t) != advance(sc, s, m + 1));
            }
        }
        lemma_walk_caps(edges, used, s, r, m + 1);
        let rest = chain_walk(edges, u2, nx);
        assert(chain_walk(edges, um, x) == (seq![x as usize] + rest.0, rest.1));
        assert(seq![x as usize] + rest.0 =~= target);
    } else {
        assert(nx == s);
        assert(advance(sc, s, 0) == s);
        assert(u2[nx]);
        assert(chain_walk(edges, um, x) == (seq![x as usize], u2));
        assert(seq![x as usize] =~= target);
    }
}

/// The marked edges are those on cycles and the first `k` edges that are
/// their own successor.
pub open spec fn marks_iff(sc: Seq<usize>, u: Seq<bool>, cs: Seq<Seq<usize>>, k: int) -> bool {
    forall|x: int| 0 <= x < sc.len() ==> (#[trigger] u[x] <==> (loop_holds(cs, x as usize) || (sc[x] == x && x < k)))
}

/// No two cycles share an edge.
pub open spec fn cycles_disjoint(cs: Seq<Seq<usize>>) -> bool {
    forall|c1: int, c2: int, i1: int, i2: int|
        0 <= c1 < cs.len() && 0 <= c2 < cs.len() && 0 <= i1 < cs[c1].len() && 0 <= i2 < cs[c2].len()
            && #[trigger] cs[c1][i1] == #[trigger] cs[c2][i2] ==> c1 == c2
}

/// Each cycle read back to front is a closed loop of successors, and holds
/// only edges.
pub open spec fn cycles_closed(sc: Seq<usize>, cs: Seq<Seq<usize>>) -> bool {
    &&& forall|c: int| 0 <= c < cs.len() ==> is_closed_loop(sc, backwards(#[trigger] cs[c]))
    &&& forall|c: int, i: int| 0 <= c < cs.len() && 0 <= i < cs[c].len() ==> #[trigger] cs[c][i] < sc.len()
}

/// What chaining keeps true of marks `u` and cycles `cs` after `k` starts,
/// for successors `sc`: the marks are closed under successors and cover every
/// start tried, each cycle read back to front is a closed loop of successors,
/// the marked edges are those on cycles and the tried edges that are their own
/// successor, and no two cycles share an edge.
pub open spec fn chain_state_ok(sc: Seq<usize>, u: Seq<bool>, cs: Seq<Seq<usize>>, k: int) -> bool {
    &&& u.len() == sc.len()
    &&& used_closed(u, sc)
    &&& forall|h: int| 0 <= h < k ==> #[trigger] u[h]
    &&& cycles_closed(sc, cs)
    &&& marks_iff(sc, u, cs, k)
    &&& cycles_disjoint(cs)
}

/// The facts about a fresh start `st` whose orbit of length `r` is `orbit`,
/// with marks `u` before and `u2` after the walk.
pub open spec fn fresh_walk(sc: Seq<usize>, u: Seq<bool>, st: int, r: nat, orbit: Seq<usize>, u2: Seq<bool>) -> bool {
    &&& is_permutation(sc)
    &&& sc.len() <= usize::MAX
    &&& u.len() == sc.len()
    &&& u2.len() == sc.len()
    &&& 0 <= st < sc.len()
    &&& 1 <= r <= sc.len()
    &&& orbit.len() == r
    &&& orbit[0] == st
    &&& forall|t: int| 0 <= t < r ==> #[trigger] orbit[t] < sc.len() && !u[orbit[t] as int]
    &&& forall|t: int, t2: int| #![trigger orbit[t], orbit[t2]] 0 <= t && t2 == t + 1 && t2 < r ==> orbit[t2] == sc[orbit[t] as int]
    &&& sc[orbit[r - 1] as int] == st
    &&& orbit.no_duplicates()
    &&& forall|x: int| 0 <= x < sc.len() ==> (#[trigger] u2[x] <==> (u[x] || orbit.contains(x as usize)))
}

/// The cycles after a fresh start: the reversed orbit joins them when it has
/// two edges or more.
pub open spec fn fresh_cycles(cs: Seq<Seq<usize>>, r: nat, orbit: Seq<usize>) -> Seq<Seq<usize>> {
    if r >= 2 {
        cs.push(backwards(orbit))
    } else {
        cs
    }
}

proof fn lemma_fresh_marks(sc: Seq<usize>, u: Seq<bool>, st: int, r: nat, orbit: Seq<usize>, u2: Seq<bool>)
    requires
        used_closed(u, sc),
        forall|h: int| 0 <= h < st ==> #[trigger] u[h],
        fresh_walk(sc, u, st, r, orbit, u2),
    ensures
        used_closed(u2, sc),
        forall|h: int| 0 <= h < st + 1 ==> #[trigger] u2[h],
{
    assert forall|i: int| 0 <= i < u2.len() && #[trigger] u2[i] implies u2[sc[i] as int] by {
        if !u[i] {
            let t = orbit.index_of(i as usize);
            if t + 1 < r {
                assert(orbit[t + 1] == sc[orbit[t] as int]);
                assert(orbit.contains(orbit[t + 1]));
            } else {
                assert(orbit.contains(orbit[0]));
            }
        }
    }
    assert forall|h: int| 0 <= h < st + 1 implies #[trigger] u2[h] by {
        if h == st {
            assert(orbit.contains(orbit[0]));
        }
    }
}

proof fn lemma_fresh_loops(sc: Seq<usize>, u: Seq<bool>, cs: Seq<Seq<usize>>, st: int, r: nat, orbit: Seq<usize>, u2: Seq<bool>)
    requires
        cycles_closed(sc, cs),
        fresh_walk(sc, u, st, r, orbit, u2),
    ensures
        cycles_closed(sc, fresh_cycles(cs, r, orbit)),
{
    let ncs = fresh_cycles(cs, r, orbit);
    let bo = backwards(orbit);
    assert(backwards(bo) =~= orbit);
    assert forall|c: int| 0 <= c < ncs.len() implies is_closed_loop(sc, backwards(#[trigger] ncs[c])) by {
        if c < cs.len() {
            assert(ncs[c] == cs[c]);
        } else {
            assert(ncs[c] == bo);
        }
    }
    assert forall|c: int, i: int| 0 <= c < ncs.len() && 0 <= i < ncs[c].len() implies #[trigger] ncs[c][i] < sc.len() by {
        if c < cs.len() {
            assert(ncs[c][i] == cs[c][i]);
        } else {
            assert(bo[i] == orbit[r - 1 - i]);
        }
    }
}

proof fn lemma_fresh_iff(sc: Seq<usize>, u: Seq<bool>, cs: Seq<Seq<usize>>, st: int, r: nat, orbit: Seq<usize>, u2: Seq<bool>)
    requires
        marks_iff(sc, u, cs, st),
        fresh_walk(sc, u, st, r, orbit, u2),
    ensures
        marks_iff(sc, u2, fresh_cycles(cs, r, orbit), st + 1),
{
    let ncs = fresh_cycles(cs, r, orbit);
    let bo = backwards(orbit);
    assert forall|x: int| 0 <= x < sc.len() implies (#[trigger] u2[x] <==> (loop_holds(ncs, x as usize) || (sc[x] == x && x
        < st + 1))) by {
        if u[x] {
            if loop_holds(cs, x as usize) {
                let (c, i) = choose|c: int, i: int| 0 <= c < cs.len() && 0 <= i < cs[c].len() && #[trigger] cs[c][i] == x as usize;
                assert(ncs[c][i] == x as usize);
            }
        } else if u2[x] {
            let t = orbit.index_of(x as usize);
            if r >= 2 {
                assert(bo[r - 1 - t] == orbit[t]);
                assert(ncs[cs.len() as int][r - 1 - t] == x as usize);
            } else {
                assert(x == st);
            }
        }
        if loop_holds(ncs, x as usize) {
            let (c, i) = choose|c: int, i: int| 0 <= c < ncs.len() && 0 <= i < ncs[c].len() && #[trigger] ncs[c][i] == x as usize;
            if c < cs.len() {
                assert(cs[c][i] == x as usize);
                assert(loop_holds(cs, x as usize));
            } else {
                assert(bo[i] == orbit[r - 1 - i]);
                assert(orbit.contains(x as usize));
            }
        }
        if sc[x] == x && x < st + 1 && !u[x] {
            assert(x == st);
            assert(orbit.contains(orbit[0]));
        }
    }
}

proof fn lemma_fresh_disjoint(
    sc: Seq<usize>,
    u: Seq<bool>,
    cs: Seq<Seq<usize>>,
    st: int,
    r: nat,
    orbit: Seq<usize>,
    u2: Seq<bool>,
)
    requires
        u.len() == sc.len(),
        cycles_disjoint(cs),
        cycles_closed(sc, cs),
        marks_iff(sc, u, cs, st),
        fresh_walk(sc, u, st, r, orbit, u2),
    ensures
        cycles_disjoint(fresh_cycles(cs, r, orbit)),
{
    let ncs = fresh_cycles(cs, r, orbit);
    let bo = backwards(orbit);
    assert forall|c1: int, c2: int, i1: int, i2: int|
        0 <= c1 < ncs.len() && 0 <= c2 < ncs.len() && 0 <= i1 < ncs[c1].len() && 0 <= i2 < ncs[c2].len()
            && #[trigger] ncs[c1][i1] == #[trigger] ncs[c2][i2] implies c1 == c2 by {
        if c1 < cs.len() && c2 < cs.len() {
            assert(cs[c1][i1] == cs[c2][i2]);
        } else if c1 != c2 {
            let (c, i, j) = if c1 < cs.len() {
                (c1, i1, i2)
            } else {
                (c2, i2, i1)
            };
            let x = cs[c][i];
            assert(loop_holds(cs, x));
            assert(x < sc.len());
            assert(u[x as int]);
            assert(bo[j] == orbit[r - 1 - j]);
            assert(ncs[cs.len() as int][j] == x);
        }
    }
}

/// The first `r` edges of the orbit of `s`.
pub open spec fn orbit_of(sc: Seq<usize>, s: int, r: nat) -> Seq<usize> {
    Seq::new(r, |t: int| advance(sc, s, t as nat) as usize)
}

proof fn lemma_fresh_walk(sc: Seq<usize>, u: Seq<bool>, st: int, r: nat)
    requires
        is_permutation(sc),
        sc.len() <= usize::MAX,
        u.len() == sc.len(),
        used_closed(u, sc),
        0 <= st < sc.len(),
        !u[st],
        1 <= r <= sc.len(),
        advance(sc, st, r) == st,
        forall|a: nat, b: nat| a < b < r ==> advance(sc, st, a) != advance(sc, st, b),
    ensures
        fresh_walk(sc, u, st, r, orbit_of(sc, st, r), mark_orbit(u, sc, st, r)),
{
    let n = sc.len() as int;
    let orbit = orbit_of(sc, st, r);
    let u2 = mark_orbit(u, sc, st, r);
    lemma_mark_orbit(u, sc, st, r);
    assert(advance(sc, st, 0) == st);
    assert forall|t: int| 0 <= t < r implies #[trigger] orbit[t] < n && !u[orbit[t] as int] by {
        lemma_advance_range(sc, st, t as nat);
        lemma_orbit_unused(u, sc, st, r, t as nat);
    }
    assert forall|t: int, t2: int| #![trigger orbit[t], orbit[t2]] 0 <= t && t2 == t + 1 && t2 < r implies orbit[t2] == sc[orbit[t] as int] by {
        lemma_advance_range(sc, st, t as nat);
        assert(advance(sc, st, t2 as nat) == sc[advance(sc, st, t as nat)] as int);
    }
    lemma_advance_range(sc, st, (r - 1) as nat);
    assert(advance(sc, st, r) == sc[advance(sc, st, (r - 1) as nat)] as int);
    assert(orbit.no_duplicates()) by {
        assert forall|a: int, b: int| 0 <= a < orbit.len() && 0 <= b < orbit.len() && a != b implies orbit[a] != orbit[b] by {
            lemma_advance_range(sc, st, a as nat);
            lemma_advance_range(sc, st, b as nat);
            if a < b {
                assert(advance(sc, st, a as nat) != advance(sc, st, b as nat));
            } else {
                assert(advance(sc, st, b as nat) != advance(sc, st, a as nat));
            }
        }
    }
    assert forall|x: int| 0 <= x < n implies (#[trigger] u2[x] <==> (u[x] || orbit.contains(x as usize))) by {
        if orbit.contains(x as usize) {
            let t = orbit.index_of(x as usize);
            lemma_advance_range(sc, st, t as nat);
            assert(advance(sc, st, t as nat) == x);
        }
        if exists|t: nat| t < r && #[trigger] advance(sc, st, t) == x {
            let t = choose|t: nat| t < r && #[trigger] advance(sc, st, t) == x;
            assert(orbit[t as int] == x as usize);
        }
    }
}

proof fn lemma_chains_fresh_start(edges: Seq<KeyEdge>, k: nat)
    requires
        keys_close_up(edges),
        edges.len() <= usize::MAX,
        1 <= k <= edges.len(),
        chain_state_ok(cap_successors(edges), chains_upto(edges, (k - 1) as nat).0, chains_upto(edges, (k - 1) as nat).1, k - 1),
        !chains_upto(edges, (k - 1) as nat).0[k - 1],
    ensures
        chain_state_ok(cap_successors(edges), chains_upto(edges, k).0, chains_upto(edges, k).1, k as int),
{
    let sc = cap_successors(edges);
    lemma_successors_permute(edges);
    let prev = chains_upto(edges, (k - 1) as nat);
    let u = prev.0;
    let cs = prev.1;
    let st = k - 1;
    let r = lemma_first_return(sc, st);
    lemma_walk_caps(edges, u, st, r, 0);
    assert(mark_orbit(u, sc, st, 0) == u);
    assert(advance(sc, st, 0) == st);
    let orbit = orbit_of(sc, st, r);
    assert(Seq::new((r - 0) as nat, |t: int| advance(sc, st, (0 + t) as nat) as usize) =~= orbit);
    let u2 = mark_orbit(u, sc, st, r);
    assert(chain_walk(edges, u, st) == (orbit, u2));
    assert(chains_upto(edges, k) == (u2, fresh_cycles(cs, r, orbit)));
    lemma_fresh_walk(sc, u, st, r);
    lemma_fresh_marks(sc, u, st, r, orbit, u2);
    lemma_fresh_loops(sc, u, cs, st, r, orbit, u2);
    lemma_fresh_iff(sc, u, cs, st, r, orbit, u2);
    lemma_fresh_disjoint(sc, u, cs, st, r, orbit, u2);
}

proof fn lemma_chains_ok(edges: Seq<KeyEdge>, k: nat)
    requires
        keys_close_up(edges),
        edges.len() <= usize::MAX,
        k <= edges.len(),
    ensures
        chain_state_ok(cap_successors(edges), chains_upto(edges, k).0, chains_upto(edges, k).1, k as int),
    decreases k,
{
    let sc = cap_successors(edges);
    if k == 0 {
        let u = chains_upto(edges, 0).0;
        assert(u.len() == sc.len());
        assert(marks_iff(sc, u, chains_upto(edges, 0).1, 0));
    } else {
        lemma_chains_ok(edges, (k - 1) as nat);
        let prev = chains_upto(edges, (k - 1) as nat);
        if !prev.0[k - 1] {
            lemma_chains_fresh_start(edges, k);
        } else {
            assert(chains_upto(edges, k) == prev);
            assert forall|x: int| 0 <= x < sc.len() implies (#[trigger] prev.0[x] <==> (loop_holds(prev.1, x as usize) || (sc[x]
                == x && x < k))) by {
                if x == k - 1 && sc[x] == x {
                    assert(prev.0[x]);
                }
            }
        }
    }
}

/// When the cap edges close up (every end starts an edge, no start or end
/// repeats), chaining closes every cycle: each cycle, read back to front,
/// follows successors from its first edge back to it without repeating one;
/// every edge that is not its own successor lies on a cycle; and no edge lies
/// on two cycles.
pub proof fn lemma_cap_cycles_close(edges: Seq<KeyEdge>)
    requires
        keys_close_up(edges),
        edges.len() <= usize::MAX,
    ensures
        forall|c: int|
            0 <= c < chains_upto(edges, edges.len()).1.len() ==> is_closed_loop(
                cap_successors(edges),
                backwards(#[trigger] chains_upto(edges, edges.len()).1[c]),
            ),
        forall|h: int|
            0 <= h < edges.len() && cap_successors(edges)[h] != h ==> #[trigger] loop_holds(
                chains_upto(edges, edges.len()).1,
                h as usize,
            ),
        forall|c1: int, c2: int, i1: int, i2: int|
            0 <= c1 < chains_upto(edges, edges.len()).1.len() && 0 <= c2 < chains_upto(edges, edges.len()).1.len() && 0
                <= i1 < chains_upto(edges, edges.len()).1[c1].len() && 0 <= i2 < chains_upto(edges, edges.len()).1[c2].len()
                && #[trigger] chains_upto(edges, edges.len()).1[c1][i1] == #[trigger] chains_upto(edges, edges.len()).1[c2][i2]
                ==> c1 == c2,
{
    lemma_chains_ok(edges, edges.len());
    let u = chains_upto(edges, edges.len()).0;
    assert(cap_successors(edges).len() == edges.len());
    assert forall|h: int| 0 <= h < edges.len() && cap_successors(edges)[h] != h implies #[trigger] loop_holds(
        chains_upto(edges, edges.len()).1,
        h as usize,
    ) by {
        assert(u[h]);
    }
}

} // verus!
