//! The half-edge structure of the arrangement: twin half-edges, the ring of
//! half-edges leaving each vertex, the face successor of each half-edge, and
//! the face loops traced by following successors.
//!
//! Each vertex's ring is ordered counter-clockwise by the direction of its
//! half-edges (an angular sort done on coordinates outside this module). The
//! face successor of a half-edge arriving at a vertex is the ring's entry just
//! before the arriving edge's twin: the next edge clockwise, which keeps
//! bounded faces counter-clockwise.

use vstd::prelude::*;

use crate::boolean::poly2d::arrangement::ArrEdge;
use crate::boolean::poly2d::snap::VertexId;

verus! {

/// A directed half-edge `origin → dest` with the position of its twin.
#[derive(Debug, Clone, Copy, PartialEq, Eq, Structural)]
pub struct HalfEdge {
    /// The vertex the half-edge leaves.
    pub origin: VertexId,
    /// The vertex the half-edge reaches.
    pub dest: VertexId,
    /// The position of the opposite half-edge.
    pub twin: usize,
}

/// The two half-edges of every arrangement edge: edge `i` gives `a → b` at
/// `2i` and `b → a` at `2i + 1`, each the other's twin.
pub fn half_edges(edges: &Vec<ArrEdge>) -> (h: Vec<HalfEdge>)
    requires
        edges.len() * 2 <= usize::MAX,
    ensures
        h.len() == 2 * edges.len(),
        forall|i: int|
            0 <= i < edges.len() ==> #[trigger] h@[2 * i] == (HalfEdge {
                origin: edges@[i].a,
                dest: edges@[i].b,
                twin: (2 * i + 1) as usize,
            }) && h@[2 * i + 1] == (HalfEdge { origin: edges@[i].b, dest: edges@[i].a, twin: (2 * i) as usize }),
        twins_ok(h@),
{
    let mut h: Vec<HalfEdge> = Vec::new();
    let mut i: usize = 0;
    while i < edges.len()
        invariant
            edges.len() * 2 <= usize::MAX,
            i <= edges.len(),
            h.len() == 2 * i,
            forall|j: int|
                0 <= j < i ==> #[trigger] h@[2 * j] == (HalfEdge {
                    origin: edges@[j].a,
                    dest: edges@[j].b,
                    twin: (2 * j + 1) as usize,
                }) && h@[2 * j + 1] == (HalfEdge { origin: edges@[j].b, dest: edges@[j].a, twin: (2 * j) as usize }),
        decreases edges.len() - i,
    {
        let e = edges[i];
        let h0 = 2 * i;
        h.push(HalfEdge { origin: e.a, dest: e.b, twin: h0 + 1 });
        h.push(HalfEdge { origin: e.b, dest: e.a, twin: h0 });
        proof {
            assert forall|j: int| 0 <= j < i + 1 implies #[trigger] h@[2 * j] == (HalfEdge {
                origin: edges@[j].a,
                dest: edges@[j].b,
                twin: (2 * j + 1) as usize,
            }) && h@[2 * j + 1] == (HalfEdge { origin: edges@[j].b, dest: edges@[j].a, twin: (2 * j) as usize }) by {
                if j < i {
                    assert(h@[2 * j] == h@.take(2 * i)[2 * j]);
                }
            }
        }
        i = i + 1;
    }
    proof {
        assert forall|k: int| 0 <= k < h.len() implies (#[trigger] h@[k]).twin < h.len() && h@[h@[k].twin as int].twin == k
            && h@[h@[k].twin as int].origin == h@[k].dest && h@[h@[k].twin as int].dest == h@[k].origin by {
            let e = k / 2;
            assert(0 <= e < edges.len());
            if k % 2 == 0 {
                assert(k == 2 * e);
                assert(h@[2 * e] == h@[k]);
            } else {
                assert(k == 2 * e + 1);
                assert(h@[2 * e] == h@[k - 1]);
            }
        }
    }
    h
}

/// The half-edges leaving each vertex `0..nv`, in ascending position order.
pub fn outgoing_rings(halfs: &Vec<HalfEdge>, nv: usize) -> (rings: Vec<Vec<usize>>)
    requires
        forall|h: int| 0 <= h < halfs.len() ==> (#[trigger] halfs@[h]).origin.0 < nv,
    ensures
        rings.len() == nv,
        forall|v: int, a: int, b: int|
            0 <= v < nv && 0 <= a < b < rings@[v].len() ==> #[trigger] rings@[v]@[a] < #[trigger] rings@[v]@[b],
        forall|v: int, t: int| 0 <= v < nv && 0 <= t < rings@[v].len() ==> #[trigger] rings@[v]@[t] < halfs.len(),
        forall|v: int, h: int|
            0 <= v < nv && 0 <= h < halfs.len() ==> (#[trigger] rings@[v]@.contains(h as usize) <==> halfs@[h].origin.0
                == v),
        rings_ok(halfs@, rings@),
{
    let mut rings: Vec<Vec<usize>> = Vec::new();
    let mut v: usize = 0;
    while v < nv
        invariant
            v <= nv,
            rings.len() == v,
            forall|h: int| 0 <= h < halfs.len() ==> (#[trigger] halfs@[h]).origin.0 < nv,
            forall|w: int, a: int, b: int|
                0 <= w < v && 0 <= a < b < rings@[w].len() ==> #[trigger] rings@[w]@[a] < #[trigger] rings@[w]@[b],
            forall|w: int, t: int| 0 <= w < v && 0 <= t < rings@[w].len() ==> #[trigger] rings@[w]@[t] < halfs.len(),
            forall|w: int, h: int|
                0 <= w < v && 0 <= h < halfs.len() ==> (#[trigger] rings@[w]@.contains(h as usize)
                    <==> halfs@[h].origin.0 == w),
        decreases nv - v,
    {
        let mut ring: Vec<usize> = Vec::new();
        let mut h: usize = 0;
        while h < halfs.len()
            invariant
                v < nv,
                h <= halfs.len(),
                forall|a: int, b: int| 0 <= a < b < ring.len() ==> #[trigger] ring@[a] < #[trigger] ring@[b],
                forall|t: int| 0 <= t < ring.len() ==> #[trigger] ring@[t] < h,
                forall|x: int|
                    0 <= x < halfs.len() ==> (#[trigger] ring@.contains(x as usize) <==> (x < h && halfs@[x].origin.0
                        == v)),
            decreases halfs.len() - h,
        {
            let ghost r0 = ring@;
            if halfs[h].origin.0 == v {
                ring.push(h);
            }
            proof {
                assert forall|x: int|
                    0 <= x < halfs.len() implies (#[trigger] ring@.contains(x as usize) <==> (x < h + 1
                        && halfs@[x].origin.0 == v)) by {
                    if ring@.len() > r0.len() {
                        assert(ring@ == r0.push(h));
                        if x == h as int {
                            assert(ring@[r0.len() as int] == h);
                        } else {
                            if r0.contains(x as usize) {
                                let t = r0.index_of(x as usize);
                                assert(ring@[t] == x as usize);
                            }
                            if ring@.contains(x as usize) {
                                let t = ring@.index_of(x as usize);
                                assert(t < r0.len());
                                assert(r0[t] == x as usize);
                            }
                        }
                    } else {
                        assert(ring@ == r0);
                        if x == h as int && r0.contains(x as usize) {
                            let t = r0.index_of(x as usize);
                            assert(r0[t] < h);
                        }
                    }
                }
            }
            h = h + 1;
        }
        let ghost g0 = rings@;
        rings.push(ring);
        proof {
            assert forall|w: int| 0 <= w < v implies #[trigger] rings@[w] == g0[w] by {}
        }
        v = v + 1;
    }
    proof {
        assert forall|w: int, t: int| 0 <= w < rings.len() && 0 <= t < rings@[w]@.len() implies #[trigger] rings@[w]@[t]
            < halfs.len() && halfs@[rings@[w]@[t] as int].origin.0 == w by {
            let x = rings@[w]@[t] as int;
            assert(x < halfs.len());
            assert(rings@[w]@.contains(x as usize));
        }
        assert forall|w: int| 0 <= w < rings.len() implies (#[trigger] rings@[w]@).no_duplicates() by {
            assert forall|a: int, b: int| 0 <= a < rings@[w]@.len() && 0 <= b < rings@[w]@.len() && a != b implies rings@[w]@[a]
                != rings@[w]@[b] by {
                if a < b {
                    assert(rings@[w]@[a] < rings@[w]@[b]);
                } else {
                    assert(rings@[w]@[b] < rings@[w]@[a]);
                }
            }
        }
    }
    rings
}

/// An internal invariant of the half-edge structure that linking found
/// broken.
#[derive(Debug, Clone, Copy, PartialEq, Eq, Structural)]
pub enum LinkError {
    /// A half-edge reaches a vertex that has no ring.
    VertexMissing,
    /// A half-edge's twin is missing from the ring of the vertex it leaves.
    TwinMissing,
}

/// The position of the first `x` in `s` (`s.len()` when absent).
pub open spec fn first_pos(s: Seq<usize>, x: usize) -> int
    decreases s.len(),
{
    if s.len() == 0 {
        0
    } else if s[0] == x {
        0
    } else {
        1 + first_pos(s.drop_first(), x)
    }
}

proof fn lemma_first_pos(s: Seq<usize>, x: usize)
    ensures
        0 <= first_pos(s, x) <= s.len(),
        first_pos(s, x) < s.len() <==> s.contains(x),
        first_pos(s, x) < s.len() ==> s[first_pos(s, x)] == x,
        forall|q: int| 0 <= q < first_pos(s, x) ==> s[q] != x,
    decreases s.len(),
{
    if s.len() > 0 && s[0] != x {
        lemma_first_pos(s.drop_first(), x);
        assert forall|q: int| 0 <= q < first_pos(s, x) implies s[q] != x by {
            if q > 0 {
                assert(s[q] == s.drop_first()[q - 1]);
            }
        }
        if s.contains(x) {
            let i = s.index_of(x);
            assert(s.drop_first()[i - 1] == x);
        }
        if s.drop_first().contains(x) {
            let i = s.drop_first().index_of(x);
            assert(s[i + 1] == x);
        }
    }
}

/// The face successor the rings give half-edge `h`: the entry of the ring at
/// `h`'s destination that comes just before `h`'s twin, cyclically.
pub open spec fn next_for(halfs: Seq<HalfEdge>, rings: Seq<Vec<usize>>, h: int) -> Result<usize, LinkError> {
    let v = halfs[h].dest.0 as int;
    if v >= rings.len() {
        Err(LinkError::VertexMissing)
    } else if !rings[v]@.contains(halfs[h].twin) {
        Err(LinkError::TwinMissing)
    } else {
        let ring = rings[v]@;
        let pos = first_pos(ring, halfs[h].twin);
        Ok(if pos == 0 { ring[ring.len() - 1] } else { ring[pos - 1] })
    }
}

/// Link the face successor of every half-edge from the vertex rings; the
/// first half-edge whose destination has no ring, or whose twin is missing
/// from it, fails the linking.
pub fn link_next(halfs: &Vec<HalfEdge>, rings: &Vec<Vec<usize>>) -> (r: Result<Vec<usize>, LinkError>)
    ensures
        match r {
            Ok(nx) => nx.len() == halfs.len() && forall|h: int|
                0 <= h < halfs.len() ==> #[trigger] next_for(halfs@, rings@, h) == Ok::<usize, LinkError>(nx@[h]),
            Err(e) => exists|h: int|
                0 <= h < halfs.len() && #[trigger] next_for(halfs@, rings@, h) == Err::<usize, LinkError>(e) && forall|g: int|
                    0 <= g < h ==> #[trigger] next_for(halfs@, rings@, g) is Ok,
        },
{
    let mut nx: Vec<usize> = Vec::new();
    let mut h: usize = 0;
    while h < halfs.len()
        invariant
            h <= halfs.len(),
            nx.len() == h,
            forall|g: int| 0 <= g < h ==> #[trigger] next_for(halfs@, rings@, g) == Ok::<usize, LinkError>(nx@[g]),
        decreases halfs.len() - h,
    {
        let v = halfs[h].dest.0;
        let twin = halfs[h].twin;
        if v >= rings.len() {
            proof {
                assert(next_for(halfs@, rings@, h as int) == Err::<usize, LinkError>(LinkError::VertexMissing));
                assert(forall|g: int| 0 <= g < h ==> #[trigger] next_for(halfs@, rings@, g) is Ok);
            }
            return Err(LinkError::VertexMissing);
        }
        let ring = &rings[v];
        let mut pos: usize = 0;
        while pos < ring.len() && ring[pos] != twin
            invariant
                pos <= ring.len(),
                forall|q: int| 0 <= q < pos ==> ring@[q] != twin,
            decreases ring.len() - pos,
        {
            pos = pos + 1;
        }
        proof {
            lemma_first_pos(ring@, twin);
            if pos < ring.len() {
                assert(first_pos(ring@, twin) == pos) by {
                    let f = first_pos(ring@, twin);
                    if f < pos {
                        assert(ring@[f] == twin);
                    } else if f > pos {
                        assert(ring@[pos as int] != twin);
                    }
                }
            } else {
                if ring@.contains(twin) {
                    let i = ring@.index_of(twin);
                    assert(ring@[i] == twin);
                }
            }
        }
        if pos == ring.len() {
            proof {
                assert(next_for(halfs@, rings@, h as int) == Err::<usize, LinkError>(LinkError::TwinMissing));
                assert(forall|g: int| 0 <= g < h ==> #[trigger] next_for(halfs@, rings@, g) is Ok);
            }
            return Err(LinkError::TwinMissing);
        }
        let k = ring.len();
        let o = if pos == 0 {
            ring[k - 1]
        } else {
            ring[pos - 1]
        };
        nx.push(o);
        h = h + 1;
    }
    Ok(nx)
}

/// Twins pair up: each half-edge's twin is in range, runs the other way, and
/// has it as its own twin.
pub open spec fn twins_ok(halfs: Seq<HalfEdge>) -> bool {
    forall|h: int|
        0 <= h < halfs.len() ==> (#[trigger] halfs[h]).twin < halfs.len() && halfs[halfs[h].twin as int].twin == h
            && halfs[halfs[h].twin as int].origin == halfs[h].dest && halfs[halfs[h].twin as int].dest == halfs[h].origin
}

/// Each vertex's ring lists the half-edges leaving it, each once.
pub open spec fn rings_ok(halfs: Seq<HalfEdge>, rings: Seq<Vec<usize>>) -> bool {
    &&& forall|h: int| 0 <= h < halfs.len() ==> (#[trigger] halfs[h]).origin.0 < rings.len()
    &&& forall|v: int, t: int|
        0 <= v < rings.len() && 0 <= t < rings[v]@.len() ==> #[trigger] rings[v]@[t] < halfs.len() && halfs[rings[v]@[t] as int].origin.0 == v
    &&& forall|v: int, h: int|
        0 <= v < rings.len() && 0 <= h < halfs.len() && halfs[h].origin.0 == v ==> #[trigger] rings[v]@.contains(h as usize)
    &&& forall|v: int| 0 <= v < rings.len() ==> (#[trigger] rings[v]@).no_duplicates()
}

/// The face successor of a half-edge comes just before its twin around the
/// vertex it reaches: in that vertex's ring, the entry that cyclically
/// follows the successor is the twin, so walking a face turns from each
/// incoming half-edge to the outgoing one just before it in ring order.
pub proof fn lemma_successor_precedes_twin(halfs: Seq<HalfEdge>, rings: Seq<Vec<usize>>)
    requires
        twins_ok(halfs),
        rings_ok(halfs, rings),
    ensures
        forall|h: int|
            0 <= h < halfs.len() ==> {
                let ring = rings[halfs[h].dest.0 as int]@;
                let s = (#[trigger] next_for(halfs, rings, h))->Ok_0;
                &&& next_for(halfs, rings, h) is Ok
                &&& ring.contains(s)
                &&& ring[(first_pos(ring, s) + 1) % (ring.len() as int)] == halfs[h].twin
            },
{
    assert forall|h: int| 0 <= h < halfs.len() implies {
        let ring = rings[halfs[h].dest.0 as int]@;
        let s = (#[trigger] next_for(halfs, rings, h))->Ok_0;
        &&& next_for(halfs, rings, h) is Ok
        &&& ring.contains(s)
        &&& ring[(first_pos(ring, s) + 1) % (ring.len() as int)] == halfs[h].twin
    } by {
        let t = halfs[h].twin as int;
        let v = halfs[h].dest.0 as int;
        assert(halfs[t].origin == halfs[h].dest);
        assert(v < rings.len());
        let ring = rings[v]@;
        assert(ring.contains(t as usize));
        lemma_first_pos(ring, t as usize);
        let pos = first_pos(ring, t as usize);
        let n = ring.len() as int;
        let p = if pos == 0 { n - 1 } else { pos - 1 };
        let s = ring[p];
        assert(next_for(halfs, rings, h) == Ok::<usize, LinkError>(s));
        lemma_first_pos(ring, s);
        let fp = first_pos(ring, s);
        assert(ring.no_duplicates());
        if fp != p {
            assert(ring[fp] == s);
        }
        assert(fp == p);
        if pos == 0 {
            assert((p + 1) % n == 0) by (nonlinear_arith)
                requires
                    p + 1 == n,
                    n > 0,
            ;
        } else {
            assert((p + 1) % n == pos) by (nonlinear_arith)
                requires
                    p + 1 == pos,
                    0 < pos < n,
            ;
        }
    }
}

/// Some half-edge has `o` as its face successor.
pub open spec fn has_predecessor(halfs: Seq<HalfEdge>, rings: Seq<Vec<usize>>, o: int) -> bool {
    exists|h: int| 0 <= h < halfs.len() && #[trigger] next_for(halfs, rings, h) == Ok::<usize, LinkError>(o as usize)
}

/// With twins paired and rings listing each vertex's leaving half-edges,
/// linking succeeds and the face successor is a bijection on the half-edges
/// that leaves each half-edge's destination: every half-edge then lies on
/// exactly one face loop.
pub proof fn lemma_next_bijection(halfs: Seq<HalfEdge>, rings: Seq<Vec<usize>>)
    requires
        twins_ok(halfs),
        rings_ok(halfs, rings),
        halfs.len() <= usize::MAX,
    ensures
        forall|h: int| 0 <= h < halfs.len() ==> (#[trigger] next_for(halfs, rings, h)) is Ok,
        forall|h: int|
            0 <= h < halfs.len() ==> (#[trigger] next_for(halfs, rings, h))->Ok_0 < halfs.len() && halfs[next_for(
                halfs,
                rings,
                h,
            )->Ok_0 as int].origin == halfs[h].dest,
        forall|h1: int, h2: int|
            0 <= h1 < halfs.len() && 0 <= h2 < halfs.len() && #[trigger] next_for(halfs, rings, h1) == #[trigger] next_for(
                halfs,
                rings,
                h2,
            ) ==> h1 == h2,
        forall|o: int| 0 <= o < halfs.len() ==> #[trigger] has_predecessor(halfs, rings, o),
{
    let n = halfs.len() as int;
    assert forall|h: int| 0 <= h < n implies (#[trigger] next_for(halfs, rings, h)) is Ok && next_for(halfs, rings, h)->Ok_0 < n
        && halfs[next_for(halfs, rings, h)->Ok_0 as int].origin == halfs[h].dest by {
        let w = halfs[h].twin as int;
        let v = halfs[h].dest.0 as int;
        assert(halfs[w].origin == halfs[h].dest);
        assert(halfs[w].origin.0 < rings.len());
        assert(rings[v]@.contains(w as usize));
        let ring = rings[v]@;
        lemma_first_pos(ring, w as usize);
        let pos = first_pos(ring, w as usize);
        let t = if pos == 0 { ring.len() - 1 } else { pos - 1 };
        assert(ring[t] < n && halfs[ring[t] as int].origin.0 == v);
    }
    assert forall|h1: int, h2: int|
        0 <= h1 < n && 0 <= h2 < n && #[trigger] next_for(halfs, rings, h1) == #[trigger] next_for(halfs, rings, h2) implies h1 == h2 by {
        let w1 = halfs[h1].twin as int;
        let w2 = halfs[h2].twin as int;
        let v1 = halfs[h1].dest.0 as int;
        let v2 = halfs[h2].dest.0 as int;
        let o = next_for(halfs, rings, h1)->Ok_0;
        assert(halfs[o as int].origin == halfs[h1].dest);
        assert(halfs[o as int].origin == halfs[h2].dest);
        assert(v1 == v2);
        let ring = rings[v1]@;
        lemma_first_pos(ring, w1 as usize);
        lemma_first_pos(ring, w2 as usize);
        let p1 = first_pos(ring, w1 as usize);
        let p2 = first_pos(ring, w2 as usize);
        let t1 = if p1 == 0 { ring.len() - 1 } else { p1 - 1 };
        let t2 = if p2 == 0 { ring.len() - 1 } else { p2 - 1 };
        assert(ring[t1] == ring[t2]);
        assert(ring.no_duplicates());
        assert(t1 == t2);
        assert(p1 == p2);
        assert(w1 == w2);
    }
    assert forall|o: int| 0 <= o < n implies #[trigger] has_predecessor(halfs, rings, o) by {
        let v = halfs[o].origin.0 as int;
        let ring = rings[v]@;
        assert(ring.contains(o as usize));
        let q = ring.index_of(o as usize);
        let k = ring.len() as int;
        let p = if q + 1 < k { q + 1 } else { 0 };
        let w = ring[p] as int;
        let h = halfs[w].twin as int;
        assert(halfs[w].origin.0 == v);
        assert(halfs[h].twin == w);
        assert(halfs[h].dest == halfs[w].origin);
        lemma_first_pos(ring, w as usize);
        let fp = first_pos(ring, w as usize);
        assert(fp == p) by {
            if fp != p {
                assert(ring[fp] == ring[p]);
                assert(ring.no_duplicates());
            }
        }
        assert(next_for(halfs, rings, h) == Ok::<usize, LinkError>(o as usize));
    }
}


/// The half-edges recorded by the walk that started at `start`, from `cur`
/// on (with `steps` successor moves taken so far): the walk records `cur`,
/// then moves to its successor, and stops on coming back to `start`, on a
/// half-edge without a successor (`usize::MAX`), or once it has made more
/// than `cap` moves.
pub open spec fn walk_from(next: Seq<usize>, start: int, cur: int, steps: nat, cap: nat) -> Seq<usize>
    decreases cap + 1 - steps,
{
    let nc = next[cur] as int;
    if steps + 1 > cap || nc == start || nc == usize::MAX as int {
        seq![cur as usize]
    } else {
        seq![cur as usize] + walk_from(next, start, nc, steps + 1, cap)
    }
}

/// The face loop traced from `start`, with a cap of one more move than there
/// are half-edges.
pub open spec fn face_loop(next: Seq<usize>, start: int) -> Seq<usize> {
    walk_from(next, start, start, 0, next.len() + 1)
}

/// The half-edges visited and the loops traced after trying the first `k`
/// half-edges as starts: a start already visited, or without a successor,
/// opens no loop.
pub open spec fn traced(next: Seq<usize>, k: nat) -> (Set<usize>, Seq<Seq<usize>>)
    decreases k,
{
    if k == 0 {
        (Set::empty(), Seq::empty())
    } else {
        let prev = traced(next, (k - 1) as nat);
        let st = k - 1;
        if prev.0.contains(st as usize) || next[st] == usize::MAX {
            prev
        } else {
            let l = face_loop(next, st);
            (prev.0.union(l.to_set()), prev.1.push(l))
        }
    }
}

/// Successors stay among the half-edges, or are `usize::MAX` for none.
pub open spec fn successors_ok(next: Seq<usize>) -> bool {
    forall|h: int| 0 <= h < next.len() ==> #[trigger] next[h] < next.len() || next[h] == usize::MAX
}

/// Trace the face loops: each half-edge not yet on a loop, and with a
/// successor, starts a new loop that follows successors until it comes back
/// to its start (or runs out of successors, or exceeds the move cap that
/// guards a malformed structure). Each loop lists half-edge positions.
pub fn trace_faces(next: &Vec<usize>) -> (faces: Vec<Vec<usize>>)
    requires
        next.len() < usize::MAX,
        successors_ok(next@),
    ensures
        faces.len() == traced(next@, next.len() as nat).1.len(),
        forall|i: int| 0 <= i < faces.len() ==> #[trigger] faces@[i]@ == traced(next@, next.len() as nat).1[i],
{
    let n = next.len();
    let cap = n + 1;
    let mut visited: Vec<bool> = Vec::new();
    while visited.len() < n
        invariant
            visited.len() <= n,
            forall|h: int| 0 <= h < visited.len() ==> !#[trigger] visited@[h],
        decreases n - visited.len(),
    {
        visited.push(false);
    }
    let mut faces: Vec<Vec<usize>> = Vec::new();
    let mut start: usize = 0;
    while start < n
        invariant
            n == next.len(),
            cap == n + 1,
            n < usize::MAX,
            successors_ok(next@),
            start <= n,
            visited.len() == n,
            forall|h: int| 0 <= h < n ==> (#[trigger] visited@[h] <==> traced(next@, start as nat).0.contains(h as usize)),
            faces.len() == traced(next@, start as nat).1.len(),
            forall|i: int| 0 <= i < faces.len() ==> #[trigger] faces@[i]@ == traced(next@, start as nat).1[i],
        decreases n - start,
    {
        let ghost prev = traced(next@, start as nat);
        if visited[start] || next[start] == usize::MAX {
            start = start + 1;
            continue;
        }
        let mut l: Vec<usize> = Vec::new();
        let mut cur: usize = start;
        let mut steps: usize = 0;
        loop
            invariant_except_break
                cur < n,
                steps <= cap,
                l@ + walk_from(next@, start as int, cur as int, steps as nat, cap as nat) == face_loop(next@, start as int),
            invariant
                n == next.len(),
                cap == n + 1,
                start < n,
                successors_ok(next@),
                visited.len() == n,
                forall|h: int| 0 <= h < n ==> (#[trigger] visited@[h] <==> (prev.0.contains(h as usize) || l@.contains(h as usize))),
            ensures
                l@ == face_loop(next@, start as int),
            decreases cap - steps,
        {
            let ghost l0 = l@;
            let ghost w = walk_from(next@, start as int, cur as int, steps as nat, cap as nat);
            visited.set(cur, true);
            l.push(cur);
            proof {
                assert forall|h: int| 0 <= h < n implies (#[trigger] visited@[h] <==> (prev.0.contains(h as usize) || l@.contains(h as usize))) by {
                    if h == cur as int {
                        assert(l@[l0.len() as int] == cur);
                    } else {
                        if l@.contains(h as usize) {
                            let t = l@.index_of(h as usize);
                            assert(t < l0.len());
                            assert(l0[t] == h as usize);
                        }
                        if l0.contains(h as usize) {
                            let t = l0.index_of(h as usize);
                            assert(l@[t] == h as usize);
                        }
                    }
                }
            }
            let nc = next[cur];
            if nc == start || nc == usize::MAX || steps >= cap {
                proof {
                    assert(w == seq![cur]);
                    assert(l@ == l0 + w);
                }
                break;
            }
            proof {
                let w1 = walk_from(next@, start as int, nc as int, (steps + 1) as nat, cap as nat);
                assert(w == seq![cur] + w1);
                assert(l@ + w1 == l0 + w);
            }
            steps = steps + 1;
            cur = nc;
        }
        proof {
            assert(traced(next@, (start + 1) as nat) == (prev.0.union(l@.to_set()), prev.1.push(l@)));
        }
        faces.push(l);
        start = start + 1;
    }
    faces
}


/// The vertex ids around a traced loop: the origin of each of its
/// half-edges, in loop order.
pub fn face_vertex_ids(halfs: &Vec<HalfEdge>, face: &Vec<usize>) -> (ids: Vec<VertexId>)
    requires
        forall|i: int| 0 <= i < face.len() ==> #[trigger] face@[i] < halfs.len(),
    ensures
        ids.len() == face.len(),
        forall|i: int| 0 <= i < face.len() ==> #[trigger] ids@[i] == halfs@[face@[i] as int].origin,
{
    let mut ids: Vec<VertexId> = Vec::new();
    let mut i: usize = 0;
    while i < face.len()
        invariant
            i <= face.len(),
            ids.len() == i,
            forall|j: int| 0 <= j < face.len() ==> #[trigger] face@[j] < halfs.len(),
            forall|j: int| 0 <= j < i ==> #[trigger] ids@[j] == halfs@[face@[j] as int].origin,
        decreases face.len() - i,
    {
        ids.push(halfs[face[i]].origin);
        i = i + 1;
    }
    ids
}

/// `x` after `k` successor moves.
pub open spec fn advance(next: Seq<usize>, x: int, k: nat) -> int
    decreases k,
{
    if k == 0 {
        x
    } else {
        next[advance(next, x, (k - 1) as nat)] as int
    }
}

/// The successors permute the half-edges: each successor is a half-edge and
/// no two half-edges share one.
pub open spec fn is_permutation(next: Seq<usize>) -> bool {
    &&& forall|h: int| 0 <= h < next.len() ==> #[trigger] next[h] < next.len()
    &&& forall|a: int, b: int|
        0 <= a < next.len() && 0 <= b < next.len() && #[trigger] next[a] == #[trigger] next[b] ==> a == b
}

/// A closed loop of successors: each entry's successor is the entry after it,
/// the last entry's successor is the first, and no half-edge repeats.
pub open spec fn is_closed_loop(next: Seq<usize>, l: Seq<usize>) -> bool {
    &&& l.len() > 0
    &&& forall|i: int, j: int| #![trigger l[i], l[j]] 0 <= i && j == i + 1 && j < l.len() ==> l[j] == next[l[i] as int]
    &&& next[l[l.len() - 1] as int] == l[0]
    &&& l.no_duplicates()
}

/// Some loop of `faces` holds `x`.
pub open spec fn loop_holds(faces: Seq<Seq<usize>>, x: usize) -> bool {
    exists|f: int, i: int| 0 <= f < faces.len() && 0 <= i < faces[f].len() && #[trigger] faces[f][i] == x
}

pub(crate) proof fn lemma_advance_add(next: Seq<usize>, x: int, a: nat, b: nat)
    ensures
        advance(next, advance(next, x, a), b) == advance(next, x, a + b),
    decreases b,
{
    if b > 0 {
        lemma_advance_add(next, x, a, (b - 1) as nat);
        assert(advance(next, x, a + b) == next[advance(next, x, (a + b - 1) as nat)] as int);
    }
}

pub(crate) proof fn lemma_advance_range(next: Seq<usize>, x: int, k: nat)
    requires
        is_permutation(next),
        0 <= x < next.len(),
    ensures
        0 <= advance(next, x, k) < next.len(),
    decreases k,
{
    if k > 0 {
        lemma_advance_range(next, x, (k - 1) as nat);
    }
}

/// Moving back: equal positions `i <= j` on an orbit give a return to the
/// start after `j - i` moves.
proof fn lemma_advance_back(next: Seq<usize>, x: int, i: nat, j: nat)
    requires
        is_permutation(next),
        0 <= x < next.len(),
        i <= j,
        advance(next, x, i) == advance(next, x, j),
    ensures
        advance(next, x, (j - i) as nat) == x,
    decreases i,
{
    if i > 0 {
        lemma_advance_range(next, x, (i - 1) as nat);
        lemma_advance_range(next, x, (j - 1) as nat);
        let a = advance(next, x, (i - 1) as nat);
        let b = advance(next, x, (j - 1) as nat);
        assert(next[a] == next[b]);
        lemma_advance_back(next, x, (i - 1) as nat, (j - 1) as nat);
    }
}

proof fn lemma_smallest_return(next: Seq<usize>, s: int, d: nat, k: nat) -> (r: nat)
    requires
        1 <= k <= d,
        advance(next, s, d) == s,
        forall|m: nat| 1 <= m < k ==> advance(next, s, m) != s,
    ensures
        1 <= r <= d,
        advance(next, s, r) == s,
        forall|m: nat| 1 <= m < r ==> advance(next, s, m) != s,
    decreases d - k,
{
    if advance(next, s, k) == s {
        k
    } else {
        lemma_smallest_return(next, s, d, k + 1)
    }
}

/// Under a permutation every orbit comes back to its start within as many
/// moves as there are half-edges, and visits no half-edge twice before.
pub(crate) proof fn lemma_first_return(next: Seq<usize>, s: int) -> (r: nat)
    requires
        is_permutation(next),
        0 <= s < next.len(),
    ensures
        1 <= r <= next.len(),
        advance(next, s, r) == s,
        forall|m: nat| 1 <= m < r ==> advance(next, s, m) != s,
        forall|a: nat, b: nat| a < b < r ==> advance(next, s, a) != advance(next, s, b),
{
    let n = next.len() as int;
    let p = Seq::new((n + 1) as nat, |t: int| advance(next, s, t as nat));
    assert forall|t: int| 0 <= t < p.len() implies 0 <= #[trigger] p[t] < n by {
        lemma_advance_range(next, s, t as nat);
    }
    crate::model::order::lemma_pigeonhole(p, n);
    let (i, j) = choose|i: int, j: int| 0 <= i < j < p.len() && #[trigger] p[i] == #[trigger] p[j];
    lemma_advance_back(next, s, i as nat, j as nat);
    let r = lemma_smallest_return(next, s, (j - i) as nat, 1);
    assert forall|a: nat, b: nat| a < b < r implies advance(next, s, a) != advance(next, s, b) by {
        if advance(next, s, a) == advance(next, s, b) {
            lemma_advance_back(next, s, a, b);
            assert(1 <= (b - a) as nat && (b - a) < r);
        }
    }
    r
}

proof fn lemma_walk_orbit(next: Seq<usize>, s: int, r: nat, m: nat)
    requires
        is_permutation(next),
        next.len() <= usize::MAX,
        0 <= s < next.len(),
        1 <= r <= next.len(),
        advance(next, s, r) == s,
        forall|q: nat| 1 <= q < r ==> advance(next, s, q) != s,
        m < r,
    ensures
        walk_from(next, s, advance(next, s, m), m, next.len() + 1) == Seq::new(
            (r - m) as nat,
            |t: int| advance(next, s, (m + t) as nat) as usize,
        ),
    decreases r - m,
{
    let cap = next.len() + 1;
    let cur = advance(next, s, m);
    lemma_advance_range(next, s, m);
    let nc = next[cur] as int;
    assert(nc == advance(next, s, m + 1));
    let target = Seq::new((r - m) as nat, |t: int| advance(next, s, (m + t) as nat) as usize);
    if m + 1 == r {
        assert(walk_from(next, s, cur, m, cap as nat) == seq![cur as usize]);
        assert(walk_from(next, s, cur, m, cap as nat) =~= target);
    } else {
        assert(nc != s);
        assert(nc < usize::MAX);
        lemma_walk_orbit(next, s, r, m + 1);
        let rest = Seq::new((r - m - 1) as nat, |t: int| advance(next, s, (m + 1 + t) as nat) as usize);
        assert(walk_from(next, s, cur, m, cap as nat) == seq![cur as usize] + rest);
        assert(seq![cur as usize] + rest =~= target);
    }
}

/// The loop traced from `s` under a permutation is its whole orbit, closed.
proof fn lemma_face_loop_closed(next: Seq<usize>, s: int) -> (r: nat)
    requires
        is_permutation(next),
        next.len() <= usize::MAX,
        0 <= s < next.len(),
    ensures
        face_loop(next, s) == Seq::new(r, |t: int| advance(next, s, t as nat) as usize),
        is_closed_loop(next, face_loop(next, s)),
        face_loop(next, s)[0] == s,
        forall|t: int| 0 <= t < r ==> #[trigger] face_loop(next, s)[t] == advance(next, s, t as nat),
        r >= 1,
{
    let r = lemma_first_return(next, s);
    lemma_walk_orbit(next, s, r, 0);
    let l = face_loop(next, s);
    assert(l =~= Seq::new(r, |t: int| advance(next, s, t as nat) as usize));
    assert forall|t: int| 0 <= t < r implies #[trigger] l[t] == advance(next, s, t as nat) by {
        lemma_advance_range(next, s, t as nat);
    }
    assert forall|i: int, j: int| #![trigger l[i], l[j]] 0 <= i && j == i + 1 && j < l.len() implies l[j] == next[l[i] as int] by {
        assert(advance(next, s, j as nat) == next[advance(next, s, i as nat)] as int);
    }
    assert(advance(next, s, r) == next[advance(next, s, (r - 1) as nat)] as int);
    assert(l.no_duplicates()) by {
        assert forall|a: int, b: int| 0 <= a < l.len() && 0 <= b < l.len() && a != b implies l[a] != l[b] by {
            if a < b {
                assert(advance(next, s, a as nat) != advance(next, s, b as nat));
            } else {
                assert(advance(next, s, b as nat) != advance(next, s, a as nat));
            }
        }
    }
    r
}

/// A closed loop holds the successor of each of its half-edges, and so
/// everything reached from one of them.
proof fn lemma_closed_loop_reach(next: Seq<usize>, l: Seq<usize>, x: int, k: nat)
    requires
        is_closed_loop(next, l),
        l.contains(x as usize),
        0 <= x <= usize::MAX,
    ensures
        l.contains(advance(next, x, k) as usize),
        0 <= advance(next, x, k) <= usize::MAX,
    decreases k,
{
    if k > 0 {
        lemma_closed_loop_reach(next, l, x, (k - 1) as nat);
        let y = advance(next, x, (k - 1) as nat);
        let i = l.index_of(y as usize);
        assert(l[i] as int == y);
        if i + 1 < l.len() {
            assert(l[i + 1] == next[l[i] as int]);
            assert(l[i + 1] == next[y]);
        } else {
            assert(l[0] == next[y]);
        }
    }
}

/// What tracing keeps true after the first `k` starts: every loop is closed,
/// the visited half-edges are those on the loops, no two loops share a
/// half-edge, and every start tried so far has been visited.
pub open spec fn traced_ok(next: Seq<usize>, k: nat) -> bool {
    let vis = traced(next, k).0;
    let fs = traced(next, k).1;
    &&& forall|f: int| 0 <= f < fs.len() ==> is_closed_loop(next, #[trigger] fs[f])
    &&& forall|x: usize| #[trigger] vis.contains(x) <==> loop_holds(fs, x)
    &&& forall|f1: int, f2: int, i1: int, i2: int|
        0 <= f1 < fs.len() && 0 <= f2 < fs.len() && 0 <= i1 < fs[f1].len() && 0 <= i2 < fs[f2].len()
            && #[trigger] fs[f1][i1] == #[trigger] fs[f2][i2] ==> f1 == f2
    &&& forall|h: int| 0 <= h < k ==> #[trigger] vis.contains(h as usize)
    &&& forall|f: int, i: int| 0 <= f < fs.len() && 0 <= i < fs[f].len() ==> #[trigger] fs[f][i] < next.len()
}

#[verifier::rlimit(60)]
proof fn lemma_traced_ok(next: Seq<usize>, k: nat)
    requires
        is_permutation(next),
        next.len() <= usize::MAX,
        k <= next.len(),
    ensures
        traced_ok(next, k),
    decreases k,
{
    if k > 0 {
        lemma_traced_ok(next, (k - 1) as nat);
        let prev = traced(next, (k - 1) as nat);
        let st = k - 1;
        let vis = prev.0;
        let fs = prev.1;
        if vis.contains(st as usize) {
            assert(traced(next, k) == prev);
        } else {
            assert(next[st] < next.len());
            let r = lemma_face_loop_closed(next, st);
            let l = face_loop(next, st);
            let nfs = fs.push(l);
            let nvis = vis.union(l.to_set());
            assert(traced(next, k) == (nvis, nfs));
            assert forall|f: int| 0 <= f < nfs.len() implies is_closed_loop(next, #[trigger] nfs[f]) by {
                if f < fs.len() {
                    assert(nfs[f] == fs[f]);
                }
            }
            assert forall|x: usize| #[trigger] nvis.contains(x) <==> loop_holds(nfs, x) by {
                if vis.contains(x) {
                    let (f, i) = choose|f: int, i: int| 0 <= f < fs.len() && 0 <= i < fs[f].len() && #[trigger] fs[f][i] == x;
                    assert(nfs[f][i] == x);
                }
                if l.to_set().contains(x) {
                    let i = l.index_of(x);
                    assert(nfs[fs.len() as int][i] == x);
                }
                if loop_holds(nfs, x) {
                    let (f, i) = choose|f: int, i: int| 0 <= f < nfs.len() && 0 <= i < nfs[f].len() && #[trigger] nfs[f][i] == x;
                    if f < fs.len() {
                        assert(fs[f][i] == x);
                        assert(loop_holds(fs, x));
                    } else {
                        assert(l[i] == x);
                        assert(l.contains(x));
                    }
                }
            }
            assert forall|f1: int, f2: int, i1: int, i2: int|
                0 <= f1 < nfs.len() && 0 <= f2 < nfs.len() && 0 <= i1 < nfs[f1].len() && 0 <= i2 < nfs[f2].len()
                    && #[trigger] nfs[f1][i1] == #[trigger] nfs[f2][i2] implies f1 == f2 by {
                if f1 < fs.len() && f2 < fs.len() {
                    assert(fs[f1][i1] == fs[f2][i2]);
                } else if f1 != f2 {
                    let (f, i, j) = if f1 < fs.len() { (f1, i1, i2) } else { (f2, i2, i1) };
                    let x = fs[f][i];
                    assert(x == l[j]);
                    assert(x == advance(next, st, j as nat));
                    lemma_advance_add(next, st, j as nat, (r - j) as nat);
                    assert(fs[f].contains(x));
                    lemma_closed_loop_reach(next, fs[f], x as int, (r - j) as nat);
                    assert(fs[f].contains(st as usize));
                    let q = fs[f].index_of(st as usize);
                    assert(fs[f][q] == st as usize);
                    assert(loop_holds(fs, st as usize));
                }
            }
            assert forall|h: int| 0 <= h < k implies #[trigger] nvis.contains(h as usize) by {
                if h == st {
                    assert(l[0] == st as usize);
                    assert(l.contains(st as usize));
                } else {
                    assert(vis.contains(h as usize));
                }
            }
            assert forall|f: int, i: int| 0 <= f < nfs.len() && 0 <= i < nfs[f].len() implies #[trigger] nfs[f][i] < next.len() by {
                if f < fs.len() {
                    assert(nfs[f][i] == fs[f][i]);
                } else {
                    lemma_advance_range(next, st, i as nat);
                    assert(l[i] == advance(next, st, i as nat));
                }
            }
        }
    }
}

/// When the successors permute the half-edges, tracing closes every loop:
/// each loop follows successors from its first half-edge back to it without
/// repeating one, every half-edge lies on a loop, and no half-edge lies on
/// two loops.
pub proof fn lemma_faces_partition(next: Seq<usize>)
    requires
        is_permutation(next),
        next.len() <= usize::MAX,
    ensures
        forall|f: int|
            0 <= f < traced(next, next.len()).1.len() ==> is_closed_loop(next, #[trigger] traced(next, next.len()).1[f]),
        forall|h: int| 0 <= h < next.len() ==> #[trigger] loop_holds(traced(next, next.len()).1, h as usize),
        forall|f1: int, f2: int, i1: int, i2: int|
            0 <= f1 < traced(next, next.len()).1.len() && 0 <= f2 < traced(next, next.len()).1.len() && 0 <= i1
                < traced(next, next.len()).1[f1].len() && 0 <= i2 < traced(next, next.len()).1[f2].len()
                && #[trigger] traced(next, next.len()).1[f1][i1] == #[trigger] traced(next, next.len()).1[f2][i2] ==> f1
                == f2,
{
    lemma_traced_ok(next, next.len());
    let vis = traced(next, next.len()).0;
    assert forall|h: int| 0 <= h < next.len() implies #[trigger] loop_holds(traced(next, next.len()).1, h as usize) by {
        assert(vis.contains(h as usize));
    }
}


/// The successors that linking gives a structure with paired twins and
/// complete rings permute its half-edges.
pub proof fn lemma_linked_successors_permute(halfs: Seq<HalfEdge>, rings: Seq<Vec<usize>>, nx: Seq<usize>)
    requires
        twins_ok(halfs),
        rings_ok(halfs, rings),
        halfs.len() <= usize::MAX,
        nx.len() == halfs.len(),
        forall|h: int| 0 <= h < halfs.len() ==> #[trigger] next_for(halfs, rings, h) == Ok::<usize, LinkError>(nx[h]),
    ensures
        is_permutation(nx),
{
    lemma_next_bijection(halfs, rings);
    assert forall|h: int| 0 <= h < nx.len() implies #[trigger] nx[h] < nx.len() by {
        assert(next_for(halfs, rings, h) == Ok::<usize, LinkError>(nx[h]));
    }
    assert forall|a: int, b: int| 0 <= a < nx.len() && 0 <= b < nx.len() && #[trigger] nx[a] == #[trigger] nx[b] implies a == b by {
        assert(next_for(halfs, rings, a) == Ok::<usize, LinkError>(nx[a]));
        assert(next_for(halfs, rings, b) == Ok::<usize, LinkError>(nx[b]));
    }
}

} // verus!
