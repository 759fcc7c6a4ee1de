//! The cancellation step of reconstructing a region from the selected faces.
//!
//! Each selected face contributes its boundary as directed edges. An edge
//! shared by two selected faces appears once in each direction and cancels: it
//! is interior to the union, not part of the result's boundary. Edges are
//! matched by exact vertex ids and a geometry key, so an arc only cancels the
//! reverse arc of the same circle through the same midpoint.

use vstd::prelude::*;

use crate::boolean::poly2d::snap::VertexId;

verus! {

/// Geometry discriminator for cancellation and ordering: a segment, or an arc
/// with its quantised circle and the quantised midpoint of the physical arc
/// (so the two semicircles between the same vertices stay distinct).
#[derive(Debug, Clone, Copy, PartialEq, Eq, Structural, PartialOrd, Ord, Hash)]
pub enum GeomKey {
    /// A straight segment.
    Seg,
    /// A circular arc.
    Arc {
        /// Quantised centre x.
        cx: i64,
        /// Quantised centre y.
        cy: i64,
        /// Quantised radius.
        r: i64,
        /// Quantised midpoint x.
        mx: i64,
        /// Quantised midpoint y.
        my: i64,
    },
}

impl GeomKey {
    /// The key of the reverse edge: the same curve through the same midpoint,
    /// so `a → b` cancels against `b → a` on the same key.
    pub fn reversed(self) -> (r: Self)
        ensures
            r == self,
    {
        self
    }
}

/// A directed boundary edge `a → b` with its geometry key.
#[derive(Debug, Clone, Copy, PartialEq, Eq, Structural)]
pub struct DirKey {
    /// The start vertex.
    pub a: VertexId,
    /// The end vertex.
    pub b: VertexId,
    /// The geometry key.
    pub geom: GeomKey,
}

/// Lexicographic order on five integers.
pub open spec fn lex5_lt(x: (i64, i64, i64, i64, i64), y: (i64, i64, i64, i64, i64)) -> bool {
    x.0 < y.0 || (x.0 == y.0 && (x.1 < y.1 || (x.1 == y.1 && (x.2 < y.2 || (x.2 == y.2 && (x.3 < y.3 || (
    x.3 == y.3 && x.4 < y.4)))))))
}

/// The order of geometry keys: segments first, then arcs by their fields in
/// declaration order.
pub open spec fn geom_lt(x: GeomKey, y: GeomKey) -> bool {
    match (x, y) {
        (GeomKey::Seg, GeomKey::Arc { .. }) => true,
        (GeomKey::Arc { cx: a0, cy: a1, r: a2, mx: a3, my: a4 }, GeomKey::Arc {
            cx: b0,
            cy: b1,
            r: b2,
            mx: b3,
            my: b4,
        }) => lex5_lt((a0, a1, a2, a3, a4), (b0, b1, b2, b3, b4)),
        _ => false,
    }
}

/// The order of directed edge keys: by start vertex, end vertex, then
/// geometry key.
pub open spec fn key_lt(x: DirKey, y: DirKey) -> bool {
    x.a.0 < y.a.0 || (x.a.0 == y.a.0 && (x.b.0 < y.b.0 || (x.b.0 == y.b.0 && geom_lt(x.geom, y.geom))))
}

/// The key ordering is a strict total order.
pub proof fn lemma_key_order(x: DirKey, y: DirKey, z: DirKey)
    ensures
        !key_lt(x, x),
        key_lt(x, y) && key_lt(y, z) ==> key_lt(x, z),
        x != y ==> key_lt(x, y) || key_lt(y, x),
        key_lt(x, y) ==> !key_lt(y, x),
{
    if x != y && x.a == y.a && x.b == y.b {
        assert(x.geom != y.geom);
    }
}

/// Whether `x` orders before `y`.
pub fn key_less(x: &DirKey, y: &DirKey) -> (r: bool)
    ensures
        r == key_lt(*x, *y),
{
    if x.a.0 != y.a.0 {
        return x.a.0 < y.a.0;
    }
    if x.b.0 != y.b.0 {
        return x.b.0 < y.b.0;
    }
    match (x.geom, y.geom) {
        (GeomKey::Seg, GeomKey::Arc { .. }) => true,
        (GeomKey::Arc { cx: a0, cy: a1, r: a2, mx: a3, my: a4 }, GeomKey::Arc {
            cx: b0,
            cy: b1,
            r: b2,
            mx: b3,
            my: b4,
        }) => {
            if a0 != b0 {
                a0 < b0
            } else if a1 != b1 {
                a1 < b1
            } else if a2 != b2 {
                a2 < b2
            } else if a3 != b3 {
                a3 < b3
            } else {
                a4 < b4
            }
        },
        _ => false,
    }
}

/// How many times `k` occurs in `s`.
pub open spec fn occurrences(s: Seq<DirKey>, k: DirKey) -> nat
    decreases s.len(),
{
    if s.len() == 0 {
        0
    } else {
        occurrences(s.drop_last(), k) + if s.last() == k {
            1nat
        } else {
            0nat
        }
    }
}

/// The reverse of a directed edge: the same geometry run the other way.
pub open spec fn rev_key(k: DirKey) -> DirKey {
    DirKey { a: k.b, b: k.a, geom: k.geom }
}

/// How many copies of `k` survive cancellation against its reverse: its
/// count minus its reverse's count when positive; a degenerate edge (`a = b`)
/// never survives.
pub open spec fn surviving(edges: Seq<DirKey>, k: DirKey) -> int {
    if k.a == k.b || occurrences(edges, k) <= occurrences(edges, rev_key(k)) {
        0
    } else {
        occurrences(edges, k) - occurrences(edges, rev_key(k))
    }
}

proof fn lemma_occurrences_bound(s: Seq<DirKey>, k: DirKey)
    ensures
        occurrences(s, k) <= s.len(),
    decreases s.len(),
{
    if s.len() > 0 {
        lemma_occurrences_bound(s.drop_last(), k);
    }
}

proof fn lemma_occurrences_push(s: Seq<DirKey>, e: DirKey, k: DirKey)
    ensures
        occurrences(s.push(e), k) == occurrences(s, k) + if e == k {
            1nat
        } else {
            0nat
        },
{
    assert(s.push(e).drop_last() == s);
}

/// Some entry of the table counts `k`.
pub open spec fn tab_has(tab: Seq<(DirKey, usize)>, k: DirKey) -> bool {
    exists|j: int| 0 <= j < tab.len() && #[trigger] tab[j].0 == k
}

/// The table counts the non-degenerate edges of `s`: keys strictly ascending,
/// each with its number of occurrences, and every such edge of `s` listed.
pub open spec fn counts_ok(tab: Seq<(DirKey, usize)>, s: Seq<DirKey>) -> bool {
    &&& forall|x: int, y: int| 0 <= x < y < tab.len() ==> key_lt(#[trigger] tab[x].0, #[trigger] tab[y].0)
    &&& forall|j: int|
        0 <= j < tab.len() ==> (#[trigger] tab[j]).0.a != tab[j].0.b && tab[j].1 == occurrences(s, tab[j].0) && tab[j].1
            >= 1
    &&& forall|k: DirKey| k.a != k.b && #[trigger] occurrences(s, k) > 0 ==> tab_has(tab, k)
}

/// Count the non-degenerate directed edges, keys in ascending order.
fn count_edges(edges: &Vec<DirKey>) -> (tab: Vec<(DirKey, usize)>)
    ensures
        counts_ok(tab@, edges@),
{
    let mut tab: Vec<(DirKey, usize)> = Vec::new();
    let mut i: usize = 0;
    proof {
        assert(edges@.take(0) =~= Seq::<DirKey>::empty());
    }
    while i < edges.len()
        invariant
            i <= edges.len(),
            counts_ok(tab@, edges@.take(i as int)),
            forall|j: int| 0 <= j < tab.len() ==> #[trigger] tab@[j].1 <= i,
        decreases edges.len() - i,
    {
        let e = edges[i];
        let ghost pre = edges@.take(i as int);
        let ghost t0 = tab@;
        proof {
            assert(edges@.take(i + 1) == pre.push(e));
            assert forall|k: DirKey| #[trigger] occurrences(edges@.take(i + 1), k) == occurrences(pre, k) + if e == k {
                1nat
            } else {
                0nat
            } by {
                lemma_occurrences_push(pre, e, k);
            }
        }
        if e.a == e.b {
            proof {
                assert forall|j: int| 0 <= j < tab.len() implies (#[trigger] tab@[j]).0.a != tab@[j].0.b && tab@[j].1
                    == occurrences(edges@.take(i + 1), tab@[j].0) && tab@[j].1 >= 1 by {
                    assert(tab@[j].0 != e);
                }
            }
        } else {
            let mut p: usize = 0;
            while p < tab.len() && key_less(&tab[p].0, &e)
                invariant
                    tab@ == t0,
                    p <= tab.len(),
                    forall|x: int| 0 <= x < p ==> key_lt(#[trigger] tab@[x].0, e),
                decreases tab.len() - p,
            {
                p = p + 1;
            }
            if p < tab.len() && tab[p].0 == e {
                let c = tab[p].1;
                tab.set(p, (e, c + 1));
                proof {
                    assert forall|x: int, y: int| 0 <= x < y < tab.len() implies key_lt(#[trigger] tab@[x].0, #[trigger] tab@[y].0) by {
                        assert(tab@[x].0 == t0[x].0 && tab@[y].0 == t0[y].0);
                    }
                    assert forall|j: int| 0 <= j < tab.len() implies (#[trigger] tab@[j]).0.a != tab@[j].0.b && tab@[j].1
                        == occurrences(edges@.take(i + 1), tab@[j].0) && tab@[j].1 >= 1 by {
                        if j != p {
                            if t0[j].0 == e {
                                if j < p {
                                    assert(key_lt(t0[j].0, t0[p as int].0));
                                } else {
                                    assert(key_lt(t0[p as int].0, t0[j].0));
                                }
                                lemma_key_order(e, e, e);
                            }
                        }
                    }
                    assert forall|k: DirKey| k.a != k.b && #[trigger] occurrences(edges@.take(i + 1), k) > 0 implies tab_has(tab@, k) by {
                        if k == e {
                            assert(tab@[p as int].0 == k);
                        } else {
                            assert(occurrences(pre, k) > 0);
                            let j = choose|j: int| 0 <= j < t0.len() && #[trigger] t0[j].0 == k;
                            assert(tab@[j].0 == k);
                        }
                    }
                }
            } else {
                proof {
                    if p < tab.len() {
                        lemma_key_order(tab@[p as int].0, e, e);
                    }
                    assert(!tab_has(t0, e)) by {
                        if tab_has(t0, e) {
                            let j = choose|j: int| 0 <= j < t0.len() && #[trigger] t0[j].0 == e;
                            if j < p {
                                assert(key_lt(t0[j].0, e));
                                lemma_key_order(e, e, e);
                            } else if j > p {
                                assert(key_lt(t0[p as int].0, t0[j].0));
                                lemma_key_order(t0[p as int].0, e, e);
                            }
                        }
                    }
                    assert(occurrences(pre, e) == 0);
                }
                tab.insert(p, (e, 1));
                proof {
                    assert(tab@ == t0.insert(p as int, (e, 1usize)));
                    assert forall|x: int, y: int| 0 <= x < y < tab.len() implies key_lt(#[trigger] tab@[x].0, #[trigger] tab@[y].0) by {
                        if y < p {
                            assert(tab@[x] == t0[x] && tab@[y] == t0[y]);
                        } else if y == p {
                            assert(tab@[x] == t0[x]);
                        } else if x < p {
                            assert(tab@[x] == t0[x] && tab@[y] == t0[y - 1]);
                            assert(key_lt(t0[x].0, e));
                            assert(key_lt(e, t0[p as int].0));
                            if y - 1 > p {
                                assert(key_lt(t0[p as int].0, t0[y - 1].0));
                                lemma_key_order(e, t0[p as int].0, t0[y - 1].0);
                            }
                            lemma_key_order(t0[x].0, e, t0[y - 1].0);
                        } else if x == p {
                            assert(tab@[y] == t0[y - 1]);
                            if y - 1 > p {
                                assert(key_lt(t0[p as int].0, t0[y - 1].0));
                                lemma_key_order(e, t0[p as int].0, t0[y - 1].0);
                            }
                        } else {
                            assert(tab@[x] == t0[x - 1] && tab@[y] == t0[y - 1]);
                        }
                    }
                    assert forall|j: int| 0 <= j < tab.len() implies (#[trigger] tab@[j]).0.a != tab@[j].0.b && tab@[j].1
                        == occurrences(edges@.take(i + 1), tab@[j].0) && tab@[j].1 >= 1 by {
                        if j < p {
                            assert(tab@[j] == t0[j]);
                            assert(t0[j].0 != e);
                        } else if j > p {
                            assert(tab@[j] == t0[j - 1]);
                            assert(t0[j - 1].0 != e);
                        }
                    }
                    assert forall|k: DirKey| k.a != k.b && #[trigger] occurrences(edges@.take(i + 1), k) > 0 implies tab_has(tab@, k) by {
                        if k == e {
                            assert(tab@[p as int].0 == k);
                        } else {
                            assert(occurrences(pre, k) > 0);
                            let j = choose|j: int| 0 <= j < t0.len() && #[trigger] t0[j].0 == k;
                            if j < p {
                                assert(tab@[j].0 == k);
                            } else {
                                assert(tab@[j + 1].0 == k);
                            }
                        }
                    }
                    assert forall|j: int| 0 <= j < tab.len() implies #[trigger] tab@[j].1 <= i + 1 by {
                        if j < p {
                            assert(tab@[j] == t0[j]);
                        } else if j > p {
                            assert(tab@[j] == t0[j - 1]);
                        }
                    }
                }
            }
        }
        i = i + 1;
    }
    proof {
        assert(edges@.take(edges.len() as int) == edges@);
    }
    tab
}

/// The number of occurrences the table records for `k` (none when absent).
fn table_count(tab: &Vec<(DirKey, usize)>, k: DirKey) -> (c: usize)
    ensures
        tab_has(tab@, k) ==> exists|j: int| 0 <= j < tab.len() && tab@[j].0 == k && #[trigger] tab@[j].1 == c,
        !tab_has(tab@, k) ==> c == 0,
{
    let mut j: usize = 0;
    while j < tab.len()
        invariant
            j <= tab.len(),
            forall|x: int| 0 <= x < j ==> #[trigger] tab@[x].0 != k,
        decreases tab.len() - j,
    {
        if tab[j].0 == k {
            proof {
                assert(tab@[j as int].1 == tab[j as int].1);
            }
            return tab[j].1;
        }
        j = j + 1;
    }
    0
}

/// Cancel internal edges: each directed edge survives as many times as it
/// occurs beyond its reverse on the same geometry; degenerate edges (`a = b`)
/// are dropped. The survivors come in ascending key order.
pub fn cancel_internal_edges(edges: &Vec<DirKey>) -> (out: Vec<DirKey>)
    ensures
        forall|i: int, j: int| 0 <= i < j < out.len() ==> !key_lt(#[trigger] out@[j], #[trigger] out@[i]),
        forall|k: DirKey| #[trigger] occurrences(out@, k) == surviving(edges@, k),
{
    let tab = count_edges(edges);
    let mut out: Vec<DirKey> = Vec::new();
    let ghost mut op: Seq<int> = Seq::empty();
    let mut idx: usize = 0;
    while idx < tab.len()
        invariant
            counts_ok(tab@, edges@),
            idx <= tab.len(),
            op.len() == out.len(),
            forall|x: int| 0 <= x < out.len() ==> 0 <= #[trigger] op[x] < idx && out@[x] == tab@[op[x]].0,
            forall|x: int, y: int| 0 <= x < y < out.len() ==> !key_lt(#[trigger] out@[y], #[trigger] out@[x]),
            forall|j: int|
                0 <= j < tab.len() ==> #[trigger] occurrences(out@, tab@[j].0) == if j < idx {
                    surviving(edges@, tab@[j].0)
                } else {
                    0
                },
            forall|k: DirKey| !tab_has(tab@, k) ==> #[trigger] occurrences(out@, k) == 0,
        decreases tab.len() - idx,
    {
        let k = tab[idx].0;
        let c = tab[idx].1;
        let rk = DirKey { a: k.b, b: k.a, geom: k.geom };
        let rc = table_count(&tab, rk);
        proof {
            assert(rk == rev_key(k));
            if tab_has(tab@, rk) {
                let j = choose|j: int| 0 <= j < tab.len() && tab@[j].0 == rk && #[trigger] tab@[j].1 == rc;
                assert(tab@[j].1 == occurrences(edges@, tab@[j].0));
            } else {
                assert(rk.a != rk.b);
                assert(!(occurrences(edges@, rk) > 0));
            }
            assert(c == occurrences(edges@, k));
        }
        if c > rc {
            let net = c - rc;
            let mut m: usize = 0;
            let ghost out0 = out@;
            while m < net
                invariant
                    counts_ok(tab@, edges@),
                    idx < tab.len(),
                    k == tab@[idx as int].0,
                    m <= net,
                    out@ == out0 + Seq::new(m as nat, |x: int| k),
                    op.len() == out.len(),
                    forall|x: int| 0 <= x < out.len() ==> 0 <= #[trigger] op[x] <= idx && out@[x] == tab@[op[x]].0,
                    forall|x: int| 0 <= x < out0.len() ==> #[trigger] op[x] < idx,
                    forall|x: int, y: int| 0 <= x < y < out.len() ==> !key_lt(#[trigger] out@[y], #[trigger] out@[x]),
                    forall|kk: DirKey| #[trigger] occurrences(out@, kk) == occurrences(out0, kk) + if kk == k {
                        m as nat
                    } else {
                        0nat
                    },
                decreases net - m,
            {
                let ghost o1 = out@;
                out.push(k);
                proof {
                    op = op.push(idx as int);
                    assert(out@ == out0 + Seq::new((m + 1) as nat, |x: int| k));
                    assert forall|x: int, y: int| 0 <= x < y < out.len() implies !key_lt(#[trigger] out@[y], #[trigger] out@[x]) by {
                        if y == o1.len() {
                            assert(out@[y] == k);
                            if op[x] < idx {
                                assert(key_lt(tab@[op[x]].0, tab@[idx as int].0));
                                lemma_key_order(out@[x], k, k);
                            } else {
                                assert(out@[x] == k);
                                lemma_key_order(k, k, k);
                            }
                        } else {
                            assert(out@[x] == o1[x] && out@[y] == o1[y]);
                        }
                    }
                    assert forall|kk: DirKey| #[trigger] occurrences(out@, kk) == occurrences(out0, kk) + if kk == k {
                        (m + 1) as nat
                    } else {
                        0nat
                    } by {
                        lemma_occurrences_push(o1, k, kk);
                    }
                }
                m = m + 1;
            }
            proof {
                assert forall|j: int| 0 <= j < tab.len() implies #[trigger] occurrences(out@, tab@[j].0) == if j < idx + 1 {
                    surviving(edges@, tab@[j].0)
                } else {
                    0
                } by {
                    if j != idx {
                        assert(tab@[j].0 != k) by {
                            if j < idx {
                                assert(key_lt(tab@[j].0, tab@[idx as int].0));
                            } else {
                                assert(key_lt(tab@[idx as int].0, tab@[j].0));
                            }
                            lemma_key_order(k, k, k);
                        }
                    }
                }
                assert forall|kk: DirKey| !tab_has(tab@, kk) implies #[trigger] occurrences(out@, kk) == 0 by {
                    if kk == k {
                        assert(tab@[idx as int].0 == kk);
                    }
                }
            }
        } else {
            proof {
                assert(surviving(edges@, k) == 0);
            }
        }
        idx = idx + 1;
    }
    proof {
        assert forall|k: DirKey| #[trigger] occurrences(out@, k) == surviving(edges@, k) by {
            if tab_has(tab@, k) {
                let j = choose|j: int| 0 <= j < tab.len() && #[trigger] tab@[j].0 == k;
                assert(occurrences(out@, tab@[j].0) == surviving(edges@, tab@[j].0));
            } else if k.a != k.b {
                assert(!(occurrences(edges@, k) > 0));
            }
        }
    }
    out
}

/// An edge and its reverse never both survive cancellation, and an edge
/// listed as often as its reverse vanishes.
pub proof fn lemma_cancellation_one_way(edges: Seq<DirKey>, k: DirKey)
    ensures
        !(surviving(edges, k) > 0 && surviving(edges, rev_key(k)) > 0),
        occurrences(edges, k) == occurrences(edges, rev_key(k)) ==> surviving(edges, k) == 0,
{
    assert(rev_key(rev_key(k)) == k);
}

} // verus!
