//! Splitting a set of faces into connected components: two faces belong to
//! one component when a chain of faces, each sharing a boundary edge with the
//! next, joins them. A cut or a prismatic build emits one solid per component.

use vstd::prelude::*;

use crate::boolean::half_space::seqs_of;
use crate::geom::CurveId;
use crate::boolean::support::{is_forest, lemma_root_unfold, ranked, uf_find, uf_root, uf_union};
use crate::model::graph::{
    is_rel_path, lemma_rel_reach_const, lemma_rel_reach_subst, lemma_rel_reach_symmetric,
    lemma_rel_reach_trans, lemma_rel_refl, lemma_rel_step, rel_reach,
};
use crate::model::order::all_nodes;

verus! {

/// The key of an undirected boundary edge: the curve it runs along and the
/// quantised ends of its parameter interval, lower end first.
#[derive(Debug, Clone, Copy, PartialEq, Eq, Structural)]
pub struct EdgeKey {
    /// The curve the edge runs along.
    pub curve: CurveId,
    /// The lower quantised parameter end.
    pub lo: i64,
    /// The upper quantised parameter end.
    pub hi: i64,
}

/// Whether `keys` lists `k`.
pub open spec fn lists_key(keys: Seq<EdgeKey>, k: EdgeKey) -> bool {
    exists|i: int| 0 <= i < keys.len() && #[trigger] keys[i] == k
}

/// Faces `a` and `b` share a boundary edge.
pub open spec fn shares_edge(fk: Seq<Vec<EdgeKey>>) -> spec_fn(int, int) -> bool {
    |a: int, b: int|
        0 <= a < fk.len() && 0 <= b < fk.len() && exists|k: EdgeKey|
            #[trigger] lists_key(fk[a]@, k) && lists_key(fk[b]@, k)
}

/// Faces `a` and `b` are joined by a chain of faces each sharing a boundary
/// edge with the next.
pub open spec fn face_connected(fk: Seq<Vec<EdgeKey>>, a: int, b: int) -> bool {
    rel_reach(shares_edge(fk), fk.len() as int, all_nodes(fk.len()), a, b)
}

/// The symmetric relation of a list of linked pairs.
pub open spec fn pair_rel(pairs: Seq<(usize, usize)>) -> spec_fn(int, int) -> bool {
    |a: int, b: int|
        exists|i: int|
            0 <= i < pairs.len() && ((#[trigger] pairs[i].0 == a && pairs[i].1 == b) || (pairs[i].0 == b
                && pairs[i].1 == a))
}

/// Two nodes share a root exactly when the linked pairs join them.
pub open spec fn roots_match_pairs(p: Seq<usize>, pairs: Seq<(usize, usize)>) -> bool {
    forall|x: int, y: int|
        #![trigger uf_root(p, x), uf_root(p, y)]
        0 <= x < p.len() && 0 <= y < p.len() ==> (uf_root(p, x) == uf_root(p, y) <==> rel_reach(
            pair_rel(pairs),
            p.len() as int,
            all_nodes(p.len()),
            x,
            y,
        ))
}

/// Linking `a` with `b` in the forest, and adding the pair `(a, b)`, keeps
/// roots and pairs in step.
proof fn lemma_union_pairs(p: Seq<usize>, q: Seq<usize>, pairs: Seq<(usize, usize)>, a: int, b: int)
    requires
        q.len() == p.len(),
        p.len() <= usize::MAX,
        0 <= a < p.len(),
        0 <= b < p.len(),
        roots_match_pairs(p, pairs),
        forall|y: int|
            0 <= y < p.len() ==> #[trigger] uf_root(q, y) == if uf_root(p, y) == uf_root(p, a) {
                uf_root(p, b)
            } else {
                uf_root(p, y)
            },
    ensures
        roots_match_pairs(q, pairs.push((a as usize, b as usize))),
{
    let n = p.len() as int;
    let all = all_nodes(p.len());
    let old_rel = pair_rel(pairs);
    let ps2 = pairs.push((a as usize, b as usize));
    let new_rel = pair_rel(ps2);
    assert forall|u: int, v: int| #![trigger old_rel(u, v)] 0 <= u < n && 0 <= v < n && all[u] && all[v] && old_rel(u, v) implies rel_reach(new_rel, n, all, u, v) by {
        let i = choose|i: int|
            0 <= i < pairs.len() && ((#[trigger] pairs[i].0 == u && pairs[i].1 == v) || (pairs[i].0 == v && pairs[i].1 == u));
        assert(ps2[i] == pairs[i]);
        assert(new_rel(u, v));
        lemma_rel_step(new_rel, n, all, u, v);
    }
    assert(new_rel(a, b)) by {
        let i = pairs.len() as int;
        assert(ps2[i] == (a as usize, b as usize));
        assert(ps2[i].0 == a && ps2[i].1 == b);
    }
    assert forall|x: int, y: int|
        #![trigger uf_root(q, x), uf_root(q, y)]
        0 <= x < n && 0 <= y < n implies (uf_root(q, x) == uf_root(q, y) <==> rel_reach(new_rel, n, all, x, y)) by {
        let ra = uf_root(p, a);
        let rb = uf_root(p, b);
        assert(uf_root(q, x) == if uf_root(p, x) == ra { rb } else { uf_root(p, x) });
        assert(uf_root(q, y) == if uf_root(p, y) == ra { rb } else { uf_root(p, y) });
        if uf_root(q, x) == uf_root(q, y) {
            if uf_root(p, x) == uf_root(p, y) {
                assert(rel_reach(old_rel, n, all, x, y));
                lemma_rel_reach_subst(old_rel, new_rel, n, all, x, y);
            } else if uf_root(p, x) == ra {
                assert(uf_root(p, y) == rb);
                assert(rel_reach(old_rel, n, all, x, a));
                assert(rel_reach(old_rel, n, all, b, y));
                lemma_rel_reach_subst(old_rel, new_rel, n, all, x, a);
                lemma_rel_reach_subst(old_rel, new_rel, n, all, b, y);
                lemma_rel_step(new_rel, n, all, a, b);
                lemma_rel_reach_trans(new_rel, n, all, x, a, b);
                lemma_rel_reach_trans(new_rel, n, all, x, b, y);
            } else {
                assert(uf_root(p, y) == ra);
                assert(uf_root(p, x) == rb);
                assert(rel_reach(old_rel, n, all, x, b));
                assert(rel_reach(old_rel, n, all, a, y));
                lemma_rel_reach_subst(old_rel, new_rel, n, all, x, b);
                lemma_rel_reach_subst(old_rel, new_rel, n, all, a, y);
                assert(new_rel(b, a)) by {
                    let i = pairs.len() as int;
                    assert(ps2[i] == (a as usize, b as usize));
                    assert(ps2[i].0 == a && ps2[i].1 == b);
                }
                lemma_rel_step(new_rel, n, all, b, a);
                lemma_rel_reach_trans(new_rel, n, all, x, b, a);
                lemma_rel_reach_trans(new_rel, n, all, x, a, y);
            }
        }
        if rel_reach(new_rel, n, all, x, y) {
            let f = |z: int| uf_root(q, z);
            assert forall|u: int, v: int| #![trigger new_rel(u, v)] 0 <= u < n && 0 <= v < n && new_rel(u, v) implies f(u) == f(v) by {
                let i = choose|i: int|
                    0 <= i < ps2.len() && ((#[trigger] ps2[i].0 == u && ps2[i].1 == v) || (ps2[i].0 == v && ps2[i].1 == u));
                if i < pairs.len() {
                    assert(pairs[i] == ps2[i]);
                    assert(old_rel(u, v));
                    lemma_rel_step(old_rel, n, all, u, v);
                    assert(uf_root(p, u) == uf_root(p, v));
                    assert(uf_root(q, u) == if uf_root(p, u) == ra { rb } else { uf_root(p, u) });
                    assert(uf_root(q, v) == if uf_root(p, v) == ra { rb } else { uf_root(p, v) });
                } else {
                    assert(uf_root(q, a) == rb);
                    lemma_rel_refl(old_rel, n, all, b);
                    assert(uf_root(q, b) == if uf_root(p, b) == ra { rb } else { uf_root(p, b) });
                }
            }
            lemma_rel_reach_const(new_rel, n, all, f, x, y);
        }
    }
}

/// Every listed key has one entry, with a face that lists it.
pub open spec fn table_ok(fk: Seq<Vec<EdgeKey>>, tab: Seq<(EdgeKey, usize)>) -> bool {
    &&& forall|j: int| 0 <= j < tab.len() ==> (#[trigger] tab[j]).1 < fk.len() && lists_key(fk[tab[j].1 as int]@, tab[j].0)
    &&& forall|i: int, j: int| 0 <= i < j < tab.len() ==> tab[i].0 != tab[j].0
}

/// The pair `(a, c)` was linked.
pub open spec fn linked(pairs: Seq<(usize, usize)>, a: int, c: int) -> bool {
    exists|i: int| 0 <= i < pairs.len() && #[trigger] pairs[i] == (a as usize, c as usize)
}

/// The key of occurrence `i` of face `a` has an entry whose face is `a`
/// itself or is linked from `a`.
pub open spec fn covered_occ(fk: Seq<Vec<EdgeKey>>, tab: Seq<(EdgeKey, usize)>, pairs: Seq<(usize, usize)>, a: int, i: int) -> bool {
    exists|j: int|
        0 <= j < tab.len() && #[trigger] tab[j].0 == fk[a]@[i] && (tab[j].1 == a || linked(pairs, a, tab[j].1 as int))
}

/// `groups` lists the connected components of the faces: every face lies in a
/// component, a component holds exactly the faces connected to its first
/// face, each component is ascending, and components are ordered by their
/// first face.
pub open spec fn components_ok(fk: Seq<Vec<EdgeKey>>, groups: Seq<Seq<usize>>) -> bool {
    &&& forall|g: int| 0 <= g < groups.len() ==> #[trigger] groups[g].len() >= 1
    &&& forall|g: int, t: int| 0 <= g < groups.len() && 0 <= t < groups[g].len() ==> #[trigger] groups[g][t] < fk.len()
    &&& forall|g: int, a: int, b: int|
        0 <= g < groups.len() && 0 <= a < b < groups[g].len() ==> #[trigger] groups[g][a] < #[trigger] groups[g][b]
    &&& forall|g: int, h: int| 0 <= g < h < groups.len() ==> #[trigger] groups[g][0] < #[trigger] groups[h][0]
    &&& forall|g: int, y: int|
        0 <= g < groups.len() && 0 <= y < fk.len() ==> (#[trigger] groups[g].contains(y as usize) <==> face_connected(
            fk,
            groups[g][0] as int,
            y,
        ))
    &&& forall|y: int| 0 <= y < fk.len() ==> #[trigger] in_some_group(groups, y)
}

/// Face `y` lies in one of the groups.
pub open spec fn in_some_group(groups: Seq<Seq<usize>>, y: int) -> bool {
    exists|g: int| 0 <= g < groups.len() && #[trigger] groups[g].contains(y as usize)
}

/// The link relation joins two faces exactly when they are connected.
proof fn lemma_pairs_connect(fk: Seq<Vec<EdgeKey>>, tab: Seq<(EdgeKey, usize)>, pairs: Seq<(usize, usize)>, x: int, y: int)
    requires
        table_ok(fk, tab),
        forall|i: int| 0 <= i < pairs.len() ==> #[trigger] shares_edge(fk)(pairs[i].0 as int, pairs[i].1 as int),
        forall|a: int, i: int| 0 <= a < fk.len() && 0 <= i < fk[a]@.len() ==> #[trigger] covered_occ(fk, tab, pairs, a, i),
        fk.len() <= usize::MAX,
        0 <= x < fk.len(),
        0 <= y < fk.len(),
    ensures
        rel_reach(pair_rel(pairs), fk.len() as int, all_nodes(fk.len()), x, y) <==> face_connected(fk, x, y),
{
    let n = fk.len() as int;
    let all = all_nodes(fk.len());
    let pr = pair_rel(pairs);
    let sh = shares_edge(fk);
    assert forall|u: int, v: int| #![trigger pr(u, v)] 0 <= u < n && 0 <= v < n && all[u] && all[v] && pr(u, v) implies rel_reach(sh, n, all, u, v) by {
        let i = choose|i: int|
            0 <= i < pairs.len() && ((#[trigger] pairs[i].0 == u && pairs[i].1 == v) || (pairs[i].0 == v && pairs[i].1 == u));
        assert(sh(pairs[i].0 as int, pairs[i].1 as int));
        if pairs[i].0 == u {
            lemma_rel_step(sh, n, all, u, v);
        } else {
            let k = choose|k: EdgeKey| #[trigger] lists_key(fk[v]@, k) && lists_key(fk[u]@, k);
            assert(sh(u, v));
            lemma_rel_step(sh, n, all, u, v);
        }
    }
    assert forall|u: int, v: int| #![trigger pr(u, v)] pr(u, v) implies pr(v, u) by {
        let i = choose|i: int|
            0 <= i < pairs.len() && ((#[trigger] pairs[i].0 == u && pairs[i].1 == v) || (pairs[i].0 == v && pairs[i].1 == u));
        assert(pairs[i].0 == v && pairs[i].1 == u || pairs[i].0 == u && pairs[i].1 == v);
    }
    assert forall|u: int, v: int| #![trigger sh(u, v)] 0 <= u < n && 0 <= v < n && all[u] && all[v] && sh(u, v) implies rel_reach(pr, n, all, u, v) by {
        let k = choose|k: EdgeKey| #[trigger] lists_key(fk[u]@, k) && lists_key(fk[v]@, k);
        let iu = choose|i: int| 0 <= i < fk[u]@.len() && #[trigger] fk[u]@[i] == k;
        let iv = choose|i: int| 0 <= i < fk[v]@.len() && #[trigger] fk[v]@[i] == k;
        assert(covered_occ(fk, tab, pairs, u, iu));
        assert(covered_occ(fk, tab, pairs, v, iv));
        let ju = choose|j: int|
            0 <= j < tab.len() && #[trigger] tab[j].0 == fk[u]@[iu] && (tab[j].1 == u || linked(pairs, u, tab[j].1 as int));
        let jv = choose|j: int|
            0 <= j < tab.len() && #[trigger] tab[j].0 == fk[v]@[iv] && (tab[j].1 == v || linked(pairs, v, tab[j].1 as int));
        if ju != jv {
            if ju < jv {
                assert(tab[ju].0 != tab[jv].0);
            } else {
                assert(tab[jv].0 != tab[ju].0);
            }
        }
        let c = tab[ju].1 as int;
        assert(0 <= c < n);
        lemma_linked_reach(pairs, n, all, u, c);
        lemma_linked_reach(pairs, n, all, v, c);
        lemma_rel_reach_symmetric(pr, n, all, v, c);
        lemma_rel_reach_trans(pr, n, all, u, c, v);
    }
    if rel_reach(pr, n, all, x, y) {
        lemma_rel_reach_subst(pr, sh, n, all, x, y);
    }
    if face_connected(fk, x, y) {
        lemma_rel_reach_subst(sh, pr, n, all, x, y);
    }
}

/// A face reaches the face it was linked to, and itself.
proof fn lemma_linked_reach(pairs: Seq<(usize, usize)>, n: int, all: Seq<bool>, a: int, c: int)
    requires
        0 <= a < n,
        0 <= c < n,
        all[a],
        all[c],
        a == c || linked(pairs, a, c),
        n <= usize::MAX + 1,
    ensures
        rel_reach(pair_rel(pairs), n, all, a, c),
{
    if a == c {
        lemma_rel_refl(pair_rel(pairs), n, all, a);
    } else {
        let i = choose|i: int| 0 <= i < pairs.len() && #[trigger] pairs[i] == (a as usize, c as usize);
        assert(pairs[i].0 == a && pairs[i].1 == c);
        assert(pair_rel(pairs)(a, c));
        lemma_rel_step(pair_rel(pairs), n, all, a, c);
    }
}

/// The position of key `k` in the table, if listed.
fn table_find(tab: &Vec<(EdgeKey, usize)>, k: EdgeKey) -> (r: Option<usize>)
    ensures
        match r {
            Some(j) => j < tab.len() && tab@[j as int].0 == k,
            None => forall|j: int| 0 <= j < tab.len() ==> #[trigger] tab@[j].0 != k,
        },
{
    let mut j: usize = 0;
    while j < tab.len()
        invariant
            j <= tab.len(),
            forall|i: int| 0 <= i < j ==> #[trigger] tab@[i].0 != k,
        decreases tab.len() - j,
    {
        if tab[j].0 == k {
            return Some(j);
        }
        j = j + 1;
    }
    None
}

/// Link every face with the first face listing each of its boundary edges.
/// Afterwards two faces share a root exactly when they are connected.
#[verifier::rlimit(40)]
fn link_faces(face_keys: &Vec<Vec<EdgeKey>>, parent: &mut Vec<usize>)
    requires
        old(parent).len() == face_keys.len(),
        is_forest(old(parent)@),
        roots_match_pairs(old(parent)@, Seq::empty()),
    ensures
        final(parent).len() == face_keys.len(),
        is_forest(final(parent)@),
        forall|x: int, y: int|
            #![trigger uf_root(final(parent)@, x), uf_root(final(parent)@, y)]
            0 <= x < face_keys.len() && 0 <= y < face_keys.len() ==> (uf_root(final(parent)@, x) == uf_root(
                final(parent)@,
                y,
            ) <==> face_connected(face_keys@, x, y)),
{
    let ghost fk = face_keys@;
    let n = face_keys.len();
    let mut tab: Vec<(EdgeKey, usize)> = Vec::new();
    let ghost mut pairs: Seq<(usize, usize)> = Seq::empty();
    let mut f: usize = 0;
    while f < n
        invariant
            fk == face_keys@,
            n == fk.len(),
            f <= n,
            parent.len() == n,
            is_forest(parent@),
            roots_match_pairs(parent@, pairs),
            table_ok(fk, tab@),
            forall|i: int| 0 <= i < pairs.len() ==> #[trigger] shares_edge(fk)(pairs[i].0 as int, pairs[i].1 as int),
            forall|a: int, i: int| 0 <= a < f && 0 <= i < fk[a]@.len() ==> #[trigger] covered_occ(fk, tab@, pairs, a, i),
        decreases n - f,
    {
        let keys = &face_keys[f];
        let mut t: usize = 0;
        while t < keys.len()
            invariant
                fk == face_keys@,
                n == fk.len(),
                f < n,
                *keys == fk[f as int],
                t <= keys.len(),
                parent.len() == n,
                is_forest(parent@),
                roots_match_pairs(parent@, pairs),
                table_ok(fk, tab@),
                forall|i: int| 0 <= i < pairs.len() ==> #[trigger] shares_edge(fk)(pairs[i].0 as int, pairs[i].1 as int),
                forall|a: int, i: int|
                    (0 <= a < f && 0 <= i < fk[a]@.len()) || (a == f && 0 <= i < t) ==> #[trigger] covered_occ(fk, tab@, pairs, a, i),
            decreases keys.len() - t,
        {
            let k = keys[t];
            let ghost tab0 = tab@;
            let ghost pairs0 = pairs;
            proof {
                assert(lists_key(fk[f as int]@, k)) by {
                    assert(fk[f as int]@[t as int] == k);
                }
            }
            match table_find(&tab, k) {
                Some(j) => {
                    let c = tab[j].1;
                    let ghost p0 = parent@;
                    proof {
                        assert(lists_key(fk[c as int]@, k));
                    }
                    uf_union(parent, f, c);
                    proof {
                        lemma_union_pairs(p0, parent@, pairs0, f as int, c as int);
                        pairs = pairs0.push((f, c));
                        assert(pairs[pairs0.len() as int] == (f, c));
                        assert(shares_edge(fk)(f as int, c as int));
                        assert forall|i: int| 0 <= i < pairs.len() implies #[trigger] shares_edge(fk)(pairs[i].0 as int, pairs[i].1 as int) by {
                            if i < pairs0.len() {
                                assert(pairs[i] == pairs0[i]);
                            }
                        }
                        assert forall|a: int, i: int|
                            (0 <= a < f && 0 <= i < fk[a]@.len()) || (a == f && 0 <= i < t + 1) implies #[trigger] covered_occ(fk, tab@, pairs, a, i) by {
                            if a == f && i == t {
                                assert(linked(pairs, a, c as int));
                                assert(tab@[j as int].0 == fk[a]@[i]);
                            } else {
                                assert(covered_occ(fk, tab0, pairs0, a, i));
                                let jj = choose|jj: int|
                                    0 <= jj < tab0.len() && #[trigger] tab0[jj].0 == fk[a]@[i] && (tab0[jj].1 == a || linked(pairs0, a, tab0[jj].1 as int));
                                if tab0[jj].1 != a {
                                    let ii = choose|ii: int| 0 <= ii < pairs0.len() && #[trigger] pairs0[ii] == (a as usize, tab0[jj].1);
                                    assert(pairs[ii] == pairs0[ii]);
                                }
                            }
                        }
                    }
                },
                None => {
                    tab.push((k, f));
                    proof {
                        assert(tab@ == tab0.push((k, f)));
                        assert forall|x: int, y: int| 0 <= x < y < tab@.len() implies tab@[x].0 != tab@[y].0 by {
                            if y == tab0.len() {
                                assert(tab@[x] == tab0[x]);
                            }
                        }
                        assert forall|x: int| 0 <= x < tab@.len() implies (#[trigger] tab@[x]).1 < fk.len() && lists_key(fk[tab@[x].1 as int]@, tab@[x].0) by {
                            if x < tab0.len() {
                                assert(tab@[x] == tab0[x]);
                            }
                        }
                        assert forall|a: int, i: int|
                            (0 <= a < f && 0 <= i < fk[a]@.len()) || (a == f && 0 <= i < t + 1) implies #[trigger] covered_occ(fk, tab@, pairs, a, i) by {
                            if a == f && i == t {
                                assert(tab@[tab0.len() as int].0 == fk[a]@[i]);
                            } else {
                                assert(covered_occ(fk, tab0, pairs, a, i));
                                let jj = choose|jj: int|
                                    0 <= jj < tab0.len() && #[trigger] tab0[jj].0 == fk[a]@[i] && (tab0[jj].1 == a || linked(pairs, a, tab0[jj].1 as int));
                                assert(tab@[jj] == tab0[jj]);
                            }
                        }
                    }
                },
            }
            t = t + 1;
        }
        f = f + 1;
    }
    proof {
        assert forall|x: int, y: int|
            #![trigger uf_root(parent@, x), uf_root(parent@, y)]
            0 <= x < n && 0 <= y < n implies (uf_root(parent@, x) == uf_root(parent@, y) <==> face_connected(fk, x, y)) by {
            lemma_pairs_connect(fk, tab@, pairs, x, y);
        }
    }
}

/// With no linked pair, a face reaches only itself.
proof fn lemma_no_pairs(n: int, x: int, y: int)
    requires
        0 <= x < n,
        0 <= y < n,
    ensures
        rel_reach(pair_rel(Seq::empty()), n, all_nodes(n as nat), x, y) <==> x == y,
{
    let rel = pair_rel(Seq::<(usize, usize)>::empty());
    let all = all_nodes(n as nat);
    if x == y {
        lemma_rel_refl(rel, n, all, x);
    }
    if rel_reach(rel, n, all, x, y) {
        let p = choose|p: Seq<int>| #[trigger] is_rel_path(rel, n, all, p) && p[0] == x && p.last() == y;
        if p.len() > 1 {
            assert(rel(p[0], p[1]));
        }
    }
}

/// The connected components of a set of faces, given the keys of each face's
/// boundary edges: two faces sharing an edge key lie in one component, and
/// components are closed under chains of such faces. Each component lists its
/// faces in ascending order; components come in the order of their first
/// face.
pub fn connected_components(face_keys: &Vec<Vec<EdgeKey>>) -> (groups: Vec<Vec<usize>>)
    ensures
        components_ok(face_keys@, seqs_of(groups@)),
{
    let ghost fk = face_keys@;
    let n = face_keys.len();
    let mut parent: Vec<usize> = Vec::new();
    let mut i: usize = 0;
    while i < n
        invariant
            i <= n,
            parent.len() == i,
            forall|j: int| 0 <= j < i ==> parent@[j] == j,
        decreases n - i,
    {
        parent.push(i);
        i = i + 1;
    }
    proof {
        let rank = Seq::new(n as nat, |j: int| 0nat);
        assert(ranked(parent@, rank));
        assert forall|x: int, y: int|
            #![trigger uf_root(parent@, x), uf_root(parent@, y)]
            0 <= x < n && 0 <= y < n implies (uf_root(parent@, x) == uf_root(parent@, y) <==> rel_reach(
                pair_rel(Seq::empty()),
                n as int,
                all_nodes(n as nat),
                x,
                y,
            )) by {
            assert(uf_root(parent@, x) == x);
            assert(uf_root(parent@, y) == y);
            lemma_no_pairs(n as int, x, y);
        }
    }
    link_faces(face_keys, &mut parent);
    let ghost pf = parent@;
    let ghost rank = choose|rank: Seq<nat>| ranked(pf, rank);
    proof {
        assert forall|y: int| 0 <= y < n implies 0 <= #[trigger] uf_root(pf, y) < n by {
            lemma_root_unfold(pf, rank, y);
        }
    }
    let mut slot: Vec<Option<usize>> = Vec::new();
    let mut i: usize = 0;
    while i < n
        invariant
            i <= n,
            slot.len() == i,
            forall|j: int| 0 <= j < i ==> slot@[j] is None,
        decreases n - i,
    {
        slot.push(None);
        i = i + 1;
    }
    let mut groups: Vec<Vec<usize>> = Vec::new();
    let mut x: usize = 0;
    while x < n
        invariant
            fk == face_keys@,
            n == fk.len(),
            x <= n,
            parent.len() == n,
            is_forest(parent@),
            forall|y: int| 0 <= y < n ==> #[trigger] uf_root(parent@, y) == uf_root(pf, y),
            forall|y: int| 0 <= y < n ==> 0 <= #[trigger] uf_root(pf, y) < n,
            forall|y: int, z: int|
                #![trigger uf_root(pf, y), uf_root(pf, z)]
                0 <= y < n && 0 <= z < n ==> (uf_root(pf, y) == uf_root(pf, z) <==> face_connected(fk, y, z)),
            slot.len() == n,
            forall|r: int| 0 <= r < n && (#[trigger] slot@[r] is None) ==> forall|y: int| 0 <= y < x ==> uf_root(pf, y) != r,
            forall|r: int|
                0 <= r < n && (#[trigger] slot@[r] is Some) ==> slot@[r]->0 < groups.len() && uf_root(
                    pf,
                    seqs_of(groups@)[slot@[r]->0 as int][0] as int,
                ) == r,
            forall|g: int|
                0 <= g < groups.len() ==> #[trigger] slot@[uf_root(pf, seqs_of(groups@)[g][0] as int)] == Some(g as usize),
            forall|g: int| 0 <= g < groups.len() ==> #[trigger] seqs_of(groups@)[g].len() >= 1,
            forall|g: int, t: int|
                0 <= g < groups.len() && 0 <= t < seqs_of(groups@)[g].len() ==> #[trigger] seqs_of(groups@)[g][t] < x,
            forall|g: int, a: int, b: int|
                0 <= g < groups.len() && 0 <= a < b < seqs_of(groups@)[g].len() ==> #[trigger] seqs_of(groups@)[g][a]
                    < #[trigger] seqs_of(groups@)[g][b],
            forall|g: int, h: int|
                0 <= g < h < groups.len() ==> #[trigger] seqs_of(groups@)[g][0] < #[trigger] seqs_of(groups@)[h][0],
            forall|g: int, y: int|
                0 <= g < groups.len() && 0 <= y < n ==> (#[trigger] seqs_of(groups@)[g].contains(y as usize) <==> (y
                    < x && uf_root(pf, y) == uf_root(pf, seqs_of(groups@)[g][0] as int))),
            forall|y: int| 0 <= y < x ==> #[trigger] in_some_group(seqs_of(groups@), y),
        decreases n - x,
    {
        let r = uf_find(&mut parent, x);
        let ghost gs0 = seqs_of(groups@);
        let ghost slot0 = slot@;
        match slot[r] {
            Some(g) => {
                proof {
                    assert(uf_root(pf, gs0[g as int][0] as int) == r);
                }
                groups[g].push(x);
                proof {
                    let gs = seqs_of(groups@);
                    assert(gs == gs0.update(g as int, gs0[g as int].push(x)));
                    assert forall|h: int| 0 <= h < gs.len() && h != g implies #[trigger] gs[h] == gs0[h] by {}
                    assert(gs[g as int][0] == gs0[g as int][0]);
                    assert forall|h: int, y: int|
                        0 <= h < gs.len() && 0 <= y < n implies (#[trigger] gs[h].contains(y as usize) <==> (y < x + 1
                            && uf_root(pf, y) == uf_root(pf, gs[h][0] as int))) by {
                        if h == g {
                            if y == x as int {
                                assert(gs[h][gs0[h].len() as int] == x);
                            } else {
                                if gs0[h].contains(y as usize) {
                                    let t = gs0[h].index_of(y as usize);
                                    assert(gs[h][t] == y as usize);
                                }
                                if gs[h].contains(y as usize) {
                                    let t = gs[h].index_of(y as usize);
                                    assert(t < gs0[h].len());
                                    assert(gs0[h][t] == y as usize);
                                }
                            }
                        } else {
                            assert(gs[h] == gs0[h]);
                            if y == x as int && uf_root(pf, y) == uf_root(pf, gs[h][0] as int) {
                                assert(slot0[r as int] == Some(h as usize));
                            }
                        }
                    }
                    assert forall|y: int| 0 <= y < x + 1 implies #[trigger] in_some_group(gs, y) by {
                        if y == x as int {
                            assert(gs[g as int][gs0[g as int].len() as int] == y as usize);
                            assert(gs[g as int].contains(y as usize));
                        } else {
                            assert(in_some_group(gs0, y));
                            let h = choose|h: int| 0 <= h < gs0.len() && #[trigger] gs0[h].contains(y as usize);
                            assert(gs0[h].contains(y as usize));
                            if h == g {
                                let t = gs0[h].index_of(y as usize);
                                assert(gs[h][t] == y as usize);
                            } else {
                                assert(gs[h] == gs0[h]);
                            }
                            assert(gs[h].contains(y as usize));
                        }
                    }
                }
            },
            None => {
                let gi = groups.len();
                let mut fresh: Vec<usize> = Vec::new();
                fresh.push(x);
                groups.push(fresh);
                slot.set(r, Some(gi));
                proof {
                    let gs = seqs_of(groups@);
                    assert(gs == gs0.push(seq![x]));
                    assert forall|h: int| 0 <= h < gs0.len() implies #[trigger] gs[h] == gs0[h] by {}
                    assert(gs[gi as int] == seq![x]);
                    assert forall|h: int, y: int|
                        0 <= h < gs.len() && 0 <= y < n implies (#[trigger] gs[h].contains(y as usize) <==> (y < x + 1
                            && uf_root(pf, y) == uf_root(pf, gs[h][0] as int))) by {
                        if h == gi as int {
                            if gs[h].contains(y as usize) {
                                let t = gs[h].index_of(y as usize);
                                assert(t == 0);
                            }
                            if y == x as int {
                                assert(gs[h][0] == x);
                            }
                        } else {
                            assert(gs[h] == gs0[h]);
                            if y == x as int && uf_root(pf, y) == uf_root(pf, gs[h][0] as int) {
                                assert(slot0[uf_root(pf, gs0[h][0] as int)] == Some(h as usize));
                            }
                        }
                    }
                    assert forall|y: int| 0 <= y < x + 1 implies #[trigger] in_some_group(gs, y) by {
                        if y == x as int {
                            assert(gs[gi as int][0] == x);
                            assert(gs[gi as int][0] == y as usize);
                            assert(gs[gi as int].contains(y as usize));
                        } else {
                            assert(in_some_group(gs0, y));
                            let h = choose|h: int| 0 <= h < gs0.len() && #[trigger] gs0[h].contains(y as usize);
                            assert(gs[h] == gs0[h]);
                            assert(gs[h].contains(y as usize));
                        }
                    }
                    assert forall|g: int| 0 <= g < groups.len() implies #[trigger] slot@[uf_root(pf, gs[g][0] as int)] == Some(g as usize) by {
                        if g < gs0.len() {
                            assert(gs[g] == gs0[g]);
                            assert(slot0[uf_root(pf, gs0[g][0] as int)] == Some(g as usize));
                        }
                    }
                }
            },
        }
        x = x + 1;
    }
    proof {
        let gs = seqs_of(groups@);
        assert forall|g: int, y: int|
            0 <= g < gs.len() && 0 <= y < n implies (#[trigger] gs[g].contains(y as usize) <==> face_connected(
                fk,
                gs[g][0] as int,
                y,
            )) by {
            let f0 = gs[g][0] as int;
            assert(gs[g].contains(gs[g][0]));
            assert(uf_root(pf, f0) == uf_root(pf, f0));
        }
    }
    groups
}

/// The components partition the faces: no face lies in two components.
pub proof fn lemma_components_disjoint(fk: Seq<Vec<EdgeKey>>, groups: Seq<Seq<usize>>, g: int, h: int, y: int)
    requires
        components_ok(fk, groups),
        fk.len() <= usize::MAX,
        0 <= g < groups.len(),
        0 <= h < groups.len(),
        g != h,
        0 <= y < fk.len(),
    ensures
        !(groups[g].contains(y as usize) && groups[h].contains(y as usize)),
{
    if groups[g].contains(y as usize) && groups[h].contains(y as usize) {
        let n = fk.len() as int;
        let all = all_nodes(fk.len());
        let sh = shares_edge(fk);
        let fg = groups[g][0] as int;
        let fh = groups[h][0] as int;
        assert(groups[g].len() >= 1 && groups[h].len() >= 1);
        assert(fg < n && fh < n);
        assert(face_connected(fk, fg, y));
        assert(face_connected(fk, fh, y));
        assert forall|u: int, v: int| #![trigger sh(u, v)] sh(u, v) implies sh(v, u) by {
            if sh(u, v) {
                let k = choose|k: EdgeKey| #[trigger] lists_key(fk[u]@, k) && lists_key(fk[v]@, k);
                assert(lists_key(fk[v]@, k) && lists_key(fk[u]@, k));
            }
        }
        lemma_rel_reach_symmetric(sh, n, all, fh, y);
        lemma_rel_reach_trans(sh, n, all, fg, y, fh);
        lemma_rel_reach_symmetric(sh, n, all, fg, fh);
        assert(groups[g].contains(fh as usize));
        assert(groups[h].contains(fg as usize));
        let tg = groups[g].index_of(fh as usize);
        let th = groups[h].index_of(fg as usize);
        if tg > 0 {
            assert(groups[g][0] < groups[g][tg]);
        }
        if th > 0 {
            assert(groups[h][0] < groups[h][th]);
        }
        if g < h {
            assert(groups[g][0] < groups[h][0]);
        } else {
            assert(groups[h][0] < groups[g][0]);
        }
    }
}

} // verus!
