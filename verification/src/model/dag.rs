//! The inter-member dependency graph: edge extraction, dirty propagation, and a
//! topological order that isolates cycles.
//!
//! Dependency edges run **clipper → base**: a base that clips against a clipper
//! depends on that clipper's geometry being ready first. The edges are read out
//! of every `Clip` node of a member's tree. Members are addressed here by their
//! position in ascending id order.

use vstd::prelude::*;

use crate::csg::ids::StableId;
use crate::csg::member::Member;
use crate::csg::node::{clipper_ids, distinct_ids, has_id, refs};
use crate::model::graph::{
    adj_view, converse, converse_graph, edge, graph_wf, lemma_reach_rel, lemma_rel_reach_converse,
    reach, reachable, rel_reach,
};
use crate::model::order::{
    all_nodes, cyclic_components, graph_rel, kahn, kahn_order, leftover, lemma_components_rel,
    lemma_cycle_blocks, lemma_cycles_are_global, lemma_kahn_rel, lemma_unplaced_reaches_cycle,
    rel_cyclic_components, rel_on_cycle, strongly_connected,
};
use crate::model::{ids_of, strictly_sorted, Model};

verus! {

/// The member at position `i` lists the member at position `j` as a clipper:
/// `i` depends on `j`.
pub open spec fn dep_at<L, K, B>(s: Seq<(StableId, Member<L, K, B>)>, i: int, j: int) -> bool {
    refs(s[i].1.tree(), s[j].0.0)
}

/// The dependency relation of a member list.
pub open spec fn dep_rel<L, K, B>(s: Seq<(StableId, Member<L, K, B>)>) -> spec_fn(int, int) -> bool {
    |i: int, j: int| dep_at(s, i, j)
}

/// The member at position `a` depends on the member at position `b`, directly
/// or through a chain of clips (or `a == b`).
pub open spec fn depends<L, K, B>(s: Seq<(StableId, Member<L, K, B>)>, a: int, b: int) -> bool {
    rel_reach(dep_rel(s), s.len() as int, all_nodes(s.len()), a, b)
}

/// Whether `v` holds the id `k` (executable).
fn contains_id(v: &Vec<StableId>, k: u64) -> (r: bool)
    ensures
        r == has_id(v@, k),
{
    let mut i: usize = 0;
    while i < v.len()
        invariant
            i <= v.len(),
            forall|j: int| 0 <= j < i ==> v@[j].0 != k,
        decreases v.len() - i,
    {
        if v[i].0 == k {
            return true;
        }
        i = i + 1;
    }
    false
}

impl<L, K, B> Model<L, K, B> {
    /// The positions of the members that the member at position `i` clips
    /// against, ascending. A clipper id absent from the model is left out (it
    /// is reported when the member is evaluated, not here).
    pub fn deps_of(&self, i: usize) -> (r: Vec<usize>)
        requires
            self.wf(),
            i < self.entries().len(),
        ensures
            forall|k: int| 0 <= k < r.len() ==> #[trigger] r@[k] < self.entries().len(),
            forall|j: int|
                0 <= j < self.entries().len() ==> (#[trigger] r@.contains(j as usize) <==> dep_at(
                    self.entries(),
                    i as int,
                    j,
                )),
    {
        let mut ids: Vec<StableId> = Vec::new();
        clipper_ids(self.members[i].1.csg(), &mut ids);
        let n = self.members.len();
        let mut r: Vec<usize> = Vec::new();
        let mut j: usize = 0;
        while j < n
            invariant
                n == self.members.len(),
                j <= n,
                forall|k: u64| has_id(ids@, k) <==> refs(self.members@[i as int].1.tree(), k),
                forall|k: int| 0 <= k < r.len() ==> #[trigger] r@[k] < j,
                forall|y: int|
                    0 <= y < n ==> (#[trigger] r@.contains(y as usize) <==> (y < j && dep_at(
                        self.members@,
                        i as int,
                        y,
                    ))),
            decreases n - j,
        {
            let ghost r0 = r@;
            if contains_id(&ids, self.members[j].0.0) {
                r.push(j);
            }
            proof {
                assert forall|y: int| 0 <= y < n implies (#[trigger] r@.contains(y as usize) <==> (y
                    < j + 1 && dep_at(self.members@, i as int, y))) by {
                    if r0.contains(j) {
                        let t = r0.index_of(j);
                        assert(r0[t] < j);
                    }
                    if r@.len() > r0.len() {
                        assert(r@ == r0.push(j));
                        if y == j as int {
                            assert(r@[r0.len() as int] == j);
                        } else if r@.contains(y as usize) {
                            let t = r@.index_of(y as usize);
                            assert(t < r0.len());
                            assert(r0[t] == y as usize);
                            assert(r0.contains(y as usize));
                        } else if r0.contains(y as usize) {
                            let t = r0.index_of(y as usize);
                            assert(r@[t] == y as usize);
                        }
                    } else {
                        assert(r@ == r0);
                    }
                }
            }
            j = j + 1;
        }
        r
    }

    /// The dependency graph of the model as adjacency lists: position `i`
    /// lists every position whose member `i` clips against.
    pub fn adjacency(&self) -> (adj: Vec<Vec<usize>>)
        requires
            self.wf(),
        ensures
            adj.len() == self.entries().len(),
            graph_wf(adj_view(adj@)),
            forall|i: int, j: int|
                #![trigger edge(adj_view(adj@), i, j)]
                0 <= i < adj.len() && 0 <= j < adj.len() ==> (edge(adj_view(adj@), i, j) <==> dep_at(
                    self.entries(),
                    i,
                    j,
                )),
    {
        let n = self.members.len();
        let mut adj: Vec<Vec<usize>> = Vec::new();
        let mut i: usize = 0;
        while i < n
            invariant
                self.wf(),
                n == self.members.len(),
                i <= n,
                adj.len() == i,
                forall|x: int, k: int| 0 <= x < i && 0 <= k < adj@[x]@.len() ==> #[trigger] adj@[x]@[k] < n,
                forall|x: int, y: int|
                    0 <= x < i && 0 <= y < n ==> (#[trigger] adj@[x]@.contains(y as usize) <==> dep_at(
                        self.members@,
                        x,
                        y,
                    )),
            decreases n - i,
        {
            let row = self.deps_of(i);
            adj.push(row);
            i = i + 1;
        }
        proof {
            let g = adj_view(adj@);
            assert forall|x: int, k: int| 0 <= x < g.len() && 0 <= k < g[x].len() implies #[trigger] g[x][k] < g.len() by {
                assert(g[x] == adj@[x]@);
            }
            assert forall|x: int, y: int|
                0 <= x < adj.len() && 0 <= y < adj.len() implies (edge(g, x, y) <==> dep_at(self.members@, x, y)) by {
                assert(g[x] == adj@[x]@);
            }
        }
        adj
    }
}

/// Member `a` is a dependent of member `p`: it is another member that
/// depends on `p`, directly or through a chain of clips.
pub open spec fn is_dependent<L, K, B>(s: Seq<(StableId, Member<L, K, B>)>, a: int, p: int) -> bool {
    0 <= a < s.len() && 0 <= p < s.len() && a != p && depends(s, a, p)
}

/// The position of member id `k` in a member list.
pub open spec fn pos_of<L, K, B>(s: Seq<(StableId, Member<L, K, B>)>, k: u64) -> int {
    ids_of(s).index_of(k)
}

/// In a list sorted by id, the position of each member's id is its own.
pub(crate) proof fn lemma_pos_of<L, K, B>(s: Seq<(StableId, Member<L, K, B>)>)
    requires
        strictly_sorted(s),
    ensures
        forall|i: int| 0 <= i < s.len() ==> #[trigger] pos_of(s, s[i].0.0) == i,
{
    assert forall|i: int| 0 <= i < s.len() implies #[trigger] pos_of(s, s[i].0.0) == i by {
        let ids = ids_of(s);
        assert(ids[i] == s[i].0.0);
        let j = ids.index_of(s[i].0.0);
        assert(ids[j] == s[i].0.0);
        if j < i {
            assert(s[j].0.0 < s[i].0.0);
        } else if j > i {
            assert(s[i].0.0 < s[j].0.0);
        }
    }
}

/// The all-true mask of length `n`.
fn all_true(n: usize) -> (m: Vec<bool>)
    ensures
        m@ == all_nodes(n as nat),
{
    let mut m: Vec<bool> = Vec::new();
    let mut i: usize = 0;
    while i < n
        invariant
            i <= n,
            m.len() == i,
            forall|w: int| 0 <= w < i ==> m[w],
        decreases n - i,
    {
        m.push(true);
        i = i + 1;
    }
    assert(m@ =~= all_nodes(n as nat));
    m
}

impl<L, K, B> Model<L, K, B> {
    /// The members that depend on member `id`, directly or transitively, in
    /// ascending id order; `id` itself is never listed, and an id absent from
    /// the model has no dependents.
    pub fn dependents_closure(&self, id: StableId) -> (r: Vec<StableId>)
        requires
            self.wf(),
        ensures
            forall|i: int, j: int| 0 <= i < j < r.len() ==> r@[i].0 < r@[j].0,
            forall|k: int|
                0 <= k < r.len() ==> #[trigger] ids_of(self.entries()).contains(r@[k].0),
            forall|a: int|
                0 <= a < self.entries().len() ==> (#[trigger] r@.contains(self.entries()[a].0) <==> (
                ids_of(self.entries()).contains(id.0) && is_dependent(
                    self.entries(),
                    a,
                    pos_of(self.entries(), id.0),
                ))),
    {
        let ghost s = self.members@;
        let n = self.members.len();
        proof {
            lemma_pos_of(s);
        }
        let mut r: Vec<StableId> = Vec::new();
        let mut p: usize = 0;
        while p < n && self.members[p].0.0 != id.0
            invariant
                s == self.members@,
                n == s.len(),
                p <= n,
                forall|j: int| 0 <= j < p ==> s[j].0.0 != id.0,
            decreases n - p,
        {
            p = p + 1;
        }
        if p == n {
            proof {
                assert(!ids_of(s).contains(id.0)) by {
                    if ids_of(s).contains(id.0) {
                        let j = ids_of(s).index_of(id.0);
                        assert(ids_of(s)[j] == s[j].0.0);
                    }
                }
            }
            return r;
        }
        let adj = self.adjacency();
        let ghost g = adj_view(adj@);
        let rev = converse_graph(&adj);
        let ghost rg = adj_view(rev@);
        let allowed = all_true(n);
        let marked = reachable(&rev, &allowed, p);
        proof {
            let rel = dep_rel(s);
            assert(ids_of(s)[p as int] == id.0);
            assert(pos_of(s, id.0) == p as int) by {
                assert(pos_of(s, s[p as int].0.0) == p as int);
            }
            assert forall|x: int, y: int| 0 <= x < n && 0 <= y < n implies (edge(rg, x, y) <==> converse(rel)(x, y)) by {
                assert(edge(rg, x, y) <==> edge(g, y, x));
                assert(edge(g, y, x) <==> dep_at(s, y, x));
            }
            assert forall|a: int| 0 <= a < n implies (#[trigger] marked[a] <==> depends(s, a, p as int)) by {
                lemma_reach_rel(rg, converse(rel), allowed@, p as int, a);
                lemma_rel_reach_converse(rel, n as int, allowed@, p as int, a);
            }
        }
        let mut a: usize = 0;
        let ghost mut ps: Seq<int> = Seq::empty();
        while a < n
            invariant
                s == self.members@,
                n == s.len(),
                marked.len() == n,
                p < n,
                pos_of(s, id.0) == p as int,
                ids_of(s).contains(id.0),
                strictly_sorted(s),
                forall|x: int| 0 <= x < n ==> (#[trigger] marked[x] <==> depends(s, x, p as int)),
                a <= n,
                forall|i: int, j: int| 0 <= i < j < r.len() ==> r@[i].0 < r@[j].0,
                ps.len() == r.len(),
                forall|k: int| 0 <= k < r.len() ==> 0 <= #[trigger] ps[k] < a && r@[k] == s[ps[k]].0,
                forall|x: int|
                    0 <= x < n ==> (#[trigger] r@.contains(s[x].0) <==> (x < a && is_dependent(s, x, p as int))),
            decreases n - a,
        {
            let ghost r0 = r@;
            let ghost ps0 = ps;
            if marked[a] && a != p {
                r.push(self.members[a].0);
                proof {
                    ps = ps.push(a as int);
                }
            }
            proof {
                assert forall|i: int, j: int| 0 <= i < j < r.len() implies r@[i].0 < r@[j].0 by {
                    if j == r0.len() {
                        assert(r@[i] == r0[i]);
                        assert(ps[i] == ps0[i]);
                        assert(s[ps0[i]].0.0 < s[a as int].0.0);
                    } else {
                        assert(r@[i] == r0[i] && r@[j] == r0[j]);
                    }
                }
                assert forall|x: int| 0 <= x < n implies (#[trigger] r@.contains(s[x].0) <==> (x < a + 1 && is_dependent(s, x, p as int))) by {
                    if r@.len() > r0.len() {
                        assert(r@ == r0.push(s[a as int].0));
                        if x == a as int {
                            assert(r@[r0.len() as int] == s[x].0);
                        } else {
                            if r0.contains(s[x].0) {
                                let t = r0.index_of(s[x].0);
                                assert(r@[t] == s[x].0);
                            }
                            if r@.contains(s[x].0) {
                                let t = r@.index_of(s[x].0);
                                if t == r0.len() {
                                    assert(s[a as int].0 == s[x].0);
                                    if x < a {
                                        assert(s[x].0.0 < s[a as int].0.0);
                                    } else {
                                        assert(s[a as int].0.0 < s[x].0.0);
                                    }
                                } else {
                                    assert(r0[t] == s[x].0);
                                }
                            }
                        }
                    } else {
                        assert(r@ == r0);
                        if x == a as int && r0.contains(s[x].0) {
                            let t = r0.index_of(s[x].0);
                            assert(s[ps0[t]].0.0 < s[a as int].0.0);
                        }
                    }
                }
            }
            a = a + 1;
        }
        proof {
            assert forall|k: int| 0 <= k < r.len() implies #[trigger] ids_of(s).contains(r@[k].0) by {
                assert(ids_of(s)[ps[k]] == r@[k].0);
            }
        }
        r
    }

    /// Mark stale every member whose id is listed in `ids`.
    fn mark_stale_ids(&mut self, ids: &Vec<StableId>)
        requires
            old(self).wf(),
        ensures
            final(self).wf(),
            final(self).entries().len() == old(self).entries().len(),
            forall|a: int|
                #![trigger final(self).entries()[a]]
                0 <= a < old(self).entries().len() ==> final(self).entries()[a].0 == old(
                    self,
                ).entries()[a].0 && final(self).entries()[a].1.tree() == old(self).entries()[a].1.tree()
                    && final(self).entries()[a].1.stale() == (old(self).entries()[a].1.stale()
                    || ids@.contains(old(self).entries()[a].0)),
        forall|a: int|
            #![trigger final(self).entries()[a]]
            0 <= a < old(self).entries().len() ==> final(self).entries()[a].1.same_cache(old(self).entries()[a].1),
    {
        let ghost s = self.entries();
        proof {
            assert(ids@.take(0) =~= Seq::<StableId>::empty());
        }
        let mut k: usize = 0;
        while k < ids.len()
            invariant
                self.wf(),
                strictly_sorted(s),
                self.entries().len() == s.len(),
                k <= ids.len(),
                forall|a: int|
                    #![trigger self.entries()[a]]
                    0 <= a < s.len() ==> self.entries()[a].0 == s[a].0 && self.entries()[a].1.tree()
                        == s[a].1.tree() && self.entries()[a].1.stale() == (s[a].1.stale()
                        || ids@.take(k as int).contains(s[a].0)),
                forall|a: int|
                    #![trigger self.entries()[a]]
                    0 <= a < s.len() ==> self.entries()[a].1.same_cache(s[a].1),
            decreases ids.len() - k,
        {
            let d = ids[k];
            let ghost e0 = self.entries();
            let ghost tk = ids@.take(k as int);
            let ghost tk1 = ids@.take(k + 1);
            proof {
                assert(tk1 =~= tk.push(d));
            }
            match self.find(d) {
                Ok(q) => {
                    self.mark_stale_at(q);
                    proof {
                        assert forall|a: int| #![trigger self.entries()[a]] 0 <= a < s.len() implies self.entries()[a].0 == e0[a].0
                            && self.entries()[a].1.stale() == (e0[a].1.stale() || a == q) by {}
                        assert(e0[q as int].0 == s[q as int].0);
                        assert forall|a: int| 0 <= a < s.len() implies (tk1.contains(s[a].0) <==> (tk.contains(
                            s[a].0,
                        ) || a == q)) by {
                            if a == q as int {
                                assert(tk1[k as int] == s[a].0);
                            }
                            if tk.contains(s[a].0) {
                                let t = tk.index_of(s[a].0);
                                assert(tk1[t] == s[a].0);
                            }
                            if tk1.contains(s[a].0) {
                                let t = tk1.index_of(s[a].0);
                                if t == k {
                                    assert(s[a].0.0 == s[q as int].0.0);
                                    if a < q {
                                        assert(s[a].0.0 < s[q as int].0.0);
                                    } else if a > q {
                                        assert(s[q as int].0.0 < s[a].0.0);
                                    }
                                } else {
                                    assert(tk[t] == s[a].0);
                                }
                            }
                        }
                        assert forall|a: int| #![trigger self.entries()[a]] 0 <= a < s.len() implies self.entries()[a].0 == s[a].0
                            && self.entries()[a].1.tree() == s[a].1.tree() && self.entries()[a].1.stale() == (
                            s[a].1.stale() || tk1.contains(s[a].0)) by {
                            assert(e0[a].0 == s[a].0);
                            assert(e0[a].1.tree() == s[a].1.tree());
                            assert(e0[a].1.stale() == (s[a].1.stale() || tk.contains(s[a].0)));
                            assert(tk1.contains(s[a].0) <==> (tk.contains(s[a].0) || a == q));
                            assert(self.entries()[a].0 == e0[a].0);
                            assert(self.entries()[a].1.stale() == (e0[a].1.stale() || a == q));
                        }
                    }
                },
                Err(_) => {
                    proof {
                        assert forall|a: int| 0 <= a < s.len() implies (tk1.contains(s[a].0) <==> tk.contains(
                            s[a].0,
                        )) by {
                            assert(e0[a].0 == s[a].0);
                            if tk.contains(s[a].0) {
                                let t = tk.index_of(s[a].0);
                                assert(tk1[t] == s[a].0);
                            }
                            if tk1.contains(s[a].0) {
                                let t = tk1.index_of(s[a].0);
                                if t < k {
                                    assert(tk[t] == s[a].0);
                                } else {
                                    assert(self.members@[a].0.0 == d.0);
                                }
                            }
                        }
                        assert forall|a: int| #![trigger self.entries()[a]] 0 <= a < s.len() implies self.entries()[a].0 == s[a].0
                            && self.entries()[a].1.tree() == s[a].1.tree() && self.entries()[a].1.stale() == (
                            s[a].1.stale() || tk1.contains(s[a].0)) by {
                            assert(e0[a].0 == s[a].0);
                            assert(tk1.contains(s[a].0) <==> tk.contains(s[a].0));
                        }
                    }
                },
            }
            k = k + 1;
        }
        proof {
            assert(ids@.take(ids.len() as int) =~= ids@);
        }
    }

    /// Mark member `id` stale and propagate the invalidation to every member
    /// that depends on it, transitively: a member clipping against `id`, a
    /// member clipping against that one, and so on. Ids, trees and caches
    /// (the cached result, the last valid B-rep and its tolerance) are left as
    /// they were; a missing id changes nothing.
    pub fn mark_dirty(&mut self, id: StableId)
        requires
            old(self).wf(),
        ensures
            final(self).wf(),
            final(self).entries().len() == old(self).entries().len(),
            forall|a: int|
                #![trigger final(self).entries()[a]]
                0 <= a < old(self).entries().len() ==> final(self).entries()[a].0 == old(
                    self,
                ).entries()[a].0 && final(self).entries()[a].1.tree() == old(self).entries()[a].1.tree()
                    && final(self).entries()[a].1.stale() == (old(self).entries()[a].1.stale() || (
                ids_of(old(self).entries()).contains(id.0) && depends(
                    old(self).entries(),
                    a,
                    pos_of(old(self).entries(), id.0),
                ))),
        forall|a: int|
            #![trigger final(self).entries()[a]]
            0 <= a < old(self).entries().len() ==> final(self).entries()[a].1.same_cache(old(self).entries()[a].1),
        !ids_of(old(self).entries()).contains(id.0) ==> final(self).entries() == old(self).entries(),
    {
        let ghost s = self.entries();
        let dependents = self.dependents_closure(id);
        proof {
            lemma_pos_of(s);
        }
        match self.find(id) {
            Err(_) => {
                proof {
                    assert(!ids_of(s).contains(id.0)) by {
                        if ids_of(s).contains(id.0) {
                            let j = ids_of(s).index_of(id.0);
                            assert(ids_of(s)[j] == s[j].0.0);
                        }
                    }
                }
            },
            Ok(p) => {
                proof {
                    assert(ids_of(s)[p as int] == id.0);
                    assert(pos_of(s, s[p as int].0.0) == p as int);
                    assert(ids_of(s).contains(id.0));
                }
                self.mark_stale_at(p);
                let ghost e1 = self.entries();
                self.mark_stale_ids(&dependents);
                proof {
                    assert forall|a: int| #![trigger self.entries()[a]] 0 <= a < s.len() implies self.entries()[a].0 == s[a].0
                        && self.entries()[a].1.tree() == s[a].1.tree() && self.entries()[a].1.stale() == (
                        s[a].1.stale() || (ids_of(s).contains(id.0) && depends(s, a, pos_of(s, id.0)))) by {
                        assert(e1[a].0 == s[a].0);
                        assert(self.entries()[a].0 == e1[a].0);
                        assert(e1[a].1.stale() == (s[a].1.stale() || a == p));
                        assert(self.entries()[a].1.stale() == (e1[a].1.stale() || dependents@.contains(e1[a].0)));
                        assert(dependents@.contains(s[a].0) <==> is_dependent(s, a, p as int));
                        if a == p {
                            lemma_depends_refl(s, p as int);
                        }
                    }
                }
            },
        }
    }
}

/// The result of ordering the members for evaluation.
#[derive(Debug)]
pub struct EvalOrder {
    /// The members that no dependency cycle holds up, each after every member
    /// it clips against.
    pub acyclic: Vec<StableId>,
    /// The dependency cycles among the members left over: each strongly
    /// connected component of more than one member, or of a member clipping
    /// against itself, sorted ascending.
    pub cycles: Vec<Vec<StableId>>,
}

/// The positions of a list of member ids.
pub open spec fn positions<L, K, B>(s: Seq<(StableId, Member<L, K, B>)>, ids: Seq<StableId>) -> Seq<usize> {
    ids.map_values(|x: StableId| pos_of(s, x.0) as usize)
}

/// The positions of the members that `placed` does not list.
pub open spec fn unplaced<L, K, B>(s: Seq<(StableId, Member<L, K, B>)>, placed: Seq<StableId>) -> Seq<bool> {
    Seq::new(s.len(), |v: int| !placed.contains(s[v].0))
}

impl<L, K, B> Model<L, K, B> {
    /// The ids of the members at the given positions.
    fn ids_at(&self, ps: &Vec<usize>) -> (r: Vec<StableId>)
        requires
            forall|k: int| 0 <= k < ps.len() ==> #[trigger] ps@[k] < self.entries().len(),
        ensures
            r.len() == ps.len(),
            forall|k: int| 0 <= k < ps.len() ==> #[trigger] r@[k] == self.entries()[ps@[k] as int].0,
    {
        let mut r: Vec<StableId> = Vec::new();
        let mut k: usize = 0;
        while k < ps.len()
            invariant
                forall|k: int| 0 <= k < ps.len() ==> #[trigger] ps@[k] < self.entries().len(),
                k <= ps.len(),
                r.len() == k,
                forall|j: int| 0 <= j < k ==> #[trigger] r@[j] == self.entries()[ps@[j] as int].0,
            decreases ps.len() - k,
        {
            r.push(self.members[ps[k]].0);
            k = k + 1;
        }
        r
    }

    /// Order the members so that every member comes after the members it
    /// clips against (Kahn's algorithm, the smallest ready id first), and
    /// group the members it cannot place into their dependency cycles.
    pub fn topological_order(&self) -> (r: EvalOrder)
        requires
            self.wf(),
        ensures
            forall|k: int| 0 <= k < r.acyclic.len() ==> #[trigger] ids_of(self.entries()).contains(r.acyclic@[k].0),
            kahn_order(dep_rel(self.entries()), self.entries().len() as int, positions(self.entries(), r.acyclic@)),
            forall|i: int, k: int|
                0 <= i < r.cycles.len() && 0 <= k < r.cycles@[i].len() ==> #[trigger] ids_of(
                    self.entries(),
                ).contains(r.cycles@[i]@[k].0),
            rel_cyclic_components(
                dep_rel(self.entries()),
                self.entries().len() as int,
                unplaced(self.entries(), r.acyclic@),
                r.cycles@.map_values(|c: Vec<StableId>| positions(self.entries(), c@)),
            ),
    {
        let ghost s = self.entries();
        let n = self.members.len();
        proof {
            lemma_pos_of(s);
        }
        let adj = self.adjacency();
        let ghost g = adj_view(adj@);
        let order = kahn(&adj);
        let mut left: Vec<bool> = all_true(n);
        let mut k: usize = 0;
        while k < order.len()
            invariant
                n == s.len(),
                left.len() == n,
                k <= order.len(),
                forall|j: int| 0 <= j < order.len() ==> #[trigger] order@[j] < n,
                forall|x: int| 0 <= x < n ==> (#[trigger] left[x] <==> !order@.take(k as int).contains(x as usize)),
            decreases order.len() - k,
        {
            let ghost l0 = left@;
            left.set(order[k], false);
            proof {
                let t0 = order@.take(k as int);
                let t1 = order@.take(k + 1);
                assert(t1 =~= t0.push(order@[k as int]));
                assert forall|x: int| 0 <= x < n implies (#[trigger] left[x] <==> !t1.contains(x as usize)) by {
                    if t0.contains(x as usize) {
                        let t = t0.index_of(x as usize);
                        assert(t1[t] == x as usize);
                    }
                    if t1.contains(x as usize) {
                        let t = t1.index_of(x as usize);
                        if t < k {
                            assert(t0[t] == x as usize);
                        }
                    }
                    if x == order@[k as int] as int {
                        assert(t1[k as int] == x as usize);
                    }
                }
            }
            k = k + 1;
        }
        let comps = strongly_connected(&adj, &left);
        let acyclic = self.ids_at(&order);
        let mut cycles: Vec<Vec<StableId>> = Vec::new();
        let mut i: usize = 0;
        while i < comps.len()
            invariant
                s == self.entries(),
                n == s.len(),
                strictly_sorted(s),
                forall|i: int| 0 <= i < s.len() ==> #[trigger] pos_of(s, s[i].0.0) == i,
                graph_wf(g),
                g == adj_view(adj@),
                g.len() == n,
                cyclic_components(g, left@, adj_view(comps@)),
                i <= comps.len(),
                cycles.len() == i,
                forall|j: int| 0 <= j < i ==> #[trigger] positions(s, cycles@[j]@) == comps@[j]@,
                forall|j: int, k: int| 0 <= j < i && 0 <= k < cycles@[j].len() ==> #[trigger] ids_of(s).contains(cycles@[j]@[k].0),
            decreases comps.len() - i,
        {
            proof {
                let c = adj_view(comps@)[i as int];
                assert(c == comps@[i as int]@);
                assert forall|k: int| 0 <= k < comps@[i as int].len() implies #[trigger] comps@[i as int]@[k] < s.len() by {
                    assert(c[k] < g.len());
                }
            }
            let c = self.ids_at(&comps[i]);
            proof {
                assert forall|k: int| 0 <= k < c.len() implies #[trigger] positions(s, c@)[k] == comps@[i as int]@[k] by {
                    let x = comps@[i as int]@[k] as int;
                    assert(c@[k] == s[x].0);
                    assert(pos_of(s, s[x].0.0) == x);
                }
                assert(positions(s, c@) =~= comps@[i as int]@);
                assert forall|k: int| 0 <= k < c.len() implies #[trigger] ids_of(s).contains(c@[k].0) by {
                    let x = comps@[i as int]@[k] as int;
                    assert(ids_of(s)[x] == c@[k].0);
                }
            }
            let ghost cy0 = cycles@;
            cycles.push(c);
            proof {
                assert forall|j: int| 0 <= j < i + 1 implies #[trigger] positions(s, cycles@[j]@) == comps@[j]@ by {
                    if j < i {
                        assert(cycles@[j] == cy0[j]);
                    }
                }
                assert forall|j: int, k: int| 0 <= j < i + 1 && 0 <= k < cycles@[j].len() implies #[trigger] ids_of(s).contains(cycles@[j]@[k].0) by {
                    if j < i {
                        assert(cycles@[j] == cy0[j]);
                        assert(ids_of(s).contains(cy0[j]@[k].0));
                    } else {
                        assert(cycles@[j] == c);
                        assert(ids_of(s).contains(c@[k].0));
                    }
                }
            }
            i = i + 1;
        }
        proof {
            let rel = dep_rel(s);
            assert forall|a: int, b: int|
                #![trigger graph_rel(g)(a, b)]
                #![trigger rel(a, b)]
                0 <= a < n && 0 <= b < n implies (graph_rel(g)(a, b) <==> rel(a, b)) by {
                assert(edge(g, a, b) <==> dep_at(s, a, b));
            }
            lemma_kahn_rel(graph_rel(g), rel, n as int, order@);
            assert(positions(s, acyclic@) =~= order@) by {
                assert forall|k: int| 0 <= k < order.len() implies #[trigger] positions(s, acyclic@)[k] == order@[k] by {
                    assert(acyclic@[k] == s[order@[k] as int].0);
                }
            }
            assert forall|k: int| 0 <= k < acyclic.len() implies #[trigger] ids_of(s).contains(acyclic@[k].0) by {
                assert(ids_of(s)[order@[k] as int] == acyclic@[k].0);
            }
            assert(order@.take(order.len() as int) =~= order@);
            assert(unplaced(s, acyclic@) =~= left@) by {
                assert forall|x: int| 0 <= x < n implies #[trigger] unplaced(s, acyclic@)[x] == left@[x] by {
                    if acyclic@.contains(s[x].0) {
                        let t = acyclic@.index_of(s[x].0);
                        assert(acyclic@[t] == s[order@[t] as int].0);
                        let y = order@[t] as int;
                        if y < x {
                            assert(s[y].0.0 < s[x].0.0);
                        } else if y > x {
                            assert(s[x].0.0 < s[y].0.0);
                        }
                        assert(order@[t] == x as usize);
                    }
                    if order@.contains(x as usize) {
                        let t = order@.index_of(x as usize);
                        assert(acyclic@[t] == s[x].0);
                    }
                }
            }
            assert forall|i: int, j: int| 0 <= i < n && 0 <= j < n implies (edge(g, i, j) <==> rel(i, j)) by {
                assert(edge(g, i, j) <==> dep_at(s, i, j));
            }
            lemma_components_rel(g, rel, left@, adj_view(comps@));
            assert(cycles@.map_values(|c: Vec<StableId>| positions(s, c@)) =~= adj_view(comps@));
        }
        EvalOrder { acyclic, cycles }
    }
}

/// Evaluation isolates dependency cycles: the acyclic order holds exactly the
/// members that depend on no member lying on a dependency cycle (themselves
/// included), and the reported cycles are the cyclic strongly connected
/// components of the whole dependency graph.
pub proof fn lemma_order_isolates_cycles<L, K, B>(
    s: Seq<(StableId, Member<L, K, B>)>,
    acyclic: Seq<StableId>,
    cycles: Seq<Seq<usize>>,
)
    requires
        strictly_sorted(s),
        s.len() <= usize::MAX,
        forall|k: int| 0 <= k < acyclic.len() ==> #[trigger] ids_of(s).contains(acyclic[k].0),
        kahn_order(dep_rel(s), s.len() as int, positions(s, acyclic)),
        rel_cyclic_components(dep_rel(s), s.len() as int, unplaced(s, acyclic), cycles),
    ensures
        forall|v: int|
            0 <= v < s.len() ==> (#[trigger] acyclic.contains(s[v].0) <==> !exists|c: int|
                #[trigger] rel_on_cycle(dep_rel(s), s.len() as int, all_nodes(s.len()), c) && depends(s, v, c)),
        rel_cyclic_components(dep_rel(s), s.len() as int, all_nodes(s.len()), cycles),
{
    let n = s.len() as int;
    let rel = dep_rel(s);
    let out = positions(s, acyclic);
    lemma_pos_of(s);
    assert forall|v: int| 0 <= v < n implies (#[trigger] acyclic.contains(s[v].0) <==> out.contains(v as usize)) by {
        if acyclic.contains(s[v].0) {
            let t = acyclic.index_of(s[v].0);
            assert(out[t] == v as usize);
        }
        if out.contains(v as usize) {
            let t = out.index_of(v as usize);
            assert(ids_of(s).contains(acyclic[t].0));
            let j = ids_of(s).index_of(acyclic[t].0);
            assert(ids_of(s)[j] == acyclic[t].0);
            assert(pos_of(s, acyclic[t].0) == j);
            assert(s[j].0.0 == acyclic[t].0);
            assert(j == v);
        }
    }
    assert(unplaced(s, acyclic) =~= leftover(s.len(), out));
    lemma_cycles_are_global(rel, n, out, cycles);
    assert forall|v: int| 0 <= v < n implies (#[trigger] acyclic.contains(s[v].0) <==> !exists|c: int|
        #[trigger] rel_on_cycle(rel, n, all_nodes(s.len()), c) && depends(s, v, c)) by {
        if exists|c: int| #[trigger] rel_on_cycle(rel, n, all_nodes(s.len()), c) && depends(s, v, c) {
            let c = choose|c: int| #[trigger] rel_on_cycle(rel, n, all_nodes(s.len()), c) && depends(s, v, c);
            lemma_cycle_blocks(rel, n, all_nodes(s.len()), out, v, c);
        }
        if !out.contains(v as usize) {
            lemma_unplaced_reaches_cycle(rel, n, all_nodes(s.len()), out, v);
        }
    }
}

/// Every member depends on itself.
proof fn lemma_depends_refl<L, K, B>(s: Seq<(StableId, Member<L, K, B>)>, p: int)
    requires
        0 <= p < s.len(),
    ensures
        depends(s, p, p),
{
    let path = seq![p];
    assert(crate::model::graph::is_rel_path(dep_rel(s), s.len() as int, all_nodes(s.len()), path));
}

} // verus!
