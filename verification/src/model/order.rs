//! Evaluation order over a dependency graph: Kahn's algorithm placing the
//! smallest ready node first, and the cyclic strongly connected components of
//! whatever it cannot place.
//!
//! An edge `a → b` reads "`a` depends on `b`": `b` must be placed before `a`.

use vstd::prelude::*;

use crate::model::graph::{
    adj_view, converse, converse_graph, count_true, edge, graph_wf, is_path, lemma_count_all_false,
    lemma_count_true_bound, lemma_count_true_set, lemma_reach_refl, lemma_reach_rel,
    lemma_reach_trans, lemma_rel_reach_converse, lemma_rel_reach_trans, reach, reachable, rel_reach,
    is_rel_path,
};

verus! {

/// The edge relation of a graph.
pub open spec fn graph_rel(g: Seq<Seq<usize>>) -> spec_fn(int, int) -> bool {
    |a: int, b: int| edge(g, a, b)
}

/// Node `v` of `0..n` is ready once the nodes of `done` are placed: it is not
/// placed itself and every node it depends on is.
pub open spec fn ready(rel: spec_fn(int, int) -> bool, n: int, done: Seq<usize>, v: int) -> bool {
    &&& 0 <= v < n
    &&& !done.contains(v as usize)
    &&& forall|j: int| #![trigger rel(v, j)] 0 <= j < n && rel(v, j) ==> done.contains(j as usize)
}

/// `out` places one node at a time, always the smallest node ready at that
/// turn, and stops only when no node is ready.
pub open spec fn kahn_order(rel: spec_fn(int, int) -> bool, n: int, out: Seq<usize>) -> bool {
    &&& forall|k: int| 0 <= k < out.len() ==> #[trigger] ready(rel, n, out.take(k), out[k] as int)
    &&& forall|k: int, w: int|
        #![trigger ready(rel, n, out.take(k), w), out[k]]
        0 <= k < out.len() && ready(rel, n, out.take(k), w) ==> out[k] <= w
    &&& forall|w: int| !(#[trigger] ready(rel, n, out, w))
}

/// The smallest node that is ready when exactly the nodes of `done` are
/// placed (`placed` is the mask of `done`).
fn first_ready(adj: &Vec<Vec<usize>>, placed: &Vec<bool>, Ghost(done): Ghost<Seq<usize>>) -> (r:
    Option<usize>)
    requires
        graph_wf(adj_view(adj@)),
        placed.len() == adj.len(),
        forall|x: int| 0 <= x < adj.len() ==> (#[trigger] placed[x] <==> done.contains(x as usize)),
    ensures
        match r {
            Some(v) => ready(graph_rel(adj_view(adj@)), adj.len() as int, done, v as int) && forall|w: int|
                #[trigger] ready(graph_rel(adj_view(adj@)), adj.len() as int, done, w) ==> v <= w,
            None => forall|w: int| !#[trigger] ready(graph_rel(adj_view(adj@)), adj.len() as int, done, w),
        },
{
    let ghost g = adj_view(adj@);
    let ghost rel = graph_rel(g);
    let n = adj.len();
    let mut v: usize = 0;
    while v < n
        invariant
            g == adj_view(adj@),
            rel == graph_rel(g),
            graph_wf(g),
            n == adj.len(),
            placed.len() == n,
            forall|x: int| 0 <= x < n ==> (#[trigger] placed[x] <==> done.contains(x as usize)),
            v <= n,
            forall|w: int| 0 <= w < v ==> !#[trigger] ready(rel, n as int, done, w),
        decreases n - v,
    {
        if !placed[v] {
            let succ = &adj[v];
            let mut ok = true;
            let mut t: usize = 0;
            while t < succ.len()
                invariant
                    g == adj_view(adj@),
                    graph_wf(g),
                    n == adj.len(),
                    placed.len() == n,
                    v < n,
                    *succ == adj@[v as int],
                    t <= succ.len(),
                    ok <==> forall|u: int| 0 <= u < t ==> #[trigger] placed[succ@[u] as int],
                decreases succ.len() - t,
            {
                proof {
                    assert(g[v as int][t as int] == succ@[t as int]);
                }
                if !placed[succ[t]] {
                    ok = false;
                }
                t = t + 1;
            }
            proof {
                assert(g[v as int] == succ@);
                if ok {
                    assert forall|j: int| #![trigger rel(v as int, j)] 0 <= j < n && rel(v as int, j) implies done.contains(j as usize) by {
                        assert(edge(g, v as int, j));
                        let u = succ@.index_of(j as usize);
                        assert(placed[succ@[u] as int]);
                    }
                } else {
                    let u = choose|u: int| 0 <= u < succ.len() && !#[trigger] placed[succ@[u] as int];
                    let j = succ@[u] as int;
                    assert(0 <= j < n);
                    assert(edge(g, v as int, j));
                    assert(rel(v as int, j));
                    assert(!ready(rel, n as int, done, v as int));
                }
            }
            if ok {
                return Some(v);
            }
        }
        v = v + 1;
    }
    None
}

/// Kahn's algorithm: place nodes one at a time, each time the smallest node
/// whose dependencies are all placed, until none is ready. The nodes left out
/// are those that depend, directly or not, on a cycle.
pub fn kahn(adj: &Vec<Vec<usize>>) -> (out: Vec<usize>)
    requires
        graph_wf(adj_view(adj@)),
    ensures
        kahn_order(graph_rel(adj_view(adj@)), adj.len() as int, out@),
        forall|k: int| 0 <= k < out.len() ==> #[trigger] out@[k] < adj.len(),
{
    let ghost g = adj_view(adj@);
    let ghost rel = graph_rel(g);
    let n = adj.len();
    let mut placed: Vec<bool> = Vec::new();
    let mut i: usize = 0;
    while i < n
        invariant
            i <= n,
            placed.len() == i,
            forall|w: int| 0 <= w < i ==> !placed[w],
        decreases n - i,
    {
        placed.push(false);
        i = i + 1;
    }
    proof {
        assert(placed@ == Seq::new(n as nat, |w: int| false));
        lemma_count_all_false(placed@);
    }
    let mut out: Vec<usize> = Vec::new();
    let mut progress = true;
    while progress
        invariant
            g == adj_view(adj@),
            rel == graph_rel(g),
            graph_wf(g),
            n == adj.len(),
            placed.len() == n,
            out.len() == count_true(placed@),
            forall|x: int| 0 <= x < n ==> (#[trigger] placed[x] <==> out@.contains(x as usize)),
            forall|k: int| 0 <= k < out.len() ==> #[trigger] out@[k] < n,
            forall|k: int| 0 <= k < out.len() ==> #[trigger] ready(rel, n as int, out@.take(k), out@[k] as int),
            forall|k: int, w: int|
                #![trigger ready(rel, n as int, out@.take(k), w), out@[k]]
                0 <= k < out.len() && ready(rel, n as int, out@.take(k), w) ==> out@[k] <= w,
            !progress ==> forall|w: int| !(#[trigger] ready(rel, n as int, out@, w)),
        decreases (n - out.len()) * 2 + if progress { 1int } else { 0int },
    {
        proof {
            lemma_count_true_bound(placed@);
        }
        match first_ready(adj, &placed, Ghost(out@)) {
            Some(v) => {
                let ghost o0 = out@;
                let ghost p0 = placed@;
                proof {
                    assert(!placed[v as int]);
                    lemma_count_true_set(placed@, v as int);
                }
                placed.set(v, true);
                out.push(v);
                proof {
                    lemma_count_true_bound(placed@);
                    assert(o0 == out@.take(o0.len() as int));
                    assert forall|k: int| 0 <= k < out.len() implies #[trigger] out@.take(k) == o0.take(k) || k == o0.len() by {
                        if k < o0.len() {
                            assert(out@.take(k) =~= o0.take(k));
                        }
                    }
                    assert forall|x: int| 0 <= x < n implies (#[trigger] placed[x] <==> out@.contains(x as usize)) by {
                        if x == v as int {
                            assert(out@[o0.len() as int] == v);
                        } else {
                            assert(placed[x] == p0[x]);
                            if o0.contains(x as usize) {
                                let t = o0.index_of(x as usize);
                                assert(out@[t] == x as usize);
                            }
                            if out@.contains(x as usize) {
                                let t = out@.index_of(x as usize);
                                assert(t < o0.len());
                                assert(o0[t] == x as usize);
                            }
                        }
                    }
                    assert forall|k: int| 0 <= k < out.len() implies #[trigger] ready(rel, n as int, out@.take(k), out@[k] as int) by {
                        if k < o0.len() {
                            assert(out@.take(k) =~= o0.take(k));
                            assert(out@[k] == o0[k]);
                        } else {
                            assert(out@.take(k) =~= o0);
                        }
                    }
                    assert forall|k: int, w: int|
                        #![trigger ready(rel, n as int, out@.take(k), w), out@[k]]
                        0 <= k < out.len() && ready(rel, n as int, out@.take(k), w) implies out@[k] <= w by {
                        if k < o0.len() {
                            assert(out@.take(k) =~= o0.take(k));
                            assert(out@[k] == o0[k]);
                            assert(ready(rel, n as int, o0.take(k), w));
                        } else {
                            assert(out@.take(k) =~= o0);
                        }
                    }
                }
            },
            None => {
                progress = false;
            },
        }
    }
    out
}

/// `v` and `w` reach each other within `nodes`.
pub open spec fn mutual(g: Seq<Seq<usize>>, nodes: Seq<bool>, v: int, w: int) -> bool {
    reach(g, nodes, v, w) && reach(g, nodes, w, v)
}

/// `v` lies on a cycle of the sub-graph `nodes`: another node shares its
/// strongly connected component, or `v` depends on itself.
pub open spec fn on_cycle(g: Seq<Seq<usize>>, nodes: Seq<bool>, v: int) -> bool {
    &&& 0 <= v < g.len()
    &&& nodes[v]
    &&& (exists|w: int| w != v && #[trigger] mutual(g, nodes, v, w)) || edge(g, v, v)
}

/// `comps` lists the strongly connected components of the sub-graph `nodes`
/// that hold a cycle, each in ascending order, the components ordered by
/// their smallest node.
pub open spec fn cyclic_components(g: Seq<Seq<usize>>, nodes: Seq<bool>, comps: Seq<Seq<usize>>) -> bool {
    &&& forall|i: int|
        0 <= i < comps.len() ==> #[trigger] comps[i].len() >= 1 && on_cycle(g, nodes, comps[i][0] as int)
    &&& forall|i: int, a: int| 0 <= i < comps.len() && 0 <= a < comps[i].len() ==> #[trigger] comps[i][a] < g.len()
    &&& forall|i: int, a: int, b: int|
        0 <= i < comps.len() && 0 <= a < b < comps[i].len() ==> #[trigger] comps[i][a] < #[trigger] comps[i][b]
    &&& forall|i: int, w: int|
        0 <= i < comps.len() && 0 <= w < g.len() ==> (#[trigger] comps[i].contains(w as usize) <==> mutual(
            g,
            nodes,
            comps[i][0] as int,
            w,
        ))
    &&& forall|i: int, j: int| 0 <= i < j < comps.len() ==> #[trigger] comps[i][0] < #[trigger] comps[j][0]
    &&& forall|v: int|
        #[trigger] on_cycle(g, nodes, v) ==> exists|i: int| 0 <= i < comps.len() && #[trigger] comps[i].contains(v as usize)
}

/// `v` and `w` reach each other along `rel` within `nodes`.
pub open spec fn rel_mutual(rel: spec_fn(int, int) -> bool, n: int, nodes: Seq<bool>, v: int, w: int) -> bool {
    rel_reach(rel, n, nodes, v, w) && rel_reach(rel, n, nodes, w, v)
}

/// `v` lies on a cycle of `rel` within `nodes`: another node shares its
/// strongly connected component, or `v` depends on itself.
pub open spec fn rel_on_cycle(rel: spec_fn(int, int) -> bool, n: int, nodes: Seq<bool>, v: int) -> bool {
    &&& 0 <= v < n
    &&& nodes[v]
    &&& (exists|w: int| w != v && #[trigger] rel_mutual(rel, n, nodes, v, w)) || rel(v, v)
}

/// `comps` lists the strongly connected components of `rel` within `nodes`
/// that hold a cycle, each in ascending order, the components ordered by
/// their smallest node.
pub open spec fn rel_cyclic_components(
    rel: spec_fn(int, int) -> bool,
    n: int,
    nodes: Seq<bool>,
    comps: Seq<Seq<usize>>,
) -> bool {
    &&& forall|i: int|
        0 <= i < comps.len() ==> #[trigger] comps[i].len() >= 1 && rel_on_cycle(rel, n, nodes, comps[i][0] as int)
    &&& forall|i: int, a: int| 0 <= i < comps.len() && 0 <= a < comps[i].len() ==> #[trigger] comps[i][a] < n
    &&& forall|i: int, a: int, b: int|
        0 <= i < comps.len() && 0 <= a < b < comps[i].len() ==> #[trigger] comps[i][a] < #[trigger] comps[i][b]
    &&& forall|i: int, w: int|
        0 <= i < comps.len() && 0 <= w < n ==> (#[trigger] comps[i].contains(w as usize) <==> rel_mutual(
            rel,
            n,
            nodes,
            comps[i][0] as int,
            w,
        ))
    &&& forall|i: int, j: int| 0 <= i < j < comps.len() ==> #[trigger] comps[i][0] < #[trigger] comps[j][0]
    &&& forall|v: int|
        #[trigger] rel_on_cycle(rel, n, nodes, v) ==> exists|i: int|
            0 <= i < comps.len() && #[trigger] comps[i].contains(v as usize)
}

/// The components of a graph are those of any relation with the same edges.
pub proof fn lemma_components_rel(
    g: Seq<Seq<usize>>,
    rel: spec_fn(int, int) -> bool,
    nodes: Seq<bool>,
    comps: Seq<Seq<usize>>,
)
    requires
        forall|i: int, j: int| 0 <= i < g.len() && 0 <= j < g.len() ==> (edge(g, i, j) <==> rel(i, j)),
        cyclic_components(g, nodes, comps),
    ensures
        rel_cyclic_components(rel, g.len() as int, nodes, comps),
{
    let n = g.len() as int;
    assert forall|v: int, w: int| #[trigger] rel_mutual(rel, n, nodes, v, w) <==> mutual(g, nodes, v, w) by {
        lemma_reach_rel(g, rel, nodes, v, w);
        lemma_reach_rel(g, rel, nodes, w, v);
    }
    assert forall|v: int| #[trigger] rel_on_cycle(rel, n, nodes, v) <==> on_cycle(g, nodes, v) by {
        if rel_on_cycle(rel, n, nodes, v) && !rel(v, v) {
            let w = choose|w: int| w != v && #[trigger] rel_mutual(rel, n, nodes, v, w);
            assert(mutual(g, nodes, v, w));
        }
        if on_cycle(g, nodes, v) && !edge(g, v, v) {
            let w = choose|w: int| w != v && #[trigger] mutual(g, nodes, v, w);
            assert(rel_mutual(rel, n, nodes, v, w));
        }
    }
}

/// Readiness depends only on the relation within `0..n`.
pub proof fn lemma_kahn_rel(r1: spec_fn(int, int) -> bool, r2: spec_fn(int, int) -> bool, n: int, out: Seq<usize>)
    requires
        forall|i: int, j: int|
            #![trigger r1(i, j)]
            #![trigger r2(i, j)]
            0 <= i < n && 0 <= j < n ==> (r1(i, j) <==> r2(i, j)),
        kahn_order(r1, n, out),
    ensures
        kahn_order(r2, n, out),
{
    assert forall|done: Seq<usize>, v: int| #[trigger] ready(r2, n, done, v) <==> ready(r1, n, done, v) by {
        if 0 <= v < n {
            assert forall|j: int| #![trigger r1(v, j)] #![trigger r2(v, j)] 0 <= j < n implies (r1(v, j) <==> r2(v, j)) by {}
        }
    }
}

/// Reachability in the converse graph is reachability backwards.
proof fn lemma_reach_converse(g: Seq<Seq<usize>>, rg: Seq<Seq<usize>>, nodes: Seq<bool>, v: int, w: int)
    requires
        rg.len() == g.len(),
        forall|a: int, b: int|
            #![trigger edge(rg, a, b)]
            0 <= a < g.len() && 0 <= b < g.len() ==> (edge(rg, a, b) <==> edge(g, b, a)),
    ensures
        reach(rg, nodes, v, w) <==> reach(g, nodes, w, v),
{
    let rel = graph_rel(g);
    assert forall|a: int, b: int| 0 <= a < rg.len() && 0 <= b < rg.len() implies (edge(rg, a, b) <==> converse(rel)(a, b)) by {
        assert(edge(rg, a, b) <==> edge(g, b, a));
    }
    lemma_reach_rel(rg, converse(rel), nodes, v, w);
    lemma_rel_reach_converse(rel, g.len() as int, nodes, v, w);
    lemma_reach_rel(g, rel, nodes, w, v);
}

/// A path starts at an allowed node.
proof fn lemma_reach_start(g: Seq<Seq<usize>>, nodes: Seq<bool>, v: int, w: int)
    requires
        reach(g, nodes, v, w),
    ensures
        0 <= v < g.len(),
        0 <= w < g.len(),
        nodes[v],
        nodes[w],
{
    let p = choose|p: Seq<int>| #[trigger] is_path(g, nodes, p) && p[0] == v && p.last() == w;
    assert(0 <= p[0] < g.len() && nodes[p[0]]);
    assert(0 <= p[p.len() - 1] < g.len() && nodes[p[p.len() - 1]]);
}

/// Whether `g` has the edge `a → a`.
fn self_edge(adj: &Vec<Vec<usize>>, a: usize) -> (r: bool)
    requires
        a < adj.len(),
    ensures
        r == edge(adj_view(adj@), a as int, a as int),
{
    let succ = &adj[a];
    let mut t: usize = 0;
    while t < succ.len()
        invariant
            a < adj.len(),
            *succ == adj@[a as int],
            t <= succ.len(),
            forall|u: int| 0 <= u < t ==> succ@[u] != a,
        decreases succ.len() - t,
    {
        if succ[t] == a {
            proof {
                assert(adj_view(adj@)[a as int] == succ@);
                assert(succ@[t as int] == a);
            }
            return true;
        }
        t = t + 1;
    }
    proof {
        assert(adj_view(adj@)[a as int] == succ@);
    }
    false
}

/// The strongly connected components of the sub-graph `nodes` that hold a
/// cycle (more than one node, or a node depending on itself), each sorted, in
/// the order of their smallest node.
pub fn strongly_connected(adj: &Vec<Vec<usize>>, nodes: &Vec<bool>) -> (comps: Vec<Vec<usize>>)
    requires
        graph_wf(adj_view(adj@)),
        nodes.len() == adj.len(),
    ensures
        cyclic_components(adj_view(adj@), nodes@, adj_view(comps@)),
{
    let ghost g = adj_view(adj@);
    let n = adj.len();
    let rev = converse_graph(adj);
    let ghost rg = adj_view(rev@);
    let mut assigned: Vec<bool> = Vec::new();
    let mut i: usize = 0;
    while i < n
        invariant
            i <= n,
            assigned.len() == i,
            forall|w: int| 0 <= w < i ==> !assigned[w],
        decreases n - i,
    {
        assigned.push(false);
        i = i + 1;
    }
    let mut comps: Vec<Vec<usize>> = Vec::new();
    let mut v: usize = 0;
    while v < n
        invariant
            g == adj_view(adj@),
            rg == adj_view(rev@),
            graph_wf(g),
            graph_wf(rg),
            n == adj.len(),
            rev.len() == n,
            nodes.len() == n,
            assigned.len() == n,
            v <= n,
            forall|a: int, b: int|
                #![trigger edge(rg, a, b)]
                0 <= a < n && 0 <= b < n ==> (edge(rg, a, b) <==> edge(g, b, a)),
            forall|x: int|
                0 <= x < n ==> (#[trigger] assigned[x] <==> exists|u: int|
                    0 <= u < v && #[trigger] mutual(g, nodes@, u, x)),
            forall|i: int|
                0 <= i < comps.len() ==> #[trigger] adj_view(comps@)[i].len() >= 1 && on_cycle(
                    g,
                    nodes@,
                    adj_view(comps@)[i][0] as int,
                ) && adj_view(comps@)[i][0] < v,
            forall|i: int, a: int, b: int|
                0 <= i < comps.len() && 0 <= a < b < adj_view(comps@)[i].len()
                    ==> #[trigger] adj_view(comps@)[i][a] < #[trigger] adj_view(comps@)[i][b],
            forall|i: int, a: int|
                0 <= i < comps.len() && 0 <= a < adj_view(comps@)[i].len() ==> #[trigger] adj_view(comps@)[i][a] < n,
            forall|i: int, w: int|
                0 <= i < comps.len() && 0 <= w < n ==> (#[trigger] adj_view(comps@)[i].contains(
                    w as usize,
                ) <==> mutual(g, nodes@, adj_view(comps@)[i][0] as int, w)),
            forall|i: int, j: int|
                0 <= i < j < comps.len() ==> #[trigger] adj_view(comps@)[i][0]
                    < #[trigger] adj_view(comps@)[j][0],
            forall|x: int|
                #[trigger] on_cycle(g, nodes@, x) && assigned[x] ==> exists|i: int|
                    0 <= i < comps.len() && #[trigger] adj_view(comps@)[i].contains(x as usize),
        decreases n - v,
    {
        let ghost a0 = assigned@;
        let ghost c0 = adj_view(comps@);
        if nodes[v] && !assigned[v] {
            let fwd = reachable(adj, nodes, v);
            let bwd = reachable(&rev, nodes, v);
            proof {
                assert forall|w: int| 0 <= w < n implies (#[trigger] bwd[w] <==> reach(g, nodes@, w, v as int)) by {
                    lemma_reach_converse(g, rg, nodes@, v as int, w);
                }
            }
            let mut comp: Vec<usize> = Vec::new();
            let mut w: usize = 0;
            while w < n
                invariant
                    g == adj_view(adj@),
                    n == adj.len(),
                    nodes.len() == n,
                    fwd.len() == n,
                    bwd.len() == n,
                    assigned.len() == n,
                    v < n,
                    w <= n,
                    forall|x: int| 0 <= x < n ==> (#[trigger] fwd[x] <==> reach(g, nodes@, v as int, x)),
                    forall|x: int| 0 <= x < n ==> (#[trigger] bwd[x] <==> reach(g, nodes@, x, v as int)),
                    forall|a: int, b: int| 0 <= a < b < comp.len() ==> #[trigger] comp@[a] < #[trigger] comp@[b],
                    forall|a: int| 0 <= a < comp.len() ==> #[trigger] comp@[a] < w,
                    forall|x: int|
                        0 <= x < n ==> (#[trigger] comp@.contains(x as usize) <==> (x < w && mutual(
                            g,
                            nodes@,
                            v as int,
                            x,
                        ))),
                    forall|x: int|
                        0 <= x < n ==> (#[trigger] assigned[x] <==> (a0[x] || (x < w && mutual(
                            g,
                            nodes@,
                            v as int,
                            x,
                        )))),
                decreases n - w,
            {
                if fwd[w] && bwd[w] {
                    let ghost k0 = comp@;
                    comp.push(w);
                    assigned.set(w, true);
                    proof {
                        assert forall|x: int| 0 <= x < n implies (#[trigger] comp@.contains(x as usize) <==> (x
                            < w + 1 && mutual(g, nodes@, v as int, x))) by {
                            if x == w as int {
                                assert(comp@[k0.len() as int] == w);
                            } else {
                                if k0.contains(x as usize) {
                                    let t = k0.index_of(x as usize);
                                    assert(comp@[t] == x as usize);
                                }
                                if comp@.contains(x as usize) {
                                    let t = comp@.index_of(x as usize);
                                    assert(comp@[t] == x as usize);
                                    assert(t < k0.len());
                                    assert(k0[t] == x as usize);
                                }
                            }
                        }
                    }
                } else {
                    proof {
                        assert(!mutual(g, nodes@, v as int, w as int));
                    }
                }
                w = w + 1;
            }
            proof {
                lemma_reach_refl(g, nodes@, v as int);
                assert(mutual(g, nodes@, v as int, v as int));
                assert(comp@.contains((v as int) as usize));
                let t = comp@.index_of(v);
                assert forall|a: int| 0 <= a < comp.len() implies v <= #[trigger] comp@[a] by {
                    let x = comp@[a] as int;
                    assert(comp@.contains(x as usize));
                    if x < v {
                        assert(mutual(g, nodes@, x, v as int));
                        assert(a0[v as int]);
                    }
                }
                if t > 0 {
                    assert(comp@[0] < comp@[t]);
                }
                assert(comp@[0] == v);
            }
            let cyclic = comp.len() > 1 || self_edge(adj, v);
            if cyclic {
                proof {
                    if comp.len() > 1 {
                        assert(comp@[0] < comp@[1]);
                        let y = comp@[1] as int;
                        assert(comp@.contains(y as usize));
                        assert(mutual(g, nodes@, v as int, y));
                    }
                    assert(on_cycle(g, nodes@, v as int));
                }
                comps.push(comp);
                proof {
                    let cs = adj_view(comps@);
                    assert(cs == c0.push(comp@));
                    assert(cs[c0.len() as int] == comp@);
                    assert forall|i: int| 0 <= i < c0.len() implies #[trigger] cs[i] == c0[i] by {}
                    assert forall|i: int, a: int| 0 <= i < cs.len() && 0 <= a < cs[i].len() implies #[trigger] cs[i][a] < n by {
                        if i < c0.len() {
                            assert(cs[i] == c0[i]);
                        } else {
                            assert(cs[i][a] == comp@[a]);
                        }
                    }
                    assert forall|i: int, j: int| 0 <= i < j < cs.len() implies #[trigger] cs[i][0]
                        < #[trigger] cs[j][0] by {
                        assert(cs[i] == c0[i]);
                        if j == c0.len() {
                            assert(c0[i].len() >= 1 && c0[i][0] < v);
                            assert(cs[j][0] == v);
                        } else {
                            assert(cs[j] == c0[j]);
                        }
                    }
                }
            } else {
                proof {
                    assert(comp.len() <= 1);
                    assert(!edge(g, v as int, v as int));
                    assert(!on_cycle(g, nodes@, v as int)) by {
                        if on_cycle(g, nodes@, v as int) {
                            let x = choose|x: int| x != v && #[trigger] mutual(g, nodes@, v as int, x);
                            lemma_reach_start(g, nodes@, v as int, x);
                            assert(comp@.contains(x as usize));
                            let t = comp@.index_of(x as usize);
                            assert(t == 0);
                        }
                    }
                }
            }
            proof {
                let cs = adj_view(comps@);
                assert forall|x: int|
                    0 <= x < n implies (#[trigger] assigned[x] <==> exists|u: int|
                        0 <= u < v + 1 && #[trigger] mutual(g, nodes@, u, x)) by {
                    if assigned[x] {
                        if !a0[x] {
                            assert(mutual(g, nodes@, v as int, x));
                        }
                    }
                    if exists|u: int| 0 <= u < v + 1 && #[trigger] mutual(g, nodes@, u, x) {
                        let u = choose|u: int| 0 <= u < v + 1 && #[trigger] mutual(g, nodes@, u, x);
                        if u < v {
                            assert(a0[x]);
                        } else {
                            assert(mutual(g, nodes@, v as int, x));
                            lemma_reach_start(g, nodes@, v as int, x);
                        }
                    }
                }
                assert forall|x: int|
                    #[trigger] on_cycle(g, nodes@, x) && assigned[x] implies exists|i: int|
                        0 <= i < comps.len() && #[trigger] cs[i].contains(x as usize) by {
                    if a0[x] {
                        let i = choose|i: int| 0 <= i < c0.len() && #[trigger] c0[i].contains(x as usize);
                        assert(cs[i] == c0[i]);
                    } else {
                        assert(mutual(g, nodes@, v as int, x));
                        lemma_reach_start(g, nodes@, v as int, x);
                        assert(comp@.contains(x as usize));
                        if !cyclic {
                            let t = comp@.index_of(x as usize);
                            assert(t == 0);
                            assert(x == v as int);
                        }
                        assert(cs[c0.len() as int].contains(x as usize));
                    }
                }
            }
        } else {
            proof {
                assert forall|x: int|
                    0 <= x < n implies (#[trigger] assigned[x] <==> exists|u: int|
                        0 <= u < v + 1 && #[trigger] mutual(g, nodes@, u, x)) by {
                    if exists|u: int| 0 <= u < v + 1 && #[trigger] mutual(g, nodes@, u, x) {
                        let u = choose|u: int| 0 <= u < v + 1 && #[trigger] mutual(g, nodes@, u, x);
                        if u == v {
                            lemma_reach_start(g, nodes@, v as int, x);
                            assert(assigned[v as int]);
                            let u2 = choose|u2: int| 0 <= u2 < v && #[trigger] mutual(g, nodes@, u2, v as int);
                            lemma_reach_trans(g, nodes@, u2, v as int, x);
                            lemma_reach_trans(g, nodes@, x, v as int, u2);
                            assert(mutual(g, nodes@, u2, x));
                        }
                    }
                }
            }
        }
        v = v + 1;
    }
    proof {
        assert forall|x: int| #[trigger] on_cycle(g, nodes@, x) implies assigned[x] by {
            lemma_reach_refl(g, nodes@, x);
            assert(mutual(g, nodes@, x, x));
        }
    }
    comps
}

/// Kahn's order places each node once.
proof fn lemma_kahn_distinct(rel: spec_fn(int, int) -> bool, n: int, out: Seq<usize>, t: int, u: int)
    requires
        kahn_order(rel, n, out),
        0 <= t < u < out.len(),
    ensures
        out[t] != out[u],
{
    assert(ready(rel, n, out.take(u), out[u] as int));
    assert(out.take(u)[t] == out[t]);
}

/// Following a path from a placed node leads to nodes placed earlier, one
/// turn earlier at least for each edge followed.
proof fn lemma_path_placed(
    rel: spec_fn(int, int) -> bool,
    n: int,
    nodes: Seq<bool>,
    out: Seq<usize>,
    p: Seq<int>,
    k: int,
)
    requires
        kahn_order(rel, n, out),
        n <= usize::MAX,
        is_rel_path(rel, n, nodes, p),
        0 <= k < out.len(),
        out[k] as int == p[0],
    ensures
        exists|t: int| 0 <= t <= k - (p.len() - 1) && out[t] as int == p.last(),
    decreases p.len(),
{
    if p.len() == 1 {
        assert(out[k] as int == p.last());
    } else {
        assert(rel(p[0], p[1]));
        assert(ready(rel, n, out.take(k), out[k] as int));
        assert(0 <= p[1] < n);
        assert(out.take(k).contains(p[1] as usize));
        let t1 = out.take(k).index_of(p[1] as usize);
        assert(out[t1] == p[1] as usize);
        let q = p.drop_first();
        assert forall|i: int| 0 <= i < q.len() - 1 implies rel(#[trigger] q[i], q[i + 1]) by {
            assert(q[i] == p[i + 1] && q[i + 1] == p[i + 2]);
            assert(rel(p[i + 1], p[i + 2]));
        }
        assert forall|i: int| 0 <= i < q.len() implies 0 <= #[trigger] q[i] < n && nodes[q[i]] by {
            assert(q[i] == p[i + 1]);
        }
        assert(is_rel_path(rel, n, nodes, q));
        lemma_path_placed(rel, n, nodes, out, q, t1);
        assert(q.last() == p.last());
    }
}

/// No node from which a cycle can be reached is ever placed: neither a node
/// lying on a cycle nor one depending on it, directly or not.
pub proof fn lemma_cycle_blocks(
    rel: spec_fn(int, int) -> bool,
    n: int,
    nodes: Seq<bool>,
    out: Seq<usize>,
    v: int,
    c: int,
)
    requires
        kahn_order(rel, n, out),
        n <= usize::MAX,
        rel_on_cycle(rel, n, nodes, c),
        rel_reach(rel, n, nodes, v, c),
    ensures
        !out.contains(v as usize),
{
    if out.contains(v as usize) {
        let k = out.index_of(v as usize);
        let p = choose|p: Seq<int>| #[trigger] is_rel_path(rel, n, nodes, p) && p[0] == v && p.last() == c;
        assert(0 <= p[0] < n);
        assert(out[k] == v as usize);
        lemma_path_placed(rel, n, nodes, out, p, k);
        let tc = choose|t: int| 0 <= t <= k - (p.len() - 1) && out[t] as int == p.last();
        if rel(c, c) {
            let q = seq![c, c];
            assert(is_rel_path(rel, n, nodes, q));
            lemma_path_placed(rel, n, nodes, out, q, tc);
            let t = choose|t: int| 0 <= t <= tc - (q.len() - 1) && out[t] as int == q.last();
            lemma_kahn_distinct(rel, n, out, t, tc);
        } else {
            let w = choose|w: int| w != c && #[trigger] rel_mutual(rel, n, nodes, c, w);
            let p1 = choose|p: Seq<int>| #[trigger] is_rel_path(rel, n, nodes, p) && p[0] == c && p.last() == w;
            lemma_path_placed(rel, n, nodes, out, p1, tc);
            let tw = choose|t: int| 0 <= t <= tc - (p1.len() - 1) && out[t] as int == p1.last();
            assert(p1.len() >= 2);
            let p2 = choose|p: Seq<int>| #[trigger] is_rel_path(rel, n, nodes, p) && p[0] == w && p.last() == c;
            lemma_path_placed(rel, n, nodes, out, p2, tw);
            let t2 = choose|t: int| 0 <= t <= tw - (p2.len() - 1) && out[t] as int == p2.last();
            lemma_kahn_distinct(rel, n, out, t2, tc);
        }
    }
}

/// A path of `m + 1` nodes that Kahn's order leaves unplaced, starting at an
/// unplaced node `v`.
proof fn lemma_unplaced_chain(
    rel: spec_fn(int, int) -> bool,
    n: int,
    nodes: Seq<bool>,
    out: Seq<usize>,
    v: int,
    m: nat,
) -> (p: Seq<int>)
    requires
        kahn_order(rel, n, out),
        n <= usize::MAX,
        nodes.len() == n,
        forall|x: int| 0 <= x < n ==> #[trigger] nodes[x],
        0 <= v < n,
        !out.contains(v as usize),
    ensures
        is_rel_path(rel, n, nodes, p),
        p.len() == m + 1,
        p[0] == v,
        forall|i: int| 0 <= i < p.len() ==> !out.contains(#[trigger] p[i] as usize),
    decreases m,
{
    if m == 0 {
        let p = seq![v];
        assert(nodes[v]);
        p
    } else {
        let q = lemma_unplaced_chain(rel, n, nodes, out, v, (m - 1) as nat);
        let u = q.last();
        assert(!out.contains(q[q.len() - 1] as usize));
        assert(!ready(rel, n, out, u));
        let j = choose|j: int| #![trigger rel(u, j)] 0 <= j < n && rel(u, j) && !out.contains(j as usize);
        let p = q.push(j);
        assert(nodes[j]);
        assert forall|i: int| 0 <= i < p.len() - 1 implies rel(#[trigger] p[i], p[i + 1]) by {
            if i < q.len() - 1 {
                assert(p[i] == q[i] && p[i + 1] == q[i + 1]);
                assert(rel(q[i], q[i + 1]));
            } else {
                assert(p[i] == u && p[i + 1] == j);
            }
        }
        assert forall|i: int| 0 <= i < p.len() implies 0 <= #[trigger] p[i] < n && nodes[p[i]] by {
            if i < q.len() {
                assert(p[i] == q[i]);
            }
        }
        assert forall|i: int| 0 <= i < p.len() implies !out.contains(#[trigger] p[i] as usize) by {
            if i < q.len() {
                assert(p[i] == q[i]);
            }
        }
        p
    }
}

/// A sequence of more than `n` values from `0..n` repeats a value.
pub(crate) proof fn lemma_pigeonhole(p: Seq<int>, n: int)
    requires
        p.len() > n >= 0,
        forall|i: int| 0 <= i < p.len() ==> 0 <= #[trigger] p[i] < n,
    ensures
        exists|i: int, j: int| 0 <= i < j < p.len() && #[trigger] p[i] == #[trigger] p[j],
{
    if !(exists|i: int, j: int| 0 <= i < j < p.len() && #[trigger] p[i] == #[trigger] p[j]) {
        assert(p.no_duplicates()) by {
            assert forall|i: int, j: int| 0 <= i < p.len() && 0 <= j < p.len() && i != j implies p[i] != p[j] by {
                if i < j {
                    assert(!(p[i] == p[j]));
                } else {
                    assert(!(p[j] == p[i]));
                }
            }
        }
        p.unique_seq_to_set();
        vstd::set_lib::lemma_int_range(0, n);
        assert(p.to_set().subset_of(vstd::set_lib::set_int_range(0, n))) by {
            assert forall|x: int| #[trigger] p.to_set().contains(x) implies vstd::set_lib::set_int_range(0, n).contains(x) by {
                let i = p.index_of(x);
                assert(p[i] == x);
            }
        }
        vstd::set_lib::lemma_len_subset(p.to_set(), vstd::set_lib::set_int_range(0, n));
    }
}

/// Every node Kahn's order leaves unplaced can reach a node lying on a cycle.
pub proof fn lemma_unplaced_reaches_cycle(
    rel: spec_fn(int, int) -> bool,
    n: int,
    nodes: Seq<bool>,
    out: Seq<usize>,
    v: int,
)
    requires
        kahn_order(rel, n, out),
        n <= usize::MAX,
        nodes.len() == n,
        forall|x: int| 0 <= x < n ==> #[trigger] nodes[x],
        0 <= v < n,
        !out.contains(v as usize),
    ensures
        exists|c: int| #[trigger] rel_on_cycle(rel, n, nodes, c) && rel_reach(rel, n, nodes, v, c),
{
    let p = lemma_unplaced_chain(rel, n, nodes, out, v, n as nat);
    lemma_pigeonhole(p, n);
    let (i, j) = choose|i: int, j: int| 0 <= i < j < p.len() && #[trigger] p[i] == #[trigger] p[j];
    let c = p[i];
    let pre = p.take(i + 1);
    assert forall|k: int| 0 <= k < pre.len() - 1 implies rel(#[trigger] pre[k], pre[k + 1]) by {
        assert(pre[k] == p[k] && pre[k + 1] == p[k + 1]);
        assert(rel(p[k], p[k + 1]));
    }
    assert forall|k: int| 0 <= k < pre.len() implies 0 <= #[trigger] pre[k] < n && nodes[pre[k]] by {
        assert(pre[k] == p[k]);
    }
    assert(is_rel_path(rel, n, nodes, pre));
    assert(rel_reach(rel, n, nodes, v, c));
    let w = p[i + 1];
    assert(rel(p[i], p[i + 1]));
    if w != c {
        let e = seq![c, w];
        assert(is_rel_path(rel, n, nodes, e));
        let back = p.subrange(i + 1, j + 1);
        assert forall|k: int| 0 <= k < back.len() - 1 implies rel(#[trigger] back[k], back[k + 1]) by {
            assert(back[k] == p[i + 1 + k] && back[k + 1] == p[i + 2 + k]);
            assert(rel(p[i + 1 + k], p[i + 1 + k + 1]));
        }
        assert forall|k: int| 0 <= k < back.len() implies 0 <= #[trigger] back[k] < n && nodes[back[k]] by {
            assert(back[k] == p[i + 1 + k]);
        }
        assert(is_rel_path(rel, n, nodes, back));
        assert(back.last() == p[j]);
        assert(rel_reach(rel, n, nodes, w, c));
        assert(rel_mutual(rel, n, nodes, c, w));
    }
    assert(rel_on_cycle(rel, n, nodes, c));
}

/// A mask admitting every one of `n` nodes.
pub open spec fn all_nodes(n: nat) -> Seq<bool> {
    Seq::new(n, |i: int| true)
}

/// The nodes of `0..n` that `out` does not place.
pub open spec fn leftover(n: nat, out: Seq<usize>) -> Seq<bool> {
    Seq::new(n, |v: int| !out.contains(v as usize))
}

/// A path each of whose nodes can reach a node on a cycle stays among the
/// nodes Kahn's order leaves unplaced.
proof fn lemma_path_in_leftover(rel: spec_fn(int, int) -> bool, n: int, out: Seq<usize>, p: Seq<int>, c: int)
    requires
        kahn_order(rel, n, out),
        0 <= n <= usize::MAX,
        is_rel_path(rel, n, all_nodes(n as nat), p),
        rel_on_cycle(rel, n, all_nodes(n as nat), c),
        rel_reach(rel, n, all_nodes(n as nat), p.last(), c),
    ensures
        is_rel_path(rel, n, leftover(n as nat, out), p),
{
    let all = all_nodes(n as nat);
    assert forall|k: int| 0 <= k < p.len() implies 0 <= #[trigger] p[k] < n && leftover(n as nat, out)[p[k]] by {
        let suf = p.subrange(k, p.len() as int);
        assert forall|i: int| 0 <= i < suf.len() - 1 implies rel(#[trigger] suf[i], suf[i + 1]) by {
            assert(suf[i] == p[k + i] && suf[i + 1] == p[k + i + 1]);
            assert(rel(p[k + i], p[k + i + 1]));
        }
        assert forall|i: int| 0 <= i < suf.len() implies 0 <= #[trigger] suf[i] < n && all[suf[i]] by {
            assert(suf[i] == p[k + i]);
        }
        assert(is_rel_path(rel, n, all, suf));
        assert(suf[0] == p[k] && suf.last() == p.last());
        lemma_rel_reach_trans(rel, n, all, p[k], p.last(), c);
        lemma_cycle_blocks(rel, n, all, out, p[k], c);
    }
}

/// Two nodes of the whole graph that reach each other, one lying on a cycle,
/// reach each other among the unplaced nodes too; and the converse.
proof fn lemma_mutual_leftover(rel: spec_fn(int, int) -> bool, n: int, out: Seq<usize>, c: int, w: int)
    requires
        kahn_order(rel, n, out),
        0 <= n <= usize::MAX,
        rel_on_cycle(rel, n, all_nodes(n as nat), c),
    ensures
        rel_mutual(rel, n, leftover(n as nat, out), c, w) <==> rel_mutual(rel, n, all_nodes(n as nat), c, w),
{
    let all = all_nodes(n as nat);
    let left = leftover(n as nat, out);
    if rel_mutual(rel, n, all, c, w) {
        let p1 = choose|p: Seq<int>| #[trigger] is_rel_path(rel, n, all, p) && p[0] == c && p.last() == w;
        let p2 = choose|p: Seq<int>| #[trigger] is_rel_path(rel, n, all, p) && p[0] == w && p.last() == c;
        lemma_path_in_leftover(rel, n, out, p1, c);
        let q = seq![c];
        assert(is_rel_path(rel, n, all, q));
        lemma_path_in_leftover(rel, n, out, p2, c);
        assert(is_rel_path(rel, n, left, p1));
        assert(is_rel_path(rel, n, left, p2));
    }
    if rel_mutual(rel, n, left, c, w) {
        let p1 = choose|p: Seq<int>| #[trigger] is_rel_path(rel, n, left, p) && p[0] == c && p.last() == w;
        let p2 = choose|p: Seq<int>| #[trigger] is_rel_path(rel, n, left, p) && p[0] == w && p.last() == c;
        assert(is_rel_path(rel, n, all, p1));
        assert(is_rel_path(rel, n, all, p2));
    }
}

/// A node lies on a cycle among the unplaced nodes exactly when it lies on a
/// cycle of the whole graph.
proof fn lemma_on_cycle_leftover(rel: spec_fn(int, int) -> bool, n: int, out: Seq<usize>, v: int)
    requires
        kahn_order(rel, n, out),
        0 <= n <= usize::MAX,
    ensures
        rel_on_cycle(rel, n, leftover(n as nat, out), v) <==> rel_on_cycle(rel, n, all_nodes(n as nat), v),
{
    let all = all_nodes(n as nat);
    let left = leftover(n as nat, out);
    if rel_on_cycle(rel, n, left, v) && !rel(v, v) {
        let w = choose|w: int| w != v && #[trigger] rel_mutual(rel, n, left, v, w);
        let p1 = choose|p: Seq<int>| #[trigger] is_rel_path(rel, n, left, p) && p[0] == v && p.last() == w;
        let p2 = choose|p: Seq<int>| #[trigger] is_rel_path(rel, n, left, p) && p[0] == w && p.last() == v;
        assert(is_rel_path(rel, n, all, p1));
        assert(is_rel_path(rel, n, all, p2));
        assert(rel_mutual(rel, n, all, v, w));
    }
    if rel_on_cycle(rel, n, all, v) {
        let q = seq![v];
        assert(is_rel_path(rel, n, all, q));
        lemma_cycle_blocks(rel, n, all, out, v, v);
        assert(left[v]);
        if !rel(v, v) {
            let w = choose|w: int| w != v && #[trigger] rel_mutual(rel, n, all, v, w);
            lemma_mutual_leftover(rel, n, out, v, w);
        }
    }
}

/// The cyclic components found among the nodes Kahn's order leaves unplaced
/// are exactly the cyclic components of the whole graph.
pub proof fn lemma_cycles_are_global(
    rel: spec_fn(int, int) -> bool,
    n: int,
    out: Seq<usize>,
    comps: Seq<Seq<usize>>,
)
    requires
        kahn_order(rel, n, out),
        0 <= n <= usize::MAX,
        rel_cyclic_components(rel, n, leftover(n as nat, out), comps),
    ensures
        rel_cyclic_components(rel, n, all_nodes(n as nat), comps),
{
    let all = all_nodes(n as nat);
    let left = leftover(n as nat, out);
    assert forall|v: int| #[trigger] rel_on_cycle(rel, n, left, v) <==> rel_on_cycle(rel, n, all, v) by {
        lemma_on_cycle_leftover(rel, n, out, v);
    }
    assert forall|i: int, w: int|
        0 <= i < comps.len() && 0 <= w < n implies (#[trigger] comps[i].contains(w as usize) <==> rel_mutual(
            rel,
            n,
            all,
            comps[i][0] as int,
            w,
        )) by {
        assert(rel_on_cycle(rel, n, left, comps[i][0] as int));
        lemma_mutual_leftover(rel, n, out, comps[i][0] as int, w);
    }
    assert forall|v: int| #[trigger] rel_on_cycle(rel, n, all, v) implies exists|i: int|
        0 <= i < comps.len() && #[trigger] comps[i].contains(v as usize) by {
        assert(rel_on_cycle(rel, n, left, v));
    }
}

} // verus!
