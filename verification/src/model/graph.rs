//! Directed graphs over positions `0..n`, paths and reachability.
//!
//! A graph is an adjacency list: `g[a]` lists the successors of node `a`. A
//! node mask `allowed` restricts paths to a sub-graph.

use vstd::prelude::*;

verus! {

/// The adjacency lists of `adj` as sequences.
pub open spec fn adj_view(adj: Seq<Vec<usize>>) -> Seq<Seq<usize>> {
    adj.map_values(|v: Vec<usize>| v@)
}

/// Every successor listed in `g` is a node of `g`.
pub open spec fn graph_wf(g: Seq<Seq<usize>>) -> bool {
    forall|a: int, k: int| 0 <= a < g.len() && 0 <= k < g[a].len() ==> #[trigger] g[a][k] < g.len()
}

/// There is an edge `a → b` in `g`.
pub open spec fn edge(g: Seq<Seq<usize>>, a: int, b: int) -> bool {
    0 <= a < g.len() && 0 <= b < g.len() && g[a].contains(b as usize)
}

/// `p` is a non-empty path of `g` whose nodes all lie in `allowed`.
pub open spec fn is_path(g: Seq<Seq<usize>>, allowed: Seq<bool>, p: Seq<int>) -> bool {
    &&& p.len() >= 1
    &&& forall|k: int| 0 <= k < p.len() ==> 0 <= #[trigger] p[k] < g.len() && allowed[p[k]]
    &&& forall|k: int| 0 <= k < p.len() - 1 ==> #[trigger] edge(g, p[k], p[k + 1])
}

/// `b` can be reached from `a` by a path of `g` (possibly of no edge) that
/// stays within `allowed`.
pub open spec fn reach(g: Seq<Seq<usize>>, allowed: Seq<bool>, a: int, b: int) -> bool {
    exists|p: Seq<int>| #[trigger] is_path(g, allowed, p) && p[0] == a && p.last() == b
}

/// `p` is a non-empty path of the relation `rel` over nodes `0..n`, every
/// node of which lies in `allowed`.
pub open spec fn is_rel_path(rel: spec_fn(int, int) -> bool, n: int, allowed: Seq<bool>, p: Seq<int>) -> bool {
    &&& p.len() >= 1
    &&& forall|k: int| 0 <= k < p.len() ==> 0 <= #[trigger] p[k] < n && allowed[p[k]]
    &&& forall|k: int| 0 <= k < p.len() - 1 ==> rel(#[trigger] p[k], p[k + 1])
}

/// `b` can be reached from `a` along `rel` (possibly by no step), staying
/// within `allowed`.
pub open spec fn rel_reach(rel: spec_fn(int, int) -> bool, n: int, allowed: Seq<bool>, a: int, b: int) -> bool {
    exists|p: Seq<int>| #[trigger] is_rel_path(rel, n, allowed, p) && p[0] == a && p.last() == b
}

/// The relation read backwards.
pub open spec fn converse(rel: spec_fn(int, int) -> bool) -> spec_fn(int, int) -> bool {
    |a: int, b: int| rel(b, a)
}

/// Reachability in a graph is reachability along any relation with the same
/// edges.
pub proof fn lemma_reach_rel(g: Seq<Seq<usize>>, rel: spec_fn(int, int) -> bool, allowed: Seq<bool>, a: int, b: int)
    requires
        forall|i: int, j: int| 0 <= i < g.len() && 0 <= j < g.len() ==> (edge(g, i, j) <==> rel(i, j)),
    ensures
        reach(g, allowed, a, b) <==> rel_reach(rel, g.len() as int, allowed, a, b),
{
    if reach(g, allowed, a, b) {
        let p = choose|p: Seq<int>| #[trigger] is_path(g, allowed, p) && p[0] == a && p.last() == b;
        assert forall|k: int| 0 <= k < p.len() - 1 implies rel(#[trigger] p[k], p[k + 1]) by {
            assert(edge(g, p[k], p[k + 1]));
            assert(0 <= p[k] < g.len() && 0 <= p[k + 1] < g.len());
        }
        assert(is_rel_path(rel, g.len() as int, allowed, p));
    }
    if rel_reach(rel, g.len() as int, allowed, a, b) {
        let p = choose|p: Seq<int>| #[trigger] is_rel_path(rel, g.len() as int, allowed, p) && p[0] == a && p.last() == b;
        assert forall|k: int| 0 <= k < p.len() - 1 implies #[trigger] edge(g, p[k], p[k + 1]) by {
            assert(rel(p[k], p[k + 1]));
            assert(0 <= p[k] < g.len() && 0 <= p[k + 1] < g.len());
        }
        assert(is_path(g, allowed, p));
    }
}

/// Reaching `b` from `a` along the converse relation is reaching `a` from `b`
/// along the relation.
pub proof fn lemma_rel_reach_converse(rel: spec_fn(int, int) -> bool, n: int, allowed: Seq<bool>, a: int, b: int)
    ensures
        rel_reach(converse(rel), n, allowed, a, b) <==> rel_reach(rel, n, allowed, b, a),
{
    if rel_reach(converse(rel), n, allowed, a, b) {
        let p = choose|p: Seq<int>| #[trigger] is_rel_path(converse(rel), n, allowed, p) && p[0] == a && p.last() == b;
        let q = p.reverse();
        assert forall|k: int| 0 <= k < q.len() implies 0 <= #[trigger] q[k] < n && allowed[q[k]] by {
            assert(q[k] == p[p.len() - 1 - k]);
        }
        assert forall|k: int| 0 <= k < q.len() - 1 implies rel(#[trigger] q[k], q[k + 1]) by {
            let j = p.len() - 2 - k;
            assert(q[k] == p[j + 1] && q[k + 1] == p[j]);
            assert(converse(rel)(p[j], p[j + 1]));
        }
        assert(is_rel_path(rel, n, allowed, q));
        assert(q[0] == b && q.last() == a);
    }
    if rel_reach(rel, n, allowed, b, a) {
        let p = choose|p: Seq<int>| #[trigger] is_rel_path(rel, n, allowed, p) && p[0] == b && p.last() == a;
        let q = p.reverse();
        assert forall|k: int| 0 <= k < q.len() implies 0 <= #[trigger] q[k] < n && allowed[q[k]] by {
            assert(q[k] == p[p.len() - 1 - k]);
        }
        assert forall|k: int| 0 <= k < q.len() - 1 implies converse(rel)(#[trigger] q[k], q[k + 1]) by {
            let j = p.len() - 2 - k;
            assert(q[k] == p[j + 1] && q[k + 1] == p[j]);
            assert(rel(p[j], p[j + 1]));
        }
        assert(is_rel_path(converse(rel), n, allowed, q));
        assert(q[0] == a && q.last() == b);
    }
}

/// Reachability along a relation is transitive.
pub proof fn lemma_rel_reach_trans(rel: spec_fn(int, int) -> bool, n: int, allowed: Seq<bool>, a: int, b: int, c: int)
    requires
        rel_reach(rel, n, allowed, a, b),
        rel_reach(rel, n, allowed, b, c),
    ensures
        rel_reach(rel, n, allowed, a, c),
{
    let p = choose|p: Seq<int>| #[trigger] is_rel_path(rel, n, allowed, p) && p[0] == a && p.last() == b;
    let q = choose|q: Seq<int>| #[trigger] is_rel_path(rel, n, allowed, q) && q[0] == b && q.last() == c;
    let r = p + q.drop_first();
    assert forall|k: int| 0 <= k < r.len() implies 0 <= #[trigger] r[k] < n && allowed[r[k]] by {
        if k < p.len() {
            assert(r[k] == p[k]);
        } else {
            assert(r[k] == q[k - p.len() + 1]);
        }
    }
    assert forall|k: int| 0 <= k < r.len() - 1 implies rel(#[trigger] r[k], r[k + 1]) by {
        if k < p.len() - 1 {
            assert(r[k] == p[k] && r[k + 1] == p[k + 1]);
            assert(rel(p[k], p[k + 1]));
        } else if k == p.len() - 1 {
            assert(r[k] == q[0] && r[k + 1] == q[1]);
            assert(rel(q[0], q[1]));
        } else {
            let j = k - p.len() + 1;
            assert(r[k] == q[j] && r[k + 1] == q[j + 1]);
            assert(rel(q[j], q[j + 1]));
        }
    }
    if q.len() == 1 {
        assert(r.last() == p.last());
    } else {
        assert(r.last() == q.last());
    }
    assert(is_rel_path(rel, n, allowed, r));
}

/// One allowed step is a path.
pub proof fn lemma_rel_step(rel: spec_fn(int, int) -> bool, n: int, allowed: Seq<bool>, a: int, b: int)
    requires
        0 <= a < n,
        0 <= b < n,
        allowed[a],
        allowed[b],
        rel(a, b),
    ensures
        rel_reach(rel, n, allowed, a, b),
{
    let p = seq![a, b];
    assert(is_rel_path(rel, n, allowed, p));
}

/// A single allowed node reaches itself.
pub proof fn lemma_rel_refl(rel: spec_fn(int, int) -> bool, n: int, allowed: Seq<bool>, a: int)
    requires
        0 <= a < n,
        allowed[a],
    ensures
        rel_reach(rel, n, allowed, a, a),
{
    let p = seq![a];
    assert(is_rel_path(rel, n, allowed, p));
}

/// A value that every step of `rel` keeps is kept along every path.
pub proof fn lemma_rel_reach_const(
    rel: spec_fn(int, int) -> bool,
    n: int,
    allowed: Seq<bool>,
    f: spec_fn(int) -> int,
    a: int,
    b: int,
)
    requires
        forall|u: int, v: int| #![trigger rel(u, v)] 0 <= u < n && 0 <= v < n && rel(u, v) ==> f(u) == f(v),
        rel_reach(rel, n, allowed, a, b),
    ensures
        f(a) == f(b),
{
    let p = choose|p: Seq<int>| #[trigger] is_rel_path(rel, n, allowed, p) && p[0] == a && p.last() == b;
    lemma_path_const(rel, n, allowed, f, p, p.len() - 1);
}

proof fn lemma_path_const(rel: spec_fn(int, int) -> bool, n: int, allowed: Seq<bool>, f: spec_fn(int) -> int, p: Seq<int>, k: int)
    requires
        forall|u: int, v: int| #![trigger rel(u, v)] 0 <= u < n && 0 <= v < n && rel(u, v) ==> f(u) == f(v),
        is_rel_path(rel, n, allowed, p),
        0 <= k < p.len(),
    ensures
        f(p[0]) == f(p[k]),
    decreases k,
{
    if k > 0 {
        lemma_path_const(rel, n, allowed, f, p, k - 1);
        assert(rel(p[k - 1], p[k]));
    }
}

/// Reachability along `r1` is reachability along `r2` when every step of
/// `r1` is a path of `r2`.
pub proof fn lemma_rel_reach_subst(
    r1: spec_fn(int, int) -> bool,
    r2: spec_fn(int, int) -> bool,
    n: int,
    allowed: Seq<bool>,
    a: int,
    b: int,
)
    requires
        forall|u: int, v: int| #![trigger r1(u, v)] 0 <= u < n && 0 <= v < n && allowed[u] && allowed[v] && r1(u, v) ==> rel_reach(r2, n, allowed, u, v),
        rel_reach(r1, n, allowed, a, b),
    ensures
        rel_reach(r2, n, allowed, a, b),
{
    let p = choose|p: Seq<int>| #[trigger] is_rel_path(r1, n, allowed, p) && p[0] == a && p.last() == b;
    lemma_path_subst(r1, r2, n, allowed, p, p.len() - 1);
}

proof fn lemma_path_subst(r1: spec_fn(int, int) -> bool, r2: spec_fn(int, int) -> bool, n: int, allowed: Seq<bool>, p: Seq<int>, k: int)
    requires
        forall|u: int, v: int| #![trigger r1(u, v)] 0 <= u < n && 0 <= v < n && allowed[u] && allowed[v] && r1(u, v) ==> rel_reach(r2, n, allowed, u, v),
        is_rel_path(r1, n, allowed, p),
        0 <= k < p.len(),
    ensures
        rel_reach(r2, n, allowed, p[0], p[k]),
    decreases k,
{
    if k == 0 {
        lemma_rel_refl(r2, n, allowed, p[0]);
    } else {
        lemma_path_subst(r1, r2, n, allowed, p, k - 1);
        assert(r1(p[k - 1], p[k]));
        assert(0 <= p[k - 1] < n && allowed[p[k - 1]]);
        assert(0 <= p[k] < n && allowed[p[k]]);
        lemma_rel_reach_trans(r2, n, allowed, p[0], p[k - 1], p[k]);
    }
}

/// Along a symmetric relation, reachability is symmetric.
pub proof fn lemma_rel_reach_symmetric(rel: spec_fn(int, int) -> bool, n: int, allowed: Seq<bool>, a: int, b: int)
    requires
        forall|u: int, v: int| #![trigger rel(u, v)] rel(u, v) ==> rel(v, u),
        rel_reach(rel, n, allowed, a, b),
    ensures
        rel_reach(rel, n, allowed, b, a),
{
    assert(converse(rel) =~= rel) by {
        assert forall|u: int, v: int| #[trigger] converse(rel)(u, v) == rel(u, v) by {
            if rel(v, u) {
                assert(rel(u, v));
            }
        }
    }
    lemma_rel_reach_converse(rel, n, allowed, b, a);
}

/// The number of `true` entries of `s`.
pub open spec fn count_true(s: Seq<bool>) -> nat
    decreases s.len(),
{
    if s.len() == 0 {
        0
    } else {
        count_true(s.drop_last()) + if s.last() {
            1nat
        } else {
            0nat
        }
    }
}

/// At most every entry is set.
pub proof fn lemma_count_true_bound(s: Seq<bool>)
    ensures
        count_true(s) <= s.len(),
    decreases s.len(),
{
    if s.len() > 0 {
        lemma_count_true_bound(s.drop_last());
    }
}

/// Setting an unset entry counts one more.
pub proof fn lemma_count_true_set(s: Seq<bool>, i: int)
    requires
        0 <= i < s.len(),
        !s[i],
    ensures
        count_true(s.update(i, true)) == count_true(s) + 1,
    decreases s.len(),
{
    let t = s.update(i, true);
    if i == s.len() - 1 {
        assert(t.drop_last() == s.drop_last());
    } else {
        assert(t.drop_last() == s.drop_last().update(i, true));
        lemma_count_true_set(s.drop_last(), i);
    }
}

/// A single allowed node is a path to itself.
pub proof fn lemma_reach_refl(g: Seq<Seq<usize>>, allowed: Seq<bool>, a: int)
    requires
        0 <= a < g.len(),
        a < allowed.len(),
        allowed[a],
    ensures
        reach(g, allowed, a, a),
{
    let p = seq![a];
    assert(is_path(g, allowed, p));
}

/// A path to `b` extended by an allowed edge `b → c` is a path to `c`.
pub proof fn lemma_reach_step(g: Seq<Seq<usize>>, allowed: Seq<bool>, a: int, b: int, c: int)
    requires
        reach(g, allowed, a, b),
        edge(g, b, c),
        graph_wf(g),
        c < allowed.len(),
        allowed[c],
    ensures
        reach(g, allowed, a, c),
{
    let p = choose|p: Seq<int>| #[trigger] is_path(g, allowed, p) && p[0] == a && p.last() == b;
    let q = p.push(c);
    assert forall|k: int| 0 <= k < q.len() - 1 implies #[trigger] edge(g, q[k], q[k + 1]) by {
        if k < p.len() - 1 {
            assert(edge(g, p[k], p[k + 1]));
        }
    }
    assert(is_path(g, allowed, q));
}

/// Reachability is transitive.
pub proof fn lemma_reach_trans(g: Seq<Seq<usize>>, allowed: Seq<bool>, a: int, b: int, c: int)
    requires
        reach(g, allowed, a, b),
        reach(g, allowed, b, c),
    ensures
        reach(g, allowed, a, c),
{
    let p = choose|p: Seq<int>| #[trigger] is_path(g, allowed, p) && p[0] == a && p.last() == b;
    let q = choose|q: Seq<int>| #[trigger] is_path(g, allowed, q) && q[0] == b && q.last() == c;
    let r = p + q.drop_first();
    assert forall|k: int| 0 <= k < r.len() implies 0 <= #[trigger] r[k] < g.len() && allowed[r[k]] by {
        if k < p.len() {
            assert(r[k] == p[k]);
        } else {
            assert(r[k] == q[k - p.len() + 1]);
        }
    }
    assert forall|k: int| 0 <= k < r.len() - 1 implies #[trigger] edge(g, r[k], r[k + 1]) by {
        if k < p.len() - 1 {
            assert(r[k] == p[k] && r[k + 1] == p[k + 1]);
            assert(edge(g, p[k], p[k + 1]));
        } else if k == p.len() - 1 {
            assert(r[k] == q[0] && r[k + 1] == q[1]);
            assert(edge(g, q[0], q[1]));
        } else {
            let j = k - p.len() + 1;
            assert(r[k] == q[j] && r[k + 1] == q[j + 1]);
            assert(edge(g, q[j], q[j + 1]));
        }
    }
    if q.len() == 1 {
        assert(r.last() == p.last());
    } else {
        assert(r.last() == q.last());
    }
    assert(is_path(g, allowed, r));
}

/// A set of nodes that holds `a` and is closed under allowed edges holds every
/// node reachable from `a`.
pub proof fn lemma_closed_holds_reach(
    g: Seq<Seq<usize>>,
    allowed: Seq<bool>,
    marked: Seq<bool>,
    a: int,
    b: int,
)
    requires
        marked.len() == g.len(),
        0 <= a < g.len(),
        marked[a],
        forall|u: int, v: int|
            0 <= u < g.len() && marked[u] && #[trigger] edge(g, u, v) && 0 <= v < g.len()
                && allowed[v] ==> marked[v],
        reach(g, allowed, a, b),
    ensures
        0 <= b < g.len() && marked[b],
{
    let p = choose|p: Seq<int>| #[trigger] is_path(g, allowed, p) && p[0] == a && p.last() == b;
    lemma_closed_path_prefix(g, allowed, marked, p, p.len() - 1);
}

proof fn lemma_closed_path_prefix(
    g: Seq<Seq<usize>>,
    allowed: Seq<bool>,
    marked: Seq<bool>,
    p: Seq<int>,
    k: int,
)
    requires
        marked.len() == g.len(),
        is_path(g, allowed, p),
        marked[p[0]],
        0 <= k < p.len(),
        forall|u: int, v: int|
            0 <= u < g.len() && marked[u] && #[trigger] edge(g, u, v) && 0 <= v < g.len()
                && allowed[v] ==> marked[v],
    ensures
        marked[p[k]],
    decreases k,
{
    if k > 0 {
        lemma_closed_path_prefix(g, allowed, marked, p, k - 1);
        let j = k - 1;
        assert(edge(g, p[j], p[j + 1]));
        assert(0 <= p[k] < g.len() && allowed[p[k]]);
    }
}

/// The nodes reachable from `start` within `allowed` (breadth-first search).
pub fn reachable(adj: &Vec<Vec<usize>>, allowed: &Vec<bool>, start: usize) -> (marked: Vec<bool>)
    requires
        graph_wf(adj_view(adj@)),
        allowed.len() == adj.len(),
        start < adj.len(),
        allowed[start as int],
    ensures
        marked.len() == adj.len(),
        forall|w: int|
            0 <= w < adj.len() ==> (#[trigger] marked[w] <==> reach(
                adj_view(adj@),
                allowed@,
                start as int,
                w,
            )),
{
    let ghost g = adj_view(adj@);
    let n = adj.len();
    let mut marked: Vec<bool> = Vec::new();
    let mut i: usize = 0;
    while i < n
        invariant
            i <= n,
            marked.len() == i,
            forall|w: int| 0 <= w < i ==> !marked[w],
        decreases n - i,
    {
        marked.push(false);
        i = i + 1;
    }
    proof {
        assert(count_true(marked@) == 0) by {
            let mut k: int = marked@.len() as int;
            assert(marked@ == Seq::new(n as nat, |w: int| false));
            lemma_count_all_false(marked@);
        }
        lemma_count_true_set(marked@, start as int);
        lemma_reach_refl(g, allowed@, start as int);
    }
    marked.set(start, true);
    let mut queue: Vec<usize> = Vec::new();
    queue.push(start);
    proof {
        assert forall|w: int| 0 <= w < n implies (#[trigger] marked[w] <==> queue@.contains(
            w as usize,
        )) by {
            if w == start as int {
                assert(queue@[0] == start);
            }
        }
    }
    let mut head: usize = 0;
    while head < queue.len()
        invariant
            g == adj_view(adj@),
            graph_wf(g),
            g.len() == n,
            allowed.len() == n,
            marked.len() == n,
            head <= queue.len(),
            queue.len() == count_true(marked@),
            queue@.no_duplicates(),
            forall|k: int| 0 <= k < queue.len() ==> #[trigger] queue@[k] < n,
            forall|w: int| 0 <= w < n ==> (#[trigger] marked[w] <==> queue@.contains(w as usize)),
            forall|w: int| 0 <= w < n && #[trigger] marked[w] ==> reach(g, allowed@, start as int, w),
            forall|k: int, v: int|
                0 <= k < head && #[trigger] edge(g, queue@[k] as int, v) && 0 <= v < n
                    && allowed[v] ==> marked[v],
            marked[start as int],
        decreases n - head,
    {
        proof {
            lemma_count_true_bound(marked@);
        }
        let u = queue[head];
        let succ = &adj[u];
        let mut j: usize = 0;
        while j < succ.len()
            invariant
                g == adj_view(adj@),
                graph_wf(g),
                g.len() == n,
                allowed.len() == n,
                marked.len() == n,
                u < n,
                *succ == adj@[u as int],
                head < queue.len(),
                queue@[head as int] == u,
                j <= succ.len(),
                queue.len() == count_true(marked@),
                queue@.no_duplicates(),
                forall|k: int| 0 <= k < queue.len() ==> #[trigger] queue@[k] < n,
                forall|w: int| 0 <= w < n ==> (#[trigger] marked[w] <==> queue@.contains(w as usize)),
                forall|w: int| 0 <= w < n && #[trigger] marked[w] ==> reach(g, allowed@, start as int, w),
                forall|k: int, v: int|
                    0 <= k < head && #[trigger] edge(g, queue@[k] as int, v) && 0 <= v < n
                        && allowed[v] ==> marked[v],
                forall|t: int| 0 <= t < j && allowed[succ[t] as int] ==> #[trigger] marked[succ[t] as int],
                marked[start as int],
            decreases succ.len() - j,
        {
            let v = succ[j];
            proof {
                assert(g[u as int][j as int] == v);
            }
            if allowed[v] && !marked[v] {
                proof {
                    assert(edge(g, u as int, v as int)) by {
                        assert(g[u as int][j as int] == v);
                    }
                    assert(marked[u as int]) by {
                        assert(queue@.contains(u));
                    }
                    lemma_reach_step(g, allowed@, start as int, u as int, v as int);
                    lemma_count_true_set(marked@, v as int);
                    assert(!queue@.contains(v));
                }
                let ghost q0 = queue@;
                let ghost m0 = marked@;
                marked.set(v, true);
                queue.push(v);
                proof {
                    assert(queue@ == q0.push(v));
                    assert forall|w: int| 0 <= w < n implies (#[trigger] marked[w]
                        <==> queue@.contains(w as usize)) by {
                        if w == v as int {
                            assert(queue@[queue.len() - 1] == v);
                        } else {
                            assert(marked[w] == m0[w]);
                            if q0.contains(w as usize) {
                                let k = q0.index_of(w as usize);
                                assert(queue@[k] == w as usize);
                            }
                            if queue@.contains(w as usize) {
                                let k = queue@.index_of(w as usize);
                                assert(queue@[k] == w as usize);
                                assert(k < q0.len());
                                assert(q0[k] == w as usize);
                            }
                        }
                    }
                }
            }
            j = j + 1;
        }
        proof {
            assert forall|k: int, v: int|
                0 <= k < head + 1 && #[trigger] edge(g, queue@[k] as int, v) && 0 <= v < n
                    && allowed[v] implies marked[v] by {
                if k == head {
                    let t = g[u as int].index_of(v as usize);
                    assert(succ[t] == v as usize);
                }
            }
        }
        head = head + 1;
    }
    proof {
        assert forall|w: int| 0 <= w < n implies (#[trigger] marked[w] <==> reach(
            g,
            allowed@,
            start as int,
            w,
        )) by {
            if reach(g, allowed@, start as int, w) {
                assert forall|a: int, b: int|
                    0 <= a < g.len() && marked[a] && #[trigger] edge(g, a, b) && 0 <= b < g.len()
                        && allowed[b] implies marked[b] by {
                    let k = queue@.index_of(a as usize);
                    assert(queue@[k] as int == a);
                    assert(edge(g, queue@[k] as int, b));
                }
                lemma_closed_holds_reach(g, allowed@, marked@, start as int, w);
            }
        }
    }
    marked
}

/// The converse graph: `b → a` wherever `g` has `a → b`.
pub fn converse_graph(adj: &Vec<Vec<usize>>) -> (rev: Vec<Vec<usize>>)
    requires
        graph_wf(adj_view(adj@)),
    ensures
        rev.len() == adj.len(),
        graph_wf(adj_view(rev@)),
        forall|a: int, b: int|
            #![trigger edge(adj_view(rev@), a, b)]
            0 <= a < adj.len() && 0 <= b < adj.len() ==> (edge(adj_view(rev@), a, b) <==> edge(
                adj_view(adj@),
                b,
                a,
            )),
{
    let n = adj.len();
    let ghost g = adj_view(adj@);
    let mut rev: Vec<Vec<usize>> = Vec::new();
    let mut a: usize = 0;
    while a < n
        invariant
            g == adj_view(adj@),
            graph_wf(g),
            n == adj.len(),
            a <= n,
            rev.len() == a,
            forall|x: int, k: int| 0 <= x < a && 0 <= k < rev@[x]@.len() ==> #[trigger] rev@[x]@[k] < n,
            forall|x: int, b: int|
                0 <= x < a && 0 <= b < n ==> (#[trigger] rev@[x]@.contains(b as usize) <==> edge(g, b, x)),
        decreases n - a,
    {
        let mut row: Vec<usize> = Vec::new();
        let mut b: usize = 0;
        while b < n
            invariant
                g == adj_view(adj@),
                graph_wf(g),
                n == adj.len(),
                a < n,
                b <= n,
                forall|k: int| 0 <= k < row@.len() ==> #[trigger] row@[k] < b,
                b <= n,
                forall|y: int| 0 <= y < n ==> (#[trigger] row@.contains(y as usize) <==> (y < b && edge(g, y, a as int))),
            decreases n - b,
        {
            let succ = &adj[b];
            let mut found = false;
            let mut k: usize = 0;
            while k < succ.len()
                invariant
                    *succ == adj@[b as int],
                    k <= succ.len(),
                    found <==> exists|t: int| 0 <= t < k && succ@[t] == a,
                decreases succ.len() - k,
            {
                if succ[k] == a {
                    found = true;
                }
                k = k + 1;
            }
            proof {
                assert(g[b as int] == succ@);
                if found {
                    let t = choose|t: int| 0 <= t < succ.len() && succ@[t] == a;
                    assert(g[b as int].contains(a));
                } else {
                    assert(!g[b as int].contains(a));
                }
            }
            let ghost r0 = row@;
            assert(forall|y: int| 0 <= y < n ==> (#[trigger] r0.contains(y as usize) <==> (y < b && edge(g, y, a as int))));
            if found {
                row.push(b);
            } else {
                assert(row@ == r0);
            }
            proof {
                assert forall|y: int| 0 <= y < n implies (#[trigger] row@.contains(y as usize) <==> (y < b + 1 && edge(g, y, a as int))) by {
                    if r0.contains(b) {
                        let t = r0.index_of(b);
                        assert(r0[t] < b);
                    }
                    if y == b as int {
                        assert(found <==> edge(g, y, a as int));
                    }
                    if found {
                        assert(row@ == r0.push(b));
                        if y == b as int {
                            assert(row@[r0.len() as int] == b);
                            assert(row@.contains(y as usize));
                        } else if row@.contains(y as usize) {
                            let t = row@.index_of(y as usize);
                            assert(t < r0.len());
                            assert(r0[t] == y as usize);
                            assert(r0.contains(y as usize));
                        } else if r0.contains(y as usize) {
                            let t = r0.index_of(y as usize);
                            assert(row@[t] == y as usize);
                        }
                        assert(row@.contains(y as usize) <==> (y < b + 1 && edge(g, y, a as int)));
                    } else {
                        assert(row@ == r0);
                        assert(row@.contains(y as usize) <==> (y < b + 1 && edge(g, y, a as int)));
                    }
                }
            }
            b = b + 1;
        }
        rev.push(row);
        proof {
            assert forall|x: int, b: int|
                0 <= x < a + 1 && 0 <= b < n implies (#[trigger] rev@[x]@.contains(b as usize) <==> edge(g, b, x)) by {
            }
        }
        a = a + 1;
    }
    proof {
        let rg = adj_view(rev@);
        assert forall|x: int, k: int| 0 <= x < rg.len() && 0 <= k < rg[x].len() implies #[trigger] rg[x][k] < rg.len() by {
            assert(rg[x] == rev@[x]@);
        }
        assert forall|x: int, y: int|
            0 <= x < adj.len() && 0 <= y < adj.len() implies (edge(adj_view(rev@), x, y) <==> edge(g, y, x)) by {
            assert(rg[x] == rev@[x]@);
        }
    }
    rev
}

/// Nothing set counts zero.
pub proof fn lemma_count_all_false(s: Seq<bool>)
    requires
        forall|i: int| 0 <= i < s.len() ==> !s[i],
    ensures
        count_true(s) == 0,
    decreases s.len(),
{
    if s.len() > 0 {
        lemma_count_all_false(s.drop_last());
    }
}

} // verus!
