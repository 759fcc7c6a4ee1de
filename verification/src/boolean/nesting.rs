//! Grouping nested loops into outer boundaries with their holes.
//!
//! Each loop's parent (the smallest strictly larger loop that contains it) is
//! found geometrically; here the parents decide the groups: every loop
//! without a parent is an outer boundary whose holes are the loops naming it
//! as parent, and a loop whose parent is itself a hole stands alone.

use vstd::prelude::*;

verus! {

/// An outer loop and the holes nested directly in it, as loop positions.
#[derive(Debug, Clone, PartialEq, Eq)]
pub struct NestGroup {
    /// The outer loop.
    pub outer: usize,
    /// The loops whose parent is the outer loop, in ascending order.
    pub inners: Vec<usize>,
}

/// The positions below `k`, ascending, that `keep` holds of.
pub open spec fn positions_where(keep: spec_fn(int) -> bool, k: nat) -> Seq<usize>
    decreases k,
{
    if k == 0 {
        Seq::empty()
    } else {
        let s = positions_where(keep, (k - 1) as nat);
        if keep(k - 1) {
            s.push((k - 1) as usize)
        } else {
            s
        }
    }
}

/// The positions `positions_where` lists are below `k`, satisfy `keep`,
/// ascend strictly, and include every position below `k` that satisfies it.
pub proof fn lemma_positions_where(keep: spec_fn(int) -> bool, k: nat)
    requires
        k <= usize::MAX,
    ensures
        forall|t: int|
            0 <= t < positions_where(keep, k).len() ==> #[trigger] positions_where(keep, k)[t] < k && keep(
                positions_where(keep, k)[t] as int,
            ),
        forall|a: int, b: int|
            0 <= a < b < positions_where(keep, k).len() ==> #[trigger] positions_where(keep, k)[a]
                < #[trigger] positions_where(keep, k)[b],
        forall|x: int| 0 <= x < k && keep(x) ==> #[trigger] positions_where(keep, k).contains(x as usize),
    decreases k,
{
    if k > 0 {
        lemma_positions_where(keep, (k - 1) as nat);
        let s = positions_where(keep, (k - 1) as nat);
        let s1 = positions_where(keep, k);
        assert forall|x: int| 0 <= x < k && keep(x) implies #[trigger] s1.contains(x as usize) by {
            if x == k - 1 {
                assert(s1[s1.len() - 1] == x as usize);
            } else {
                assert(s.contains(x as usize));
                let t = s.index_of(x as usize);
                assert(s1[t] == x as usize);
            }
        }
    }
}

/// A loop without a parent.
pub open spec fn root_pred(parent: Seq<Option<usize>>) -> spec_fn(int) -> bool {
    |i: int| parent[i] is None
}

/// A loop whose parent is `r`.
pub open spec fn child_pred(parent: Seq<Option<usize>>, r: int) -> spec_fn(int) -> bool {
    |i: int| parent[i] == Some(r as usize)
}

/// A loop whose parent is not an outer loop: it has one, but that one has a
/// parent too (or names no loop).
pub open spec fn orphan_pred(parent: Seq<Option<usize>>) -> spec_fn(int) -> bool {
    |i: int|
        parent[i] is Some && (parent[i]->0 >= parent.len() || parent[parent[i]->0 as int] is Some)
}

/// The outer loops, ascending.
pub open spec fn roots(parent: Seq<Option<usize>>) -> Seq<usize> {
    positions_where(root_pred(parent), parent.len())
}

/// The holes of `r`, ascending.
pub open spec fn children(parent: Seq<Option<usize>>, r: int) -> Seq<usize> {
    positions_where(child_pred(parent, r), parent.len())
}

/// The loops that stand alone although they have a parent, ascending.
pub open spec fn orphans(parent: Seq<Option<usize>>) -> Seq<usize> {
    positions_where(orphan_pred(parent), parent.len())
}

/// The groups the parents give: one per outer loop, in ascending order, with
/// its holes; then one per loop whose parent is not an outer loop, alone.
pub open spec fn nest_spec(parent: Seq<Option<usize>>) -> Seq<(usize, Seq<usize>)> {
    roots(parent).map_values(|r: usize| (r, children(parent, r as int))) + orphans(parent).map_values(
        |o: usize| (o, Seq::<usize>::empty()),
    )
}

/// Group loops by their parents: each loop without a parent is an outer
/// boundary collecting the loops that name it as parent; a loop whose parent
/// has a parent itself is its own group.
pub fn group_nested(parent: &Vec<Option<usize>>) -> (groups: Vec<NestGroup>)
    ensures
        groups.len() == nest_spec(parent@).len(),
        forall|g: int|
            0 <= g < groups.len() ==> (#[trigger] groups@[g]).outer == nest_spec(parent@)[g].0
                && groups@[g].inners@ == nest_spec(parent@)[g].1,
        // A loop whose parent is an outer loop is a hole of that loop's
        // group, wherever the two stand in the list.
        forall|i: int|
            0 <= i < parent.len() && (#[trigger] parent@[i]) is Some && parent@[i]->0 < parent.len() && parent@[parent@[i]->0 as int] is None
                ==> exists|g: int|
                0 <= g < groups.len() && (#[trigger] groups@[g]).outer == parent@[i]->0 && groups@[g].inners@.contains(
                    i as usize,
                ),
        // A group is an outer loop with holes naming it as parent, or a loop
        // whose parent is not an outer loop, alone.
        forall|g: int|
            0 <= g < groups.len() ==> (#[trigger] groups@[g]).outer < parent.len() && ((parent@[groups@[g].outer as int] is None
                && forall|t: int|
                0 <= t < groups@[g].inners.len() ==> (#[trigger] groups@[g].inners@[t]) < parent.len() && parent@[
                    groups@[g].inners@[t] as int] == Some(groups@[g].outer)) || (parent@[groups@[g].outer as int] matches Some(p)
                && (p >= parent.len() || parent@[p as int] is Some) && groups@[g].inners.len() == 0)),
{
    let n = parent.len();
    let ghost rp = root_pred(parent@);
    let ghost op = orphan_pred(parent@);
    let mut groups: Vec<NestGroup> = Vec::new();
    let mut i: usize = 0;
    while i < n
        invariant
            n == parent.len(),
            i <= n,
            rp == root_pred(parent@),
            groups.len() == positions_where(rp, i as nat).len(),
            forall|g: int|
                0 <= g < groups.len() ==> (#[trigger] groups@[g]).outer == positions_where(rp, i as nat)[g]
                    && groups@[g].inners@ == children(parent@, groups@[g].outer as int),
        decreases n - i,
    {
        if parent[i].is_none() {
            let ghost cp = child_pred(parent@, i as int);
            let mut inners: Vec<usize> = Vec::new();
            let mut j: usize = 0;
            while j < n
                invariant
                    n == parent.len(),
                    j <= n,
                    i < n,
                    cp == child_pred(parent@, i as int),
                    inners@ == positions_where(cp, j as nat),
                decreases n - j,
            {
                if parent[j] == Some(i) {
                    inners.push(j);
                }
                j = j + 1;
            }
            groups.push(NestGroup { outer: i, inners });
        }
        i = i + 1;
    }
    let ghost nr = groups.len();
    let mut k: usize = 0;
    while k < n
        invariant
            n == parent.len(),
            k <= n,
            rp == root_pred(parent@),
            op == orphan_pred(parent@),
            nr == roots(parent@).len(),
            groups.len() == nr + positions_where(op, k as nat).len(),
            forall|g: int|
                0 <= g < nr ==> (#[trigger] groups@[g]).outer == roots(parent@)[g] && groups@[g].inners@ == children(
                    parent@,
                    groups@[g].outer as int,
                ),
            forall|g: int|
                nr <= g < groups.len() ==> (#[trigger] groups@[g]).outer == positions_where(op, k as nat)[g - nr]
                    && groups@[g].inners@.len() == 0,
        decreases n - k,
    {
        let orphan = match parent[k] {
            None => false,
            Some(p) => p >= n || parent[p].is_some(),
        };
        if orphan {
            groups.push(NestGroup { outer: k, inners: Vec::new() });
        }
        k = k + 1;
    }
    proof {
        let ns = nest_spec(parent@);
        assert forall|g: int| 0 <= g < groups.len() implies (#[trigger] groups@[g]).outer == ns[g].0
            && groups@[g].inners@ == ns[g].1 by {
            if g < nr {
                assert(ns[g] == (roots(parent@)[g], children(parent@, roots(parent@)[g] as int)));
            } else {
                assert(ns[g] == (orphans(parent@)[g - nr], Seq::<usize>::empty()));
            }
        }
        lemma_nesting_law(parent@);
        assert forall|i: int|
            0 <= i < parent.len() && (#[trigger] parent@[i]) is Some && parent@[i]->0 < parent.len() && parent@[parent@[i]->0 as int] is None
                implies exists|g: int|
                0 <= g < groups.len() && (#[trigger] groups@[g]).outer == parent@[i]->0 && groups@[g].inners@.contains(
                    i as usize,
                ) by {
            let g = choose|g: int| 0 <= g < ns.len() && (#[trigger] ns[g]).0 == parent@[i]->0 && ns[g].1.contains(i as usize);
            assert(groups@[g].outer == ns[g].0);
        }
        assert forall|g: int| 0 <= g < groups.len() implies (#[trigger] groups@[g]).outer < parent.len() && ((parent@[groups@[g].outer as int] is None
                && forall|t: int|
                0 <= t < groups@[g].inners.len() ==> (#[trigger] groups@[g].inners@[t]) < parent.len() && parent@[
                    groups@[g].inners@[t] as int] == Some(groups@[g].outer)) || (parent@[groups@[g].outer as int] matches Some(p)
                && (p >= parent.len() || parent@[p as int] is Some) && groups@[g].inners.len() == 0)) by {
            assert(ns[g].0 == groups@[g].outer && ns[g].1 == groups@[g].inners@);
        }
    }
    groups
}


/// The groups follow the parents: a loop whose parent is an outer loop is a
/// hole of that loop's group, whichever of the two comes first; and each
/// group is either an outer loop with holes that all name it as parent, or a
/// loop whose parent is not an outer loop, with no holes.
pub proof fn lemma_nesting_law(parent: Seq<Option<usize>>)
    requires
        parent.len() <= usize::MAX,
    ensures
        forall|i: int|
            0 <= i < parent.len() && (#[trigger] parent[i]) is Some && parent[i]->0 < parent.len() && parent[parent[i]->0 as int] is None
                ==> exists|g: int|
                0 <= g < nest_spec(parent).len() && (#[trigger] nest_spec(parent)[g]).0 == parent[i]->0
                    && nest_spec(parent)[g].1.contains(i as usize),
        forall|g: int|
            0 <= g < nest_spec(parent).len() ==> (#[trigger] nest_spec(parent)[g]).0 < parent.len() && ((parent[nest_spec(parent)[g].0 as int] is None
                && forall|t: int|
                0 <= t < nest_spec(parent)[g].1.len() ==> (#[trigger] nest_spec(parent)[g].1[t]) < parent.len()
                    && parent[nest_spec(parent)[g].1[t] as int] == Some(nest_spec(parent)[g].0)) || (parent[nest_spec(parent)[g].0 as int] matches Some(p)
                && (p >= parent.len() || parent[p as int] is Some) && nest_spec(parent)[g].1.len() == 0)),
{
    let ns = nest_spec(parent);
    let n = parent.len();
    let nr = roots(parent).len() as int;
    let rs = roots(parent);
    let os = orphans(parent);
    lemma_positions_where(root_pred(parent), n);
    lemma_positions_where(orphan_pred(parent), n);
    assert forall|i: int|
        0 <= i < n && (#[trigger] parent[i]) is Some && parent[i]->0 < n && parent[parent[i]->0 as int] is None
            implies exists|g: int| 0 <= g < ns.len() && (#[trigger] ns[g]).0 == parent[i]->0 && ns[g].1.contains(i as usize) by {
        let p = parent[i]->0 as int;
        assert(root_pred(parent)(p));
        assert(rs.contains(p as usize));
        let g = rs.index_of(p as usize);
        lemma_positions_where(child_pred(parent, p), n);
        assert(child_pred(parent, p)(i));
        assert(ns[g] == (rs[g], children(parent, rs[g] as int)));
    }
    assert forall|g: int| 0 <= g < ns.len() implies (#[trigger] ns[g]).0 < n && ((parent[ns[g].0 as int] is None
        && forall|t: int| 0 <= t < ns[g].1.len() ==> (#[trigger] ns[g].1[t]) < n && parent[ns[g].1[t] as int] == Some(ns[g].0))
        || (parent[ns[g].0 as int] matches Some(p) && (p >= n || parent[p as int] is Some) && ns[g].1.len() == 0)) by {
        if g < nr {
            let r = rs[g];
            assert(ns[g] == (r, children(parent, r as int)));
            assert(root_pred(parent)(r as int));
            lemma_positions_where(child_pred(parent, r as int), n);
            assert forall|t: int| 0 <= t < ns[g].1.len() implies (#[trigger] ns[g].1[t]) < n && parent[ns[g].1[t] as int]
                == Some(ns[g].0) by {
                assert(child_pred(parent, r as int)(ns[g].1[t] as int));
            }
        } else {
            let o = os[g - nr];
            assert(ns[g] == (o, Seq::<usize>::empty()));
            assert(orphan_pred(parent)(o as int));
        }
    }
}

/// The loops of group `g`: its outer loop, then its holes.
pub open spec fn group_members(ns: Seq<(usize, Seq<usize>)>, g: int) -> Seq<usize> {
    seq![ns[g].0] + ns[g].1
}

/// Some group holds loop `x`.
pub open spec fn in_some_group(ns: Seq<(usize, Seq<usize>)>, x: usize) -> bool {
    exists|g: int, t: int| 0 <= g < ns.len() && 0 <= t < group_members(ns, g).len() && #[trigger] group_members(ns, g)[t] == x
}

proof fn lemma_member_kind(parent: Seq<Option<usize>>, g: int, t: int)
    requires
        parent.len() <= usize::MAX,
        0 <= g < nest_spec(parent).len(),
        0 <= t < group_members(nest_spec(parent), g).len(),
    ensures
        ({
            let x = group_members(nest_spec(parent), g)[t];
            let nr = roots(parent).len() as int;
            &&& x < parent.len()
            &&& (g < nr && t == 0 && parent[x as int] is None && x == roots(parent)[g])
                || (g < nr && t >= 1 && parent[x as int] == Some(roots(parent)[g]) && x == children(
                parent,
                roots(parent)[g] as int,
            )[t - 1]) || (g >= nr && t == 0 && orphan_pred(parent)(x as int) && x == orphans(parent)[g - nr])
        }),
{
    let ns = nest_spec(parent);
    let nr = roots(parent).len() as int;
    lemma_positions_where(root_pred(parent), parent.len());
    lemma_positions_where(orphan_pred(parent), parent.len());
    if g < nr {
        let r = roots(parent)[g];
        assert(ns[g] == (r, children(parent, r as int)));
        if t >= 1 {
            lemma_positions_where(child_pred(parent, r as int), parent.len());
            let c = children(parent, r as int);
            assert(group_members(ns, g)[t] == c[t - 1]);
            assert(child_pred(parent, r as int)(c[t - 1] as int));
        } else {
            assert(root_pred(parent)(r as int));
        }
    } else {
        let o = orphans(parent)[g - nr];
        assert(ns[g] == (o, Seq::<usize>::empty()));
        assert(orphan_pred(parent)(o as int));
    }
}

/// Grouping by parents places every loop exactly once: each loop is the
/// outer loop or one of the holes of exactly one group, and appears there
/// once; and groups hold nothing but loops.
pub proof fn lemma_nesting_partitions(parent: Seq<Option<usize>>)
    requires
        parent.len() <= usize::MAX,
    ensures
        forall|i: int| 0 <= i < parent.len() ==> #[trigger] in_some_group(nest_spec(parent), i as usize),
        forall|g1: int, g2: int, t1: int, t2: int|
            0 <= g1 < nest_spec(parent).len() && 0 <= g2 < nest_spec(parent).len() && 0 <= t1 < group_members(
                nest_spec(parent),
                g1,
            ).len() && 0 <= t2 < group_members(nest_spec(parent), g2).len() && #[trigger] group_members(
                nest_spec(parent),
                g1,
            )[t1] == #[trigger] group_members(nest_spec(parent), g2)[t2] ==> g1 == g2 && t1 == t2,
        forall|g: int, t: int|
            0 <= g < nest_spec(parent).len() && 0 <= t < group_members(nest_spec(parent), g).len() ==> #[trigger] group_members(
                nest_spec(parent),
                g,
            )[t] < parent.len(),
{
    let ns = nest_spec(parent);
    let n = parent.len();
    let nr = roots(parent).len() as int;
    let rs = roots(parent);
    let os = orphans(parent);
    lemma_positions_where(root_pred(parent), n);
    lemma_positions_where(orphan_pred(parent), n);
    assert forall|i: int| 0 <= i < n implies #[trigger] in_some_group(ns, i as usize) by {
        if parent[i] is None {
            assert(root_pred(parent)(i));
            assert(rs.contains(i as usize));
            let g = rs.index_of(i as usize);
            assert(ns[g] == (rs[g], children(parent, rs[g] as int)));
            assert(group_members(ns, g)[0] == i as usize);
        } else if orphan_pred(parent)(i) {
            assert(os.contains(i as usize));
            let q = os.index_of(i as usize);
            assert(ns[nr + q] == (os[q], Seq::<usize>::empty()));
            assert(group_members(ns, nr + q)[0] == i as usize);
        } else {
            let p = parent[i]->0 as int;
            assert(root_pred(parent)(p));
            assert(rs.contains(p as usize));
            let g = rs.index_of(p as usize);
            lemma_positions_where(child_pred(parent, p), n);
            let c = children(parent, p);
            assert(child_pred(parent, p)(i));
            assert(c.contains(i as usize));
            let t = c.index_of(i as usize);
            assert(ns[g] == (rs[g], children(parent, rs[g] as int)));
            assert(group_members(ns, g)[t + 1] == i as usize);
        }
    }
    assert forall|g1: int, g2: int, t1: int, t2: int|
        0 <= g1 < ns.len() && 0 <= g2 < ns.len() && 0 <= t1 < group_members(ns, g1).len() && 0 <= t2 < group_members(
            ns,
            g2,
        ).len() && #[trigger] group_members(ns, g1)[t1] == #[trigger] group_members(ns, g2)[t2] implies g1 == g2 && t1
        == t2 by {
        lemma_member_kind(parent, g1, t1);
        lemma_member_kind(parent, g2, t2);
        let x = group_members(ns, g1)[t1];
        if g1 < nr && g2 < nr && t1 >= 1 && t2 >= 1 {
            assert(rs[g1] == rs[g2]);
            if g1 != g2 {
                if g1 < g2 {
                    assert(rs[g1] < rs[g2]);
                } else {
                    assert(rs[g2] < rs[g1]);
                }
            }
            let r = rs[g1] as int;
            lemma_positions_where(child_pred(parent, r), n);
            let c = children(parent, r);
            if t1 != t2 {
                if t1 < t2 {
                    assert(c[t1 - 1] < c[t2 - 1]);
                } else {
                    assert(c[t2 - 1] < c[t1 - 1]);
                }
            }
        } else if g1 < nr && g2 < nr && t1 == 0 && t2 == 0 {
            if g1 < g2 {
                assert(rs[g1] < rs[g2]);
            } else if g2 < g1 {
                assert(rs[g2] < rs[g1]);
            }
        } else if g1 >= nr && g2 >= nr {
            if g1 < g2 {
                assert(os[g1 - nr] < os[g2 - nr]);
            } else if g2 < g1 {
                assert(os[g2 - nr] < os[g1 - nr]);
            }
        } else if g1 < nr && t1 >= 1 && g2 >= nr {
            let r = rs[g1] as int;
            assert(root_pred(parent)(r));
        } else if g2 < nr && t2 >= 1 && g1 >= nr {
            let r = rs[g2] as int;
            assert(root_pred(parent)(r));
        }
    }
    assert forall|g: int, t: int| 0 <= g < ns.len() && 0 <= t < group_members(ns, g).len() implies #[trigger] group_members(
        ns,
        g,
    )[t] < n by {
        lemma_member_kind(parent, g, t);
    }
}

} // verus!
