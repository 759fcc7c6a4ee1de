//! Union-find over `0..n`, the grouping step shared by the boolean cut: a
//! parent array whose links form a forest, a find with path halving and a
//! union by root.

use vstd::prelude::*;

verus! {

/// Follow parent links from `x` at most `k` times, stopping at a root.
pub open spec fn follow(p: Seq<usize>, x: int, k: nat) -> int
    decreases k,
{
    if k == 0 || !(0 <= x < p.len()) || p[x] == x {
        x
    } else {
        follow(p, p[x] as int, (k - 1) as nat)
    }
}

/// The root of the tree holding `x`.
pub open spec fn uf_root(p: Seq<usize>, x: int) -> int {
    follow(p, x, p.len())
}

/// `x` is a root: its parent link points at itself.
pub open spec fn is_root(p: Seq<usize>, x: int) -> bool {
    0 <= x < p.len() && p[x] == x
}

/// `rank` strictly increases along every parent link that is not a self
/// link, and every link stays within `0..n`.
pub open spec fn ranked(p: Seq<usize>, rank: Seq<nat>) -> bool {
    &&& rank.len() == p.len()
    &&& forall|x: int| 0 <= x < p.len() ==> #[trigger] p[x] < p.len()
    &&& forall|x: int| 0 <= x < p.len() && p[x] != x ==> #[trigger] rank[x] < rank[p[x] as int]
}

/// The parent array is a forest: its links never close a cycle.
pub open spec fn is_forest(p: Seq<usize>) -> bool {
    exists|rank: Seq<nat>| ranked(p, rank)
}

/// Following one link more steps from the end of a walk.
proof fn lemma_follow_last(p: Seq<usize>, x: int, k: nat)
    requires
        forall|y: int| 0 <= y < p.len() ==> #[trigger] p[y] < p.len(),
        0 <= x < p.len(),
    ensures
        0 <= follow(p, x, k) < p.len(),
        follow(p, x, k + 1) == if p[follow(p, x, k)] == follow(p, x, k) {
            follow(p, x, k)
        } else {
            p[follow(p, x, k)] as int
        },
    decreases k,
{
    if k == 0 {
        assert(follow(p, x, 0) == x);
        if p[x] != x {
            assert(follow(p, p[x] as int, 0) == p[x] as int);
        }
    } else if p[x] != x {
        lemma_follow_last(p, p[x] as int, (k - 1) as nat);
        assert(follow(p, x, k) == follow(p, p[x] as int, (k - 1) as nat));
        assert(follow(p, x, k + 1) == follow(p, p[x] as int, k));
    }
}

/// Once a walk reaches a root it stays there.
proof fn lemma_follow_rooted(p: Seq<usize>, x: int, k: nat, k2: nat)
    requires
        forall|y: int| 0 <= y < p.len() ==> #[trigger] p[y] < p.len(),
        0 <= x < p.len(),
        k <= k2,
        is_root(p, follow(p, x, k)),
    ensures
        follow(p, x, k2) == follow(p, x, k),
    decreases k2 - k,
{
    if k < k2 {
        lemma_follow_last(p, x, k);
        lemma_follow_rooted(p, x, k + 1, k2);
    }
}

/// A walk that has not reached a root after `k` steps passed `k + 1`
/// distinct nodes, so in a forest of `n` nodes every walk of `n` steps ends
/// at a root.
proof fn lemma_follow_reaches_root(p: Seq<usize>, rank: Seq<nat>, x: int, k: nat)
    requires
        ranked(p, rank),
        0 <= x < p.len(),
        k >= p.len(),
    ensures
        is_root(p, follow(p, x, k)),
{
    if !is_root(p, follow(p, x, k)) {
        assert forall|i: nat| i <= k implies !is_root(p, #[trigger] follow(p, x, i)) by {
            lemma_follow_last(p, x, i);
            if is_root(p, follow(p, x, i)) {
                lemma_follow_rooted(p, x, i, k);
            }
        }
        let c = Seq::new(k + 1, |i: int| follow(p, x, i as nat));
        assert forall|i: int, j: int| 0 <= i < j <= k implies rank[#[trigger] c[i]] < rank[#[trigger] c[j]] by {
            lemma_rank_increases(p, rank, x, i as nat, j as nat);
        }
        assert forall|i: int| 0 <= i < c.len() implies 0 <= #[trigger] c[i] < p.len() by {
            lemma_follow_last(p, x, i as nat);
        }
        assert(c.no_duplicates()) by {
            assert forall|i: int, j: int| 0 <= i < c.len() && 0 <= j < c.len() && i != j implies c[i] != c[j] by {
                if i < j {
                    assert(rank[c[i]] < rank[c[j]]);
                } else {
                    assert(rank[c[j]] < rank[c[i]]);
                }
            }
        }
        c.unique_seq_to_set();
        vstd::set_lib::lemma_int_range(0, p.len() as int);
        assert(c.to_set().subset_of(vstd::set_lib::set_int_range(0, p.len() as int))) by {
            assert forall|y: int| #[trigger] c.to_set().contains(y) implies vstd::set_lib::set_int_range(
                0,
                p.len() as int,
            ).contains(y) by {
                let i = c.index_of(y);
                assert(c[i] == y);
            }
        }
        vstd::set_lib::lemma_len_subset(c.to_set(), vstd::set_lib::set_int_range(0, p.len() as int));
    }
}

/// Along a walk that has not reached a root, ranks strictly increase.
proof fn lemma_rank_increases(p: Seq<usize>, rank: Seq<nat>, x: int, i: nat, j: nat)
    requires
        ranked(p, rank),
        0 <= x < p.len(),
        i < j,
        forall|t: nat| t <= j ==> !is_root(p, #[trigger] follow(p, x, t)),
    ensures
        rank[follow(p, x, i)] < rank[follow(p, x, j)],
    decreases j - i,
{
    lemma_follow_last(p, x, (j - 1) as nat);
    assert(!is_root(p, follow(p, x, (j - 1) as nat)));
    if i < j - 1 {
        lemma_rank_increases(p, rank, x, i, (j - 1) as nat);
    }
}

/// The root of a node is a root, and it is the root of the node's parent.
pub proof fn lemma_root_unfold(p: Seq<usize>, rank: Seq<nat>, y: int)
    requires
        ranked(p, rank),
        0 <= y < p.len(),
    ensures
        is_root(p, uf_root(p, y)),
        uf_root(p, y) == if p[y] == y {
            y
        } else {
            uf_root(p, p[y] as int)
        },
{
    let n = p.len();
    lemma_follow_reaches_root(p, rank, y, n);
    if p[y] != y {
        assert(follow(p, y, n) == follow(p, p[y] as int, (n - 1) as nat));
        lemma_follow_rooted(p, p[y] as int, (n - 1) as nat, n);
    } else {
        assert(follow(p, y, n) == y);
    }
}

/// Halving the path at `x` (linking `x` to its grandparent) keeps a forest
/// and keeps every node's root.
proof fn lemma_halve(p: Seq<usize>, rank: Seq<nat>, x: int, y: int)
    requires
        ranked(p, rank),
        0 <= x < p.len(),
        0 <= y < p.len(),
    ensures
        ranked(p.update(x, p[p[x] as int]), rank),
        uf_root(p.update(x, p[p[x] as int]), y) == uf_root(p, y),
    decreases rank_max(rank) - rank[y],
{
    lemma_rank_max(rank);
    let q = p.update(x, p[p[x] as int]);
    assert(ranked(q, rank)) by {
        assert forall|z: int| 0 <= z < q.len() && q[z] != z implies #[trigger] rank[z] < rank[q[z] as int] by {
            if z == x {
                let px = p[x] as int;
                if p[px] != px {
                    assert(rank[px] < rank[p[px] as int]);
                }
                if px == x {
                    assert(q[z] == x);
                }
            }
        }
    }
    lemma_root_unfold(p, rank, y);
    lemma_root_unfold(q, rank, y);
    if q[y] != y {
        if y == x {
            let px = p[x] as int;
            lemma_root_unfold(p, rank, px);
            assert(rank[y] < rank[q[y] as int]);
            lemma_halve(p, rank, x, q[y] as int);
            if p[px] == px {
                assert(q[y] as int == px);
            }
        } else {
            assert(rank[y] < rank[p[y] as int]);
            lemma_halve(p, rank, x, p[y] as int);
        }
    }
}

/// The largest rank.
pub open spec fn rank_max(rank: Seq<nat>) -> nat
    decreases rank.len(),
{
    if rank.len() == 0 {
        0
    } else if rank_max(rank.drop_last()) < rank.last() {
        rank.last()
    } else {
        rank_max(rank.drop_last())
    }
}

proof fn lemma_rank_max(rank: Seq<nat>)
    ensures
        forall|i: int| 0 <= i < rank.len() ==> #[trigger] rank[i] <= rank_max(rank),
    decreases rank.len(),
{
    if rank.len() > 0 {
        lemma_rank_max(rank.drop_last());
        assert forall|i: int| 0 <= i < rank.len() implies #[trigger] rank[i] <= rank_max(rank) by {
            if i < rank.len() - 1 {
                assert(rank[i] == rank.drop_last()[i]);
            }
        }
    }
}

/// The rank that linking root `ra` under root `rb` calls for: `rb` is lifted
/// above `ra`.
spec fn link_rank(rank: Seq<nat>, ra: int, rb: int) -> Seq<nat> {
    if rank[rb] <= rank[ra] {
        rank.update(rb, rank[ra] + 1)
    } else {
        rank
    }
}

/// Linking root `ra` under another root `rb` keeps a forest and moves the
/// nodes of `ra`'s tree, and only those, to `rb`.
proof fn lemma_link(p: Seq<usize>, rank: Seq<nat>, ra: int, rb: int, y: int)
    requires
        ranked(p, rank),
        is_root(p, ra),
        is_root(p, rb),
        ra != rb,
        0 <= y < p.len(),
    ensures
        ranked(p.update(ra, rb as usize), link_rank(rank, ra, rb)),
        uf_root(p.update(ra, rb as usize), y) == if uf_root(p, y) == ra {
            rb
        } else {
            uf_root(p, y)
        },
    decreases rank_max(rank) - rank[y],
{
    lemma_rank_max(rank);
    let q = p.update(ra, rb as usize);
    let r2 = link_rank(rank, ra, rb);
    assert(ranked(q, r2)) by {
        assert forall|z: int| 0 <= z < q.len() && q[z] != z implies #[trigger] r2[z] < r2[q[z] as int] by {
            if z != ra {
                assert(q[z] == p[z]);
                assert(rank[z] < rank[p[z] as int]);
            }
        }
    }
    lemma_root_unfold(p, rank, y);
    lemma_root_unfold(q, r2, y);
    if p[y] == y {
        if y == ra {
            lemma_root_unfold(q, r2, rb);
        }
    } else {
        assert(q[y] == p[y]);
        assert(rank[y] < rank[p[y] as int]);
        lemma_link(p, rank, ra, rb, p[y] as int);
    }
}

/// The root of `x`'s tree, halving the path on the way: every node on it is
/// relinked to its grandparent. Every node keeps its root.
pub fn uf_find(parent: &mut [usize], x: usize) -> (r: usize)
    requires
        is_forest(old(parent)@),
        x < old(parent)@.len(),
    ensures
        r == uf_root(old(parent)@, x as int),
        is_root(final(parent)@, r as int),
        final(parent)@.len() == old(parent)@.len(),
        is_forest(final(parent)@),
        forall|y: int| 0 <= y < old(parent)@.len() ==> #[trigger] uf_root(final(parent)@, y) == uf_root(old(parent)@, y),
{
    let ghost p0 = parent@;
    let ghost rank = choose|rank: Seq<nat>| ranked(parent@, rank);
    let ghost x0 = x as int;
    let mut x = x;
    proof {
        lemma_rank_max(rank);
    }
    while parent[x] != x
        invariant
            ranked(parent@, rank),
            parent@.len() == p0.len(),
            x < parent@.len(),
            forall|i: int| 0 <= i < rank.len() ==> #[trigger] rank[i] <= rank_max(rank),
            forall|y: int| 0 <= y < p0.len() ==> #[trigger] uf_root(parent@, y) == uf_root(p0, y),
            uf_root(parent@, x as int) == uf_root(p0, x0),
        decreases rank_max(rank) - rank[x as int],
    {
        let ghost p1 = parent@;
        let px = parent[x];
        let gp = parent[px];
        proof {
            assert forall|y: int| 0 <= y < p0.len() implies #[trigger] uf_root(p1.update(x as int, gp), y) == uf_root(p0, y) by {
                lemma_halve(p1, rank, x as int, y);
            }
            lemma_halve(p1, rank, x as int, x as int);
            lemma_root_unfold(p1, rank, x as int);
            lemma_root_unfold(p1, rank, px as int);
            assert(rank[x as int] < rank[px as int]);
            if p1[px as int] != px {
                assert(rank[px as int] < rank[gp as int]);
            }
        }
        parent[x] = gp;
        proof {
            assert(parent@ == p1.update(x as int, gp));
            lemma_root_unfold(parent@, rank, x as int);
        }
        x = gp;
    }
    proof {
        lemma_root_unfold(parent@, rank, x as int);
    }
    x
}

/// Merge the trees of `a` and `b`: the root of `a`'s tree is linked under the
/// root of `b`'s. Every node of `a`'s tree then has `b`'s root; every other
/// node keeps its root.
pub fn uf_union(parent: &mut [usize], a: usize, b: usize)
    requires
        is_forest(old(parent)@),
        a < old(parent)@.len(),
        b < old(parent)@.len(),
    ensures
        final(parent)@.len() == old(parent)@.len(),
        is_forest(final(parent)@),
        uf_root(final(parent)@, a as int) == uf_root(final(parent)@, b as int),
        forall|y: int|
            0 <= y < old(parent)@.len() ==> #[trigger] uf_root(final(parent)@, y) == if uf_root(
                old(parent)@,
                y,
            ) == uf_root(old(parent)@, a as int) {
                uf_root(old(parent)@, b as int)
            } else {
                uf_root(old(parent)@, y)
            },
{
    let ra = uf_find(parent, a);
    let rb = uf_find(parent, b);
    if ra != rb {
        let ghost p1 = parent@;
        let ghost rank = choose|rank: Seq<nat>| ranked(p1, rank);
        proof {
            lemma_root_unfold(p1, rank, a as int);
            lemma_root_unfold(p1, rank, b as int);
            assert forall|y: int| 0 <= y < p1.len() implies #[trigger] uf_root(p1.update(ra as int, rb), y) == if uf_root(p1, y) == ra {
                rb as int
            } else {
                uf_root(p1, y)
            } by {
                lemma_link(p1, rank, ra as int, rb as int, y);
            }
            lemma_link(p1, rank, ra as int, rb as int, 0);
        }
        parent[ra] = rb;
        proof {
            assert(parent@ == p1.update(ra as int, rb));
        }
    }
}

} // verus!
