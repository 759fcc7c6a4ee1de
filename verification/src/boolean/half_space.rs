//! The side rules of the half-space cut: which vertices, edges and faces lie on
//! the kept side of the cutting plane, and how a face loop's boundary splits
//! into maximal kept fragments.

use vstd::prelude::*;

use crate::tolerance::Sign3;
use crate::topo::Sense;

verus! {

/// Which side of the cutting plane to keep.
#[derive(Debug, Clone, Copy, PartialEq, Eq, Structural)]
pub enum KeepSide {
    /// Keep the side the plane normal points away from (signed distance ≤ 0).
    Below,
    /// Keep the side the plane normal points toward (signed distance ≥ 0).
    Above,
}

/// The sign lies strictly on the kept side.
pub open spec fn strictly_kept(sign: Sign3, keep: KeepSide) -> bool {
    (keep == KeepSide::Below && sign == Sign3::Below) || (keep == KeepSide::Above && sign == Sign3::Above)
}

/// The sign lies strictly on the dropped side.
pub open spec fn dropped(sign: Sign3, keep: KeepSide) -> bool {
    (keep == KeepSide::Below && sign == Sign3::Above) || (keep == KeepSide::Above && sign == Sign3::Below)
}

/// `true` for a sign strictly on the kept side (`On` excluded).
pub fn is_strictly_kept(sign: Sign3, keep: KeepSide) -> (r: bool)
    ensures
        r == strictly_kept(sign, keep),
{
    match (keep, sign) {
        (KeepSide::Below, Sign3::Below) | (KeepSide::Above, Sign3::Above) => true,
        _ => false,
    }
}

/// `true` for a sign strictly on the dropped side.
pub fn is_dropped(sign: Sign3, keep: KeepSide) -> (r: bool)
    ensures
        r == dropped(sign, keep),
{
    match (keep, sign) {
        (KeepSide::Below, Sign3::Above) | (KeepSide::Above, Sign3::Below) => true,
        _ => false,
    }
}

/// Whether the directed edge between endpoints of signs `a` and `b` is a kept
/// boundary edge: dropped if either endpoint is strictly dropped, kept
/// otherwise (an `On`–`On` edge is a coincident boundary and is kept).
pub fn edge_is_kept(a: Sign3, b: Sign3, keep: KeepSide) -> (r: bool)
    ensures
        r == (!dropped(a, keep) && !dropped(b, keep)),
{
    !is_dropped(a, keep) && !is_dropped(b, keep)
}

/// `true` if the two endpoint signs lie on strictly opposite sides.
pub fn straddles(a: Sign3, b: Sign3) -> (r: bool)
    ensures
        r == ((a == Sign3::Below && b == Sign3::Above) || (a == Sign3::Above && b == Sign3::Below)),
{
    match (a, b) {
        (Sign3::Below, Sign3::Above) | (Sign3::Above, Sign3::Below) => true,
        _ => false,
    }
}

/// Fold a canonicalisation flip into a face sense: a flip reverses the sense.
pub fn fold_flip(sense: Sense, flipped: bool) -> (r: Sense)
    ensures
        r == (if flipped == (sense == Sense::Same) {
            Sense::Reversed
        } else {
            Sense::Same
        }),
{
    match (sense, flipped) {
        (Sense::Same, false) | (Sense::Reversed, true) => Sense::Same,
        _ => Sense::Reversed,
    }
}

/// Across the signs of a face's classified vertices: is some vertex strictly
/// kept, is some vertex neither kept nor on the plane, is some vertex on the
/// plane.
pub fn side_summary(signs: &Vec<Sign3>, keep: KeepSide) -> (r: (bool, bool, bool))
    ensures
        r.0 == exists|i: int| 0 <= i < signs.len() && #[trigger] strictly_kept(signs@[i], keep),
        r.1 == exists|i: int|
            0 <= i < signs.len() && signs@[i] != Sign3::On && !#[trigger] strictly_kept(signs@[i], keep),
        r.2 == exists|i: int| 0 <= i < signs.len() && #[trigger] signs@[i] == Sign3::On,
{
    let mut kept = false;
    let mut drop = false;
    let mut on = false;
    let mut i: usize = 0;
    while i < signs.len()
        invariant
            i <= signs.len(),
            kept == exists|j: int| 0 <= j < i && #[trigger] strictly_kept(signs@[j], keep),
            drop == exists|j: int|
                0 <= j < i && signs@[j] != Sign3::On && !#[trigger] strictly_kept(signs@[j], keep),
            on == exists|j: int| 0 <= j < i && #[trigger] signs@[j] == Sign3::On,
        decreases signs.len() - i,
    {
        let s = signs[i];
        let sk = is_strictly_kept(s, keep);
        if s == Sign3::On {
            on = true;
        } else if sk {
            kept = true;
        } else {
            drop = true;
        }
        proof {
            assert(strictly_kept(signs@[i as int], keep) == sk);
        }
        i = i + 1;
    }
    (kept, drop, on)
}

/// A sign is strictly kept, strictly dropped, or on the plane: exactly one.
pub proof fn lemma_side_trichotomy(sign: Sign3, keep: KeepSide)
    ensures
        strictly_kept(sign, keep) || dropped(sign, keep) || sign == Sign3::On,
        !(strictly_kept(sign, keep) && dropped(sign, keep)),
        sign == Sign3::On ==> !strictly_kept(sign, keep) && !dropped(sign, keep),
{
}

/// The node after `i` around a loop of `n` nodes.
pub open spec fn next(n: int, i: int) -> int {
    if i + 1 < n {
        i + 1
    } else {
        0
    }
}

/// The node before `i` around a loop of `n` nodes.
pub open spec fn prev(n: int, i: int) -> int {
    if i == 0 {
        n - 1
    } else {
        i - 1
    }
}

/// How many steps around a loop of `n` nodes it takes from `st` to `x`.
pub open spec fn offset(n: int, st: int, x: int) -> int {
    if x >= st {
        x - st
    } else {
        x + n - st
    }
}

/// The node `u` steps after `st` around a loop of `n` nodes (`u < n`).
pub open spec fn rot(n: int, st: int, u: int) -> int {
    if st + u < n {
        st + u
    } else {
        st + u - n
    }
}

/// A kept run begins at node `i`: the edge leaving `i` is kept and the edge
/// entering it is not.
pub open spec fn run_start(k: Seq<bool>, i: int) -> bool {
    0 <= i < k.len() && k[i] && !k[prev(k.len() as int, i)]
}

/// `f` lists the maximal kept fragments of a loop whose edge `i` (leaving
/// node `i`) is kept iff `k[i]`: each fragment is a run of consecutive nodes
/// joined by kept edges, entered and left by edges that are not kept; every
/// kept edge lies in a fragment; the first fragment starts at the first node
/// that begins a run, and the others follow around the loop.
pub open spec fn kept_runs(k: Seq<bool>, f: Seq<Seq<usize>>) -> bool {
    let n = k.len() as int;
    &&& forall|q: int|
        0 <= q < f.len() ==> #[trigger] f[q].len() >= 2 && !k[f[q].last() as int] && !k[prev(
            n,
            f[q][0] as int,
        )]
    &&& forall|q: int, t: int| 0 <= q < f.len() && 0 <= t < f[q].len() ==> #[trigger] f[q][t] < n
    &&& forall|q: int, t: int|
        0 <= q < f.len() && 0 <= t < f[q].len() - 1 ==> #[trigger] k[f[q][t] as int] && f[q][t + 1] == next(
            n,
            f[q][t] as int,
        )
    &&& forall|q: int|
        0 < q < f.len() ==> offset(n, f[0][0] as int, #[trigger] f[q - 1][0] as int) < offset(
            n,
            f[0][0] as int,
            f[q][0] as int,
        )
    &&& f.len() > 0 ==> forall|j: int| 0 <= j < f[0][0] ==> !#[trigger] run_start(k, j)
    &&& forall|i: int|
        0 <= i < n && #[trigger] k[i] ==> exists|q: int, t: int|
            0 <= q < f.len() && 0 <= t < f[q].len() - 1 && #[trigger] f[q][t] == i
}

/// The sequences held by a list of vectors.
pub open spec fn seqs_of(v: Seq<Vec<usize>>) -> Seq<Seq<usize>> {
    v.map_values(|x: Vec<usize>| x@)
}

/// Node `i` is the start of some fragment edge in `f`.
pub open spec fn covered(f: Seq<Seq<usize>>, i: int) -> bool {
    exists|q: int, t: int| 0 <= q < f.len() && 0 <= t < f[q].len() - 1 && #[trigger] f[q][t] == i
}

proof fn lemma_rot(n: int, st: int, u: int)
    requires
        0 <= st < n,
        0 <= u < n,
    ensures
        0 <= rot(n, st, u) < n,
        offset(n, st, rot(n, st, u)) == u,
        u + 1 < n ==> rot(n, st, u + 1) == next(n, rot(n, st, u)),
        u >= 1 ==> rot(n, st, u - 1) == prev(n, rot(n, st, u)),
        u == 0 ==> rot(n, st, u) == st,
        u == n - 1 ==> rot(n, st, u) == prev(n, st),
{
}

/// The maximal kept fragments of a loop, walking once around it from the
/// first node `st` that begins a kept run.
#[verifier::rlimit(100)]
fn runs_from(k: &Vec<bool>, st: usize) -> (f: Vec<Vec<usize>>)
    requires
        k.len() >= 2,
        run_start(k@, st as int),
        forall|j: int| 0 <= j < st ==> !#[trigger] run_start(k@, j),
    ensures
        kept_runs(k@, seqs_of(f@)),
{
    let n = k.len();
    let ghost kk = k@;
    let mut frags: Vec<Vec<usize>> = Vec::new();
    let mut cur: Vec<usize> = Vec::new();
    let ghost mut ca: int = 0;
    let mut t: usize = 0;
    while t < n
        invariant
            kk == k@,
            n == kk.len(),
            n >= 2,
            st < n,
            run_start(kk, st as int),
            t <= n,
            forall|q: int|
                0 <= q < frags.len() ==> #[trigger] seqs_of(frags@)[q].len() >= 2 && !kk[seqs_of(frags@)[q].last() as int]
                    && !kk[prev(n as int, seqs_of(frags@)[q][0] as int)]
                    && offset(n as int, st as int, seqs_of(frags@)[q].last() as int) < t
                    && offset(n as int, st as int, seqs_of(frags@)[q][0] as int) <= offset(n as int, st as int, seqs_of(frags@)[q].last() as int),
            forall|q: int, i: int| 0 <= q < frags.len() && 0 <= i < seqs_of(frags@)[q].len() ==> #[trigger] seqs_of(frags@)[q][i] < n,
            forall|q: int, i: int|
                0 <= q < frags.len() && 0 <= i < seqs_of(frags@)[q].len() - 1 ==> #[trigger] kk[seqs_of(frags@)[q][i] as int]
                    && seqs_of(frags@)[q][i + 1] == next(n as int, seqs_of(frags@)[q][i] as int),
            forall|q: int|
                0 < q < frags.len() ==> offset(n as int, st as int, #[trigger] seqs_of(frags@)[q - 1][0] as int) < offset(
                    n as int,
                    st as int,
                    seqs_of(frags@)[q][0] as int,
                ),
            forall|q: int|
                0 < q < frags.len() ==> offset(n as int, st as int, #[trigger] seqs_of(frags@)[q - 1].last() as int) < offset(
                    n as int,
                    st as int,
                    seqs_of(frags@)[q][0] as int,
                ),
            frags.len() > 0 ==> seqs_of(frags@)[0][0] == st,
            cur.len() == 0 ==> (t == 0 || !kk[rot(n as int, st as int, t - 1)]),
            cur.len() == 0 && frags.len() == 0 ==> t == 0,
            cur.len() > 0 ==> 0 <= ca < t && cur.len() == t - ca + 1 && (ca == 0 || !kk[rot(
                n as int,
                st as int,
                ca - 1,
            )]) && (frags.len() == 0 ==> ca == 0) && (frags.len() > 0 ==> offset(
                n as int,
                st as int,
                seqs_of(frags@)[frags.len() - 1].last() as int,
            ) < ca),
            cur.len() > 0 ==> forall|i: int| 0 <= i < cur.len() ==> #[trigger] cur@[i] == rot(n as int, st as int, ca + i),
            cur.len() > 0 ==> forall|u: int| ca <= u < t ==> #[trigger] kk[rot(n as int, st as int, u)],
            forall|u: int|
                0 <= u < t && #[trigger] kk[rot(n as int, st as int, u)] ==> covered(seqs_of(frags@), rot(
                    n as int,
                    st as int,
                    u,
                )) || (cur.len() > 0 && ca <= u),
        decreases n - t,
    {
        let idx: usize = if t < n - st {
            st + t
        } else {
            t - (n - st)
        };
        proof {
            lemma_rot(n as int, st as int, t as int);
            assert(idx == rot(n as int, st as int, t as int));
        }
        if k[idx] {
            proof {
                if t == n - 1 {
                    assert(idx == prev(n as int, st as int));
                }
                assert(t + 1 < n);
                lemma_rot(n as int, st as int, t + 1);
            }
            if cur.len() == 0 {
                cur.push(idx);
                proof {
                    ca = t as int;
                }
            }
            let nx: usize = if idx + 1 < n {
                idx + 1
            } else {
                0
            };
            let ghost c0 = cur@;
            cur.push(nx);
            proof {
                assert(nx == rot(n as int, st as int, t + 1));
                assert forall|i: int| 0 <= i < cur.len() implies #[trigger] cur@[i] == rot(n as int, st as int, ca + i) by {
                    if i < c0.len() {
                        assert(cur@[i] == c0[i]);
                    }
                }
                assert forall|u: int|
                    0 <= u < t + 1 && #[trigger] kk[rot(n as int, st as int, u)] implies covered(seqs_of(frags@), rot(
                        n as int,
                        st as int,
                        u,
                    )) || (cur.len() > 0 && ca <= u) by {
                }
            }
        } else {
            if cur.len() > 0 {
                let ghost f0 = seqs_of(frags@);
                let ghost cv = cur@;
                proof {
                    assert(cv.last() == idx);
                    lemma_rot(n as int, st as int, ca);
                    if ca >= 1 {
                        lemma_rot(n as int, st as int, ca);
                    } else {
                        assert(rot(n as int, st as int, ca) == st);
                    }
                    assert(offset(n as int, st as int, cv[0] as int) == ca);
                    assert(offset(n as int, st as int, cv.last() as int) == t);
                }
                frags.push(cur);
                cur = Vec::new();
                proof {
                    let f1 = seqs_of(frags@);
                    assert(f1 == f0.push(cv));
                    assert(!kk[prev(n as int, cv[0] as int)]) by {
                        if ca >= 1 {
                            assert(rot(n as int, st as int, ca - 1) == prev(n as int, rot(n as int, st as int, ca)));
                        } else {
                            assert(cv[0] == st);
                        }
                    }
                    assert forall|i: int| 0 <= i < cv.len() - 1 implies #[trigger] kk[cv[i] as int] && cv[i + 1] == next(
                        n as int,
                        cv[i] as int,
                    ) by {
                        lemma_rot(n as int, st as int, ca + i);
                        assert(kk[rot(n as int, st as int, ca + i)]);
                    }
                    assert forall|i: int| 0 <= i < cv.len() implies #[trigger] cv[i] < n by {
                        lemma_rot(n as int, st as int, ca + i);
                    }
                    assert forall|q: int| 0 <= q < f0.len() implies #[trigger] f1[q] == f0[q] by {}
                    assert forall|q: int, i: int|
                        0 <= q < f1.len() && 0 <= i < f1[q].len() - 1 implies #[trigger] kk[f1[q][i] as int]
                            && f1[q][i + 1] == next(n as int, f1[q][i] as int) by {
                        if q < f0.len() {
                            assert(f1[q] == f0[q]);
                        } else {
                            assert(f1[q] == cv);
                        }
                    }
                    assert forall|u: int|
                        0 <= u < t + 1 && #[trigger] kk[rot(n as int, st as int, u)] implies covered(f1, rot(
                            n as int,
                            st as int,
                            u,
                        )) by {
                        if covered(f0, rot(n as int, st as int, u)) {
                            let (q, i) = choose|q: int, i: int|
                                0 <= q < f0.len() && 0 <= i < f0[q].len() - 1 && #[trigger] f0[q][i] == rot(
                                    n as int,
                                    st as int,
                                    u,
                                );
                            assert(f1[q][i] == f0[q][i]);
                        } else {
                            assert(ca <= u < t);
                            assert(f1[f0.len() as int][u - ca] == rot(n as int, st as int, u));
                        }
                    }
                }
            }
        }
        t = t + 1;
    }
    proof {
        let f = seqs_of(frags@);
        lemma_rot(n as int, st as int, n - 1);
        assert(cur.len() == 0);
        assert(frags.len() > 0) by {
            lemma_rot(n as int, st as int, 0);
            assert(kk[rot(n as int, st as int, 0)]);
        }
        assert forall|i: int| 0 <= i < n && #[trigger] kk[i] implies exists|q: int, t: int|
            0 <= q < f.len() && 0 <= t < f[q].len() - 1 && #[trigger] f[q][t] == i by {
            let u = offset(n as int, st as int, i);
            assert(rot(n as int, st as int, u) == i);
            assert(covered(f, rot(n as int, st as int, u)));
        }
    }
    frags
}

/// Whether the edge leaving node `i` is kept: its midpoint classification
/// when one was recorded, else the endpoint-sign rule.
pub open spec fn edge_kept_at(edge_kept: Seq<Option<bool>>, signs: Seq<Sign3>, keep: KeepSide, i: int) -> bool {
    match edge_kept[i] {
        Some(b) => b,
        None => !dropped(signs[i], keep) && !dropped(signs[next(signs.len() as int, i)], keep),
    }
}

/// The kept flags of all edges of a loop.
pub open spec fn kept_flags(edge_kept: Seq<Option<bool>>, signs: Seq<Sign3>, keep: KeepSide) -> Seq<bool> {
    Seq::new(signs.len(), |i: int| edge_kept_at(edge_kept, signs, keep, i))
}

/// A loop with a kept and a dropped edge has a node where a kept run begins.
proof fn lemma_run_start_exists(k: Seq<bool>, i: int, j: int)
    requires
        0 <= i < k.len(),
        0 <= j < k.len(),
        k[i],
        !k[j],
    ensures
        exists|m: int| #[trigger] run_start(k, m),
    decreases offset(k.len() as int, j, i),
{
    let n = k.len() as int;
    let m = next(n, j);
    if k[m] {
        assert(prev(n, m) == j);
        assert(run_start(k, m));
    } else {
        assert(m != i);
        lemma_run_start_exists(k, i, m);
    }
}

/// Split a face loop's augmented boundary into its maximal kept fragments,
/// each listed as the positions of its nodes around the loop. The edge
/// leaving node `i` is kept by its recorded midpoint classification
/// `edge_kept[i]`, or else when neither endpoint is strictly dropped. A loop
/// of fewer than two nodes has no fragment; a loop whose edges are all kept is
/// one closed fragment that returns to its first node.
pub fn extract_kept_fragments(edge_kept: &Vec<Option<bool>>, signs: &Vec<Sign3>, keep: KeepSide) -> (f: Vec<Vec<usize>>)
    requires
        edge_kept.len() == signs.len(),
    ensures
        signs.len() < 2 ==> f.len() == 0,
        signs.len() >= 2 && (forall|i: int| 0 <= i < signs.len() ==> #[trigger] kept_flags(edge_kept@, signs@, keep)[i])
            ==> f.len() == 1 && f@[0].len() == signs.len() + 1 && f@[0]@[signs.len() as int] == 0
            && forall|t: int| 0 <= t < signs.len() ==> #[trigger] f@[0]@[t] == t,
        signs.len() >= 2 && (exists|i: int| 0 <= i < signs.len() && !#[trigger] kept_flags(edge_kept@, signs@, keep)[i])
            ==> kept_runs(kept_flags(edge_kept@, signs@, keep), seqs_of(f@)),
{
    let n = signs.len();
    if n < 2 {
        return Vec::new();
    }
    let ghost kf = kept_flags(edge_kept@, signs@, keep);
    let mut kept: Vec<bool> = Vec::new();
    let mut all = true;
    let mut i: usize = 0;
    while i < n
        invariant
            n == signs.len(),
            n == edge_kept.len(),
            kf == kept_flags(edge_kept@, signs@, keep),
            i <= n,
            kept.len() == i,
            forall|j: int| 0 <= j < i ==> #[trigger] kept@[j] == kf[j],
            all <==> forall|j: int| 0 <= j < i ==> #[trigger] kf[j],
        decreases n - i,
    {
        let nx: usize = if i + 1 < n {
            i + 1
        } else {
            0
        };
        let b = match edge_kept[i] {
            Some(b) => b,
            None => edge_is_kept(signs[i], signs[nx], keep),
        };
        proof {
            assert(nx == next(n as int, i as int));
            assert(b == kf[i as int]);
        }
        kept.push(b);
        if !b {
            all = false;
        }
        i = i + 1;
    }
    proof {
        assert(kept@ =~= kf);
    }
    if all {
        let mut whole: Vec<usize> = Vec::new();
        let mut t: usize = 0;
        while t < n
            invariant
                t <= n,
                whole.len() == t,
                forall|j: int| 0 <= j < t ==> #[trigger] whole@[j] == j,
            decreases n - t,
        {
            whole.push(t);
            t = t + 1;
        }
        whole.push(0);
        let mut f: Vec<Vec<usize>> = Vec::new();
        f.push(whole);
        return f;
    }
    let mut st: usize = 0;
    let mut found = false;
    while !found && st < n
        invariant
            kept@ == kf,
            kept.len() == n,
            n >= 2,
            st <= n,
            found ==> st < n && run_start(kf, st as int),
            forall|j: int| 0 <= j < st ==> !#[trigger] run_start(kf, j),
        decreases n - st + if found { 0int } else { 1int },
    {
        let pv: usize = if st == 0 {
            n - 1
        } else {
            st - 1
        };
        if kept[st] && !kept[pv] {
            found = true;
        } else {
            st = st + 1;
        }
    }
    if !found {
        proof {
            assert forall|i: int| 0 <= i < n && #[trigger] kf[i] implies false by {
                let j = choose|j: int| 0 <= j < n && !#[trigger] kf[j];
                lemma_run_start_exists(kf, i, j);
                let m = choose|m: int| #[trigger] run_start(kf, m);
            }
        }
        return Vec::new();
    }
    runs_from(&kept, st)
}


/// The portals of a face's kept fragments, in order: for each fragment
/// (given by the signs of its first and last node), its start when that lies
/// on the plane, then its end when that does. Each portal is named by its
/// fragment and whether it is the fragment's end.
pub open spec fn portals_upto(ends: Seq<(Sign3, Sign3)>, n: int) -> Seq<(usize, bool)>
    decreases n,
{
    if n <= 0 {
        Seq::empty()
    } else {
        let prev = portals_upto(ends, n - 1);
        let f = (n - 1) as usize;
        let with_start = if ends[n - 1].0 == Sign3::On { prev.push((f, false)) } else { prev };
        if ends[n - 1].1 == Sign3::On { with_start.push((f, true)) } else { with_start }
    }
}

/// Collect the portals where a face's kept fragments meet the cutting plane:
/// a fragment end whose node lies on the plane.
pub fn fragment_portals(ends: &Vec<(Sign3, Sign3)>) -> (p: Vec<(usize, bool)>)
    ensures
        p@ == portals_upto(ends@, ends.len() as int),
{
    let mut p: Vec<(usize, bool)> = Vec::new();
    let mut i: usize = 0;
    while i < ends.len()
        invariant
            i <= ends.len(),
            p@ == portals_upto(ends@, i as int),
        decreases ends.len() - i,
    {
        let (first, last) = ends[i];
        if first == Sign3::On {
            p.push((i, false));
        }
        if last == Sign3::On {
            p.push((i, true));
        }
        i = i + 1;
    }
    p
}

/// Pair the portals along one ruling, already sorted by axial height, even
/// with odd: the first with the second, the third with the fourth, and so
/// on; an unpaired last portal is left out.
pub fn ruling_segments<T: Copy>(group: &Vec<T>) -> (segs: Vec<(T, T)>)
    ensures
        segs.len() == group.len() / 2,
        forall|j: int| 0 <= j < segs.len() ==> #[trigger] segs@[j] == (group@[2 * j], group@[2 * j + 1]),
{
    let mut segs: Vec<(T, T)> = Vec::new();
    let mut i: usize = 0;
    while i + 1 < group.len()
        invariant
            i % 2 == 0,
            i <= group.len(),
            segs.len() == i / 2,
            forall|j: int| 0 <= j < segs.len() ==> #[trigger] segs@[j] == (group@[2 * j], group@[2 * j + 1]),
        decreases group.len() - i,
    {
        segs.push((group[i], group[i + 1]));
        i = i + 2;
    }
    segs
}

} // verus!
