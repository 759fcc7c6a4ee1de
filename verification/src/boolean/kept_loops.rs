//! Assembling the kept fragments of a cut face into closed loops.
//!
//! Each kept fragment is a directed polyline of the face boundary between two
//! output vertices; each section segment is an undirected connector along the
//! cut line. A loop is walked from the first fragment not yet used: after a
//! fragment, the walk takes the first connector leaving its end vertex that
//! has not been walked in that direction, then the first unused fragment
//! starting where the connector ends; with no connector left it goes on to the
//! first unused fragment starting at the fragment's end. The loop closes when
//! the walk comes back to the vertex it started from, and is kept when it has
//! at least two half-edges. The kept fragments of a cut cylinder face are
//! instead ordered into a single chain, greedily by shared end vertices.

use vstd::prelude::*;

use crate::boolean::poly2d::snap::VertexId;
use crate::model::graph::{count_true, lemma_count_true_bound, lemma_count_true_set};

verus! {

/// A kept fragment by its end vertices and its number of half-edges.
#[derive(Debug, Clone, Copy, PartialEq, Eq, Structural)]
pub struct FragmentEnds {
    /// The vertex the fragment starts at.
    pub start: VertexId,
    /// The vertex the fragment ends at.
    pub end: VertexId,
    /// How many half-edges the fragment holds.
    pub edges: usize,
}

/// One piece of an assembled loop.
#[derive(Debug, Clone, Copy, PartialEq, Eq, Structural)]
pub enum LoopPiece {
    /// The kept fragment at this position.
    Fragment(usize),
    /// The section connector at this position, walked from its first vertex
    /// to its second (`true`) or the other way (`false`).
    Connector(usize, bool),
}

/// The first unused fragment at or after position `k` that starts at `v`
/// (`frags.len()` when none does).
pub open spec fn first_frag_from(frags: Seq<FragmentEnds>, used: Seq<bool>, v: VertexId, k: int) -> int
    decreases frags.len() - k,
{
    if k >= frags.len() || k < 0 {
        frags.len() as int
    } else if frags[k].start == v && !used[k] {
        k
    } else {
        first_frag_from(frags, used, v, k + 1)
    }
}

/// The first connector at or after position `k` that leaves `v` in a
/// direction not yet walked: its first vertex is `v` (walked forward), or else
/// its second vertex is (walked backward).
pub open spec fn first_conn(conns: Seq<(VertexId, VertexId)>, walked: Set<(VertexId, VertexId)>, v: VertexId, k: int) -> Option<(usize, bool)>
    decreases conns.len() - k,
{
    if k >= conns.len() || k < 0 {
        None
    } else if conns[k].0 == v && !walked.contains((v, conns[k].1)) {
        Some((k as usize, true))
    } else if conns[k].1 == v && !walked.contains((v, conns[k].0)) {
        Some((k as usize, false))
    } else {
        first_conn(conns, walked, v, k + 1)
    }
}

/// The vertex a connector walk reaches.
pub open spec fn conn_far(conns: Seq<(VertexId, VertexId)>, c: (usize, bool)) -> VertexId {
    if c.1 {
        conns[c.0 as int].1
    } else {
        conns[c.0 as int].0
    }
}

/// The walk of one loop that started at vertex `start`, from the unused
/// fragment `cur` on: the pieces taken, the half-edges they hold, whether the
/// walk came back to `start`, and the used fragments and walked connector
/// directions after it.
pub open spec fn loop_walk(
    frags: Seq<FragmentEnds>,
    conns: Seq<(VertexId, VertexId)>,
    used: Seq<bool>,
    walked: Set<(VertexId, VertexId)>,
    start: VertexId,
    cur: int,
) -> (Seq<LoopPiece>, nat, bool, Seq<bool>, Set<(VertexId, VertexId)>)
    decreases used.len() - count_true(used),
{
    if !(0 <= cur < used.len()) || used[cur] || used.len() != frags.len() {
        (Seq::empty(), 0, false, used, walked)
    } else {
        let u2 = used.update(cur, true);
        let p = seq![LoopPiece::Fragment(cur as usize)];
        let e = frags[cur].edges as nat;
        let end = frags[cur].end;
        proof {
            lemma_count_true_set(used, cur);
            lemma_count_true_bound(u2);
        }
        if end == start {
            (p, e, true, u2, walked)
        } else {
            match first_conn(conns, walked, end, 0) {
                Some(c) => {
                    let other = conn_far(conns, c);
                    let w2 = walked.insert((end, other));
                    let p2 = p.push(LoopPiece::Connector(c.0, c.1));
                    if other == start {
                        (p2, e + 1, true, u2, w2)
                    } else {
                        let ni = first_frag_from(frags, u2, other, 0);
                        if ni < frags.len() {
                            let rest = loop_walk(frags, conns, u2, w2, start, ni);
                            (p2 + rest.0, e + 1 + rest.1, rest.2, rest.3, rest.4)
                        } else {
                            (p2, e + 1, false, u2, w2)
                        }
                    }
                },
                None => {
                    let ni = first_frag_from(frags, u2, end, 0);
                    if ni < frags.len() {
                        let rest = loop_walk(frags, conns, u2, walked, start, ni);
                        (p + rest.0, e + rest.1, rest.2, rest.3, rest.4)
                    } else {
                        (p, e, false, u2, walked)
                    }
                },
            }
        }
    }
}

/// The used fragments, walked connector directions and kept loops after
/// trying the first `k` fragments as loop starts: a used start is skipped,
/// and a walk is kept when it closed with at least two half-edges.
pub open spec fn kept_loops_upto(frags: Seq<FragmentEnds>, conns: Seq<(VertexId, VertexId)>, k: nat) -> (
    Seq<bool>,
    Set<(VertexId, VertexId)>,
    Seq<Seq<LoopPiece>>,
)
    decreases k,
{
    if k == 0 {
        (Seq::new(frags.len(), |i: int| false), Set::empty(), Seq::empty())
    } else {
        let prev = kept_loops_upto(frags, conns, (k - 1) as nat);
        let st = k - 1;
        if prev.0[st] {
            prev
        } else {
            let w = loop_walk(frags, conns, prev.0, prev.1, frags[st].start, st);
            if w.2 && w.1 >= 2 {
                (w.3, w.4, prev.2.push(w.0))
            } else {
                (w.3, w.4, prev.2)
            }
        }
    }
}

fn same_vertex(a: VertexId, b: VertexId) -> (r: bool)
    ensures
        r == (a == b),
{
    a.0 == b.0
}

fn first_frag_exec(frags: &Vec<FragmentEnds>, used: &Vec<bool>, v: VertexId) -> (r: usize)
    requires
        used.len() == frags.len(),
    ensures
        r == first_frag_from(frags@, used@, v, 0),
{
    let mut k: usize = 0;
    while k < frags.len()
        invariant
            used.len() == frags.len(),
            k <= frags.len(),
            first_frag_from(frags@, used@, v, 0) == first_frag_from(frags@, used@, v, k as int),
        decreases frags.len() - k,
    {
        if same_vertex(frags[k].start, v) && !used[k] {
            return k;
        }
        k = k + 1;
    }
    k
}

fn walked_has(walked: &Vec<(VertexId, VertexId)>, e: (VertexId, VertexId)) -> (r: bool)
    ensures
        r == walked@.to_set().contains(e),
{
    let mut i: usize = 0;
    while i < walked.len()
        invariant
            i <= walked.len(),
            forall|j: int| 0 <= j < i ==> walked@[j] != e,
        decreases walked.len() - i,
    {
        if same_vertex(walked[i].0, e.0) && same_vertex(walked[i].1, e.1) {
            proof {
                assert(walked@[i as int] == e);
                assert(walked@.to_set().contains(e));
            }
            return true;
        }
        i = i + 1;
    }
    proof {
        if walked@.to_set().contains(e) {
            let j = walked@.index_of(e);
            assert(walked@[j] == e);
        }
    }
    false
}

fn first_conn_exec(conns: &Vec<(VertexId, VertexId)>, walked: &Vec<(VertexId, VertexId)>, v: VertexId) -> (r: Option<(usize, bool)>)
    ensures
        r == first_conn(conns@, walked@.to_set(), v, 0),
        r matches Some(c) ==> c.0 < conns.len(),
{
    let mut k: usize = 0;
    while k < conns.len()
        invariant
            k <= conns.len(),
            first_conn(conns@, walked@.to_set(), v, 0) == first_conn(conns@, walked@.to_set(), v, k as int),
        decreases conns.len() - k,
    {
        let (a, b) = conns[k];
        if same_vertex(a, v) && !walked_has(walked, (v, b)) {
            return Some((k, true));
        }
        if same_vertex(b, v) && !walked_has(walked, (v, a)) {
            return Some((k, false));
        }
        k = k + 1;
    }
    None
}


proof fn lemma_push_to_set<T>(s: Seq<T>, x: T)
    ensures
        s.push(x).to_set() == s.to_set().insert(x),
{
    assert forall|y: T| s.push(x).to_set().contains(y) <==> s.to_set().insert(x).contains(y) by {
        if s.push(x).contains(y) && y != x {
            let j = s.push(x).index_of(y);
            assert(s[j] == y);
        }
        if s.contains(y) {
            let j = s.index_of(y);
            assert(s.push(x)[j] == y);
        }
        if y == x {
            assert(s.push(x)[s.len() as int] == x);
        }
    }
    assert(s.push(x).to_set() =~= s.to_set().insert(x));
}

/// Chain the kept fragments `frags` and the section connectors `conns` into
/// closed loops, trying each fragment in order as a loop start: from an
/// unused start the walk alternates the first connector not yet walked from
/// the current end with the first unused fragment where it leads (or goes on
/// straight to the first unused fragment at the current end when no connector
/// leaves it), until it comes back to the start vertex; a closed walk with at
/// least two half-edges is a loop.
pub fn chain_kept_loops(frags: &Vec<FragmentEnds>, conns: &Vec<(VertexId, VertexId)>) -> (loops: Vec<Vec<LoopPiece>>)
    ensures
        loops.len() == kept_loops_upto(frags@, conns@, frags.len() as nat).2.len(),
        forall|i: int| 0 <= i < loops.len() ==> #[trigger] loops@[i]@ == kept_loops_upto(frags@, conns@, frags.len() as nat).2[i],
{
    let n = frags.len();
    let mut used: Vec<bool> = Vec::new();
    while used.len() < n
        invariant
            used.len() <= n,
            forall|h: int| 0 <= h < used.len() ==> !#[trigger] used@[h],
        decreases n - used.len(),
    {
        used.push(false);
    }
    let mut walked: Vec<(VertexId, VertexId)> = Vec::new();
    proof {
        assert(used@ =~= kept_loops_upto(frags@, conns@, 0).0);
        assert(walked@.to_set() =~= Set::<(VertexId, VertexId)>::empty());
    }
    let mut loops: Vec<Vec<LoopPiece>> = Vec::new();
    let mut st: usize = 0;
    while st < n
        invariant
            n == frags.len(),
            st <= n,
            used.len() == n,
            used@ == kept_loops_upto(frags@, conns@, st as nat).0,
            walked@.to_set() == kept_loops_upto(frags@, conns@, st as nat).1,
            loops.len() == kept_loops_upto(frags@, conns@, st as nat).2.len(),
            forall|i: int| 0 <= i < loops.len() ==> #[trigger] loops@[i]@ == kept_loops_upto(frags@, conns@, st as nat).2[i],
        decreases n - st,
    {
        if used[st] {
            st = st + 1;
            continue;
        }
        let start = frags[st].start;
        let ghost w = loop_walk(frags@, conns@, used@, walked@.to_set(), start, st as int);
        let mut pieces: Vec<LoopPiece> = Vec::new();
        let ghost mut acc: nat = 0;
        let mut capped: usize = 0;
        let mut closed = false;
        let mut cur: usize = st;
        loop
            invariant_except_break
                cur < n,
                !used@[cur as int],
                pieces@ + loop_walk(frags@, conns@, used@, walked@.to_set(), start, cur as int).0 == w.0,
                acc + loop_walk(frags@, conns@, used@, walked@.to_set(), start, cur as int).1 == w.1,
                loop_walk(frags@, conns@, used@, walked@.to_set(), start, cur as int).2 == w.2,
                loop_walk(frags@, conns@, used@, walked@.to_set(), start, cur as int).3 == w.3,
                loop_walk(frags@, conns@, used@, walked@.to_set(), start, cur as int).4 == w.4,
                !closed,
            invariant
                n == frags.len(),
                used.len() == n,
                capped == if acc >= 2 { 2 } else { acc },
            ensures
                pieces@ == w.0,
                acc == w.1,
                closed == w.2,
                used@ == w.3,
                walked@.to_set() == w.4,
            decreases used.len() - count_true(used@),
        {
            let ghost u0 = used@;
            let ghost wk0 = walked@.to_set();
            let ghost p0 = pieces@;
            let ghost a0 = acc;
            proof {
                lemma_count_true_set(u0, cur as int);
                lemma_count_true_bound(u0.update(cur as int, true));
            }
            used.set(cur, true);
            pieces.push(LoopPiece::Fragment(cur));
            let e = frags[cur].edges;
            proof {
                acc = acc + e as nat;
            }
            capped = if e >= 2 { 2 } else if capped + e >= 2 { 2 } else { capped + e };
            let end = frags[cur].end;
            if same_vertex(end, start) {
                closed = true;
                proof {
                    assert(loop_walk(frags@, conns@, u0, wk0, start, cur as int) == (seq![LoopPiece::Fragment(cur)], e as nat, true, used@, wk0));
                    assert(pieces@ =~= p0 + seq![LoopPiece::Fragment(cur)]);
                }
                break;
            }
            let c = first_conn_exec(conns, &walked, end);
            match c {
                Some((k, fwd)) => {
                    let other = if fwd { conns[k].1 } else { conns[k].0 };
                    proof {
                        lemma_push_to_set(walked@, (end, other));
                    }
                    walked.push((end, other));
                    pieces.push(LoopPiece::Connector(k, fwd));
                    proof {
                        acc = acc + 1;
                    }
                    capped = if capped + 1 >= 2 { 2 } else { capped + 1 };
                    if same_vertex(other, start) {
                        closed = true;
                        proof {
                            assert(loop_walk(frags@, conns@, u0, wk0, start, cur as int) == (seq![LoopPiece::Fragment(cur)].push(LoopPiece::Connector(k, fwd)), e as nat + 1, true, used@, walked@.to_set()));
                            assert(pieces@ =~= p0 + seq![LoopPiece::Fragment(cur)].push(LoopPiece::Connector(k, fwd)));
                        }
                        break;
                    }
                    let ni = first_frag_exec(frags, &used, other);
                    if ni < n {
                        proof {
                            let rest = loop_walk(frags@, conns@, used@, walked@.to_set(), start, ni as int);
                            assert(loop_walk(frags@, conns@, u0, wk0, start, cur as int) == (seq![LoopPiece::Fragment(cur)].push(LoopPiece::Connector(k, fwd)) + rest.0, e as nat + 1 + rest.1, rest.2, rest.3, rest.4));
                            assert(pieces@ + rest.0 =~= p0 + (seq![LoopPiece::Fragment(cur)].push(LoopPiece::Connector(k, fwd)) + rest.0));
                            first_frag_facts(frags@, used@, other, 0);
                        }
                        cur = ni;
                    } else {
                        proof {
                            assert(loop_walk(frags@, conns@, u0, wk0, start, cur as int) == (seq![LoopPiece::Fragment(cur)].push(LoopPiece::Connector(k, fwd)), e as nat + 1, false, used@, walked@.to_set()));
                            assert(pieces@ =~= p0 + seq![LoopPiece::Fragment(cur)].push(LoopPiece::Connector(k, fwd)));
                        }
                        break;
                    }
                },
                None => {
                    let ni = first_frag_exec(frags, &used, end);
                    if ni < n {
                        proof {
                            let rest = loop_walk(frags@, conns@, used@, walked@.to_set(), start, ni as int);
                            assert(loop_walk(frags@, conns@, u0, wk0, start, cur as int) == (seq![LoopPiece::Fragment(cur)] + rest.0, e as nat + rest.1, rest.2, rest.3, rest.4));
                            assert(pieces@ + rest.0 =~= p0 + (seq![LoopPiece::Fragment(cur)] + rest.0));
                            first_frag_facts(frags@, used@, end, 0);
                        }
                        cur = ni;
                    } else {
                        proof {
                            assert(loop_walk(frags@, conns@, u0, wk0, start, cur as int) == (seq![LoopPiece::Fragment(cur)], e as nat, false, used@, wk0));
                            assert(pieces@ =~= p0 + seq![LoopPiece::Fragment(cur)]);
                        }
                        break;
                    }
                },
            }
        }
        proof {
            assert(kept_loops_upto(frags@, conns@, (st + 1) as nat) == (w.3, w.4, if w.2 && w.1 >= 2 {
                kept_loops_upto(frags@, conns@, st as nat).2.push(w.0)
            } else {
                kept_loops_upto(frags@, conns@, st as nat).2
            }));
        }
        if closed && capped >= 2 {
            loops.push(pieces);
        }
        st = st + 1;
    }
    loops
}

proof fn first_frag_facts(frags: Seq<FragmentEnds>, used: Seq<bool>, v: VertexId, k: int)
    requires
        0 <= k,
    ensures
        first_frag_from(frags, used, v, k) < frags.len() ==> !used[first_frag_from(frags, used, v, k)] && first_frag_from(frags, used, v, k) >= 0,
    decreases frags.len() - k,
{
    if k < frags.len() && !(frags[k].start == v && !used[k]) {
        first_frag_facts(frags, used, v, k + 1);
    }
}


/// The vertex a piece starts at.
pub open spec fn piece_start(frags: Seq<FragmentEnds>, conns: Seq<(VertexId, VertexId)>, p: LoopPiece) -> VertexId {
    match p {
        LoopPiece::Fragment(i) => frags[i as int].start,
        LoopPiece::Connector(k, fwd) => if fwd {
            conns[k as int].0
        } else {
            conns[k as int].1
        },
    }
}

/// The vertex a piece ends at.
pub open spec fn piece_end(frags: Seq<FragmentEnds>, conns: Seq<(VertexId, VertexId)>, p: LoopPiece) -> VertexId {
    match p {
        LoopPiece::Fragment(i) => frags[i as int].end,
        LoopPiece::Connector(k, fwd) => if fwd {
            conns[k as int].1
        } else {
            conns[k as int].0
        },
    }
}

/// Each piece starts where the one before it ends.
pub open spec fn pieces_joined(frags: Seq<FragmentEnds>, conns: Seq<(VertexId, VertexId)>, p: Seq<LoopPiece>) -> bool {
    forall|t: int, u: int|
        #![trigger p[t], p[u]]
        0 <= t && u == t + 1 && u < p.len() ==> piece_end(frags, conns, p[t]) == piece_start(frags, conns, p[u])
}

/// Some piece of `p` is fragment `i`.
pub open spec fn holds_fragment(p: Seq<LoopPiece>, i: int) -> bool {
    exists|t: int| 0 <= t < p.len() && #[trigger] p[t] == LoopPiece::Fragment(i as usize)
}

proof fn lemma_first_conn(conns: Seq<(VertexId, VertexId)>, walked: Set<(VertexId, VertexId)>, v: VertexId, k: int)
    requires
        0 <= k,
        conns.len() <= usize::MAX,
    ensures
        first_conn(conns, walked, v, k) matches Some(c) ==> c.0 < conns.len() && (if c.1 {
            conns[c.0 as int].0
        } else {
            conns[c.0 as int].1
        }) == v,
    decreases conns.len() - k,
{
    if k < conns.len() && !(conns[k].0 == v && !walked.contains((v, conns[k].1))) && !(conns[k].1 == v
        && !walked.contains((v, conns[k].0))) {
        lemma_first_conn(conns, walked, v, k + 1);
    }
}

proof fn lemma_first_frag(frags: Seq<FragmentEnds>, used: Seq<bool>, v: VertexId, k: int)
    requires
        0 <= k,
    ensures
        first_frag_from(frags, used, v, k) < frags.len() ==> 0 <= first_frag_from(frags, used, v, k) && !used[first_frag_from(
            frags,
            used,
            v,
            k,
        )] && frags[first_frag_from(frags, used, v, k)].start == v,
    decreases frags.len() - k,
{
    if k < frags.len() && !(frags[k].start == v && !used[k]) {
        lemma_first_frag(frags, used, v, k + 1);
    }
}

/// What one loop walk gives: it starts with fragment `cur`, its pieces join
/// end to start, a closed walk ends at `start`, and it uses exactly the
/// fragments it takes, each once, all unused before.
pub open spec fn walk_ok(
    frags: Seq<FragmentEnds>,
    conns: Seq<(VertexId, VertexId)>,
    used: Seq<bool>,
    start: VertexId,
    cur: int,
    w: (Seq<LoopPiece>, nat, bool, Seq<bool>, Set<(VertexId, VertexId)>),
) -> bool {
    &&& w.0.len() >= 1
    &&& w.0[0] == LoopPiece::Fragment(cur as usize)
    &&& pieces_joined(frags, conns, w.0)
    &&& w.2 ==> piece_end(frags, conns, w.0[w.0.len() - 1]) == start
    &&& w.3.len() == used.len()
    &&& forall|i: int| 0 <= i < used.len() ==> (#[trigger] w.3[i] <==> (used[i] || holds_fragment(w.0, i)))
    &&& forall|t: int|
        0 <= t < w.0.len() && (#[trigger] w.0[t]) is Fragment ==> w.0[t]->Fragment_0 < used.len() && !used[w.0[t]->Fragment_0 as int]
    &&& forall|t1: int, t2: int|
        0 <= t1 < w.0.len() && 0 <= t2 < w.0.len() && #[trigger] w.0[t1] == #[trigger] w.0[t2] && w.0[t1] is Fragment ==> t1 == t2
}

#[verifier::rlimit(100)]
proof fn lemma_walk_ok(
    frags: Seq<FragmentEnds>,
    conns: Seq<(VertexId, VertexId)>,
    used: Seq<bool>,
    walked: Set<(VertexId, VertexId)>,
    start: VertexId,
    cur: int,
)
    requires
        used.len() == frags.len(),
        frags.len() <= usize::MAX,
        conns.len() <= usize::MAX,
        0 <= cur < used.len(),
        !used[cur],
    ensures
        walk_ok(frags, conns, used, start, cur, loop_walk(frags, conns, used, walked, start, cur)),
    decreases used.len() - count_true(used),
{
    let w = loop_walk(frags, conns, used, walked, start, cur);
    let u2 = used.update(cur, true);
    let f = LoopPiece::Fragment(cur as usize);
    let p = seq![f];
    let end = frags[cur].end;
    lemma_count_true_set(used, cur);
    lemma_count_true_bound(u2);
    if end == start {
        assert(w == (p, frags[cur].edges as nat, true, u2, walked));
        assert forall|i: int| 0 <= i < used.len() implies (#[trigger] w.3[i] <==> (used[i] || holds_fragment(w.0, i))) by {
            if i == cur {
                assert(w.0[0] == f);
            }
        }
        return;
    }
    let fc = first_conn(conns, walked, end, 0);
    lemma_first_conn(conns, walked, end, 0);
    // the pieces before the rest of the walk, and the vertex the rest starts from
    let (pre, from, walked2) = match fc {
        Some(c) => (p.push(LoopPiece::Connector(c.0, c.1)), conn_far(conns, c), walked.insert((end, conn_far(conns, c)))),
        None => (p, end, walked),
    };
    assert(pieces_joined(frags, conns, pre)) by {
        assert forall|t: int, u: int| #![trigger pre[t], pre[u]] 0 <= t && u == t + 1 && u < pre.len() implies piece_end(frags, conns, pre[t])
            == piece_start(frags, conns, pre[u]) by {}
    }
    if fc is Some && from == start {
        assert(w == (pre, frags[cur].edges as nat + 1, true, u2, walked2));
        assert forall|i: int| 0 <= i < used.len() implies (#[trigger] w.3[i] <==> (used[i] || holds_fragment(w.0, i))) by {
            if i == cur {
                assert(w.0[0] == f);
            }
            if holds_fragment(w.0, i) {
                let t = choose|t: int| 0 <= t < w.0.len() && #[trigger] w.0[t] == LoopPiece::Fragment(i as usize);
            }
        }
        return;
    }
    let ni = first_frag_from(frags, u2, from, 0);
    lemma_first_frag(frags, u2, from, 0);
    if ni >= frags.len() {
        assert(w.0 == pre && w.3 == u2);
        assert forall|i: int| 0 <= i < used.len() implies (#[trigger] w.3[i] <==> (used[i] || holds_fragment(w.0, i))) by {
            if i == cur {
                assert(w.0[0] == f);
            }
            if holds_fragment(w.0, i) {
                let t = choose|t: int| 0 <= t < w.0.len() && #[trigger] w.0[t] == LoopPiece::Fragment(i as usize);
            }
        }
        return;
    }
    lemma_walk_ok(frags, conns, u2, walked2, start, ni);
    let rest = loop_walk(frags, conns, u2, walked2, start, ni);
    assert(w.0 == pre + rest.0);
    assert(w.2 == rest.2 && w.3 == rest.3);
    let q = pre + rest.0;
    let m = pre.len() as int;
    assert(piece_end(frags, conns, pre[m - 1]) == from);
    assert(rest.0[0] == LoopPiece::Fragment(ni as usize));
    assert(pieces_joined(frags, conns, q)) by {
        assert forall|t: int, u: int| #![trigger q[t], q[u]] 0 <= t && u == t + 1 && u < q.len() implies piece_end(frags, conns, q[t])
            == piece_start(frags, conns, q[u]) by {
            if u < m {
                assert(q[t] == pre[t] && q[u] == pre[u]);
            } else if t >= m {
                assert(q[t] == rest.0[t - m] && q[u] == rest.0[u - m]);
            } else {
                assert(q[t] == pre[m - 1] && q[u] == rest.0[0]);
            }
        }
    }
    if w.2 {
        assert(q[q.len() - 1] == rest.0[rest.0.len() - 1]);
    }
    assert forall|i: int| 0 <= i < used.len() implies (#[trigger] w.3[i] <==> (used[i] || holds_fragment(w.0, i))) by {
        if i == cur {
            assert(q[0] == f);
        }
        if holds_fragment(rest.0, i) {
            let t = choose|t: int| 0 <= t < rest.0.len() && #[trigger] rest.0[t] == LoopPiece::Fragment(i as usize);
            assert(q[t + m] == rest.0[t]);
        }
        if holds_fragment(q, i) {
            let t = choose|t: int| 0 <= t < q.len() && #[trigger] q[t] == LoopPiece::Fragment(i as usize);
            if t >= m {
                assert(rest.0[t - m] == q[t]);
            } else {
                assert(q[t] == pre[t]);
            }
        }
    }
    assert forall|t: int| 0 <= t < q.len() && (#[trigger] q[t]) is Fragment implies q[t]->Fragment_0 < used.len() && !used[q[t]->Fragment_0 as int] by {
        if t >= m {
            assert(q[t] == rest.0[t - m]);
        } else {
            assert(q[t] == pre[t]);
        }
    }
    assert forall|t1: int, t2: int|
        0 <= t1 < q.len() && 0 <= t2 < q.len() && #[trigger] q[t1] == #[trigger] q[t2] && q[t1] is Fragment implies t1 == t2 by {
        if t1 >= m && t2 >= m {
            assert(q[t1] == rest.0[t1 - m] && q[t2] == rest.0[t2 - m]);
        } else if t1 < m && t2 < m {
            assert(q[t1] == pre[t1] && q[t2] == pre[t2]);
        } else {
            let (a, b) = if t1 < m { (t1, t2) } else { (t2, t1) };
            assert(q[a] == pre[a]);
            assert(q[b] == rest.0[b - m]);
            assert(pre[a] == f);
            assert(!u2[cur]);
        }
    }
}

/// What the kept loops satisfy after the first `k` starts: each starts with
/// a fragment, its pieces join end to start and it closes back on its first
/// piece's start; the used fragments are those on walks; and no fragment lies
/// on two loops or twice on one.
pub open spec fn kept_ok(frags: Seq<FragmentEnds>, conns: Seq<(VertexId, VertexId)>, k: nat) -> bool {
    let r = kept_loops_upto(frags, conns, k);
    &&& r.0.len() == frags.len()
    &&& forall|l: int| 0 <= l < r.2.len() ==> #[trigger] r.2[l].len() >= 1 && r.2[l][0] is Fragment && pieces_joined(
        frags,
        conns,
        r.2[l],
    ) && piece_end(frags, conns, r.2[l][r.2[l].len() - 1]) == piece_start(frags, conns, r.2[l][0])
    &&& forall|l: int, i: int| 0 <= l < r.2.len() && 0 <= i < frags.len() && #[trigger] holds_fragment(r.2[l], i) ==> r.0[i]
    &&& forall|l1: int, l2: int, t1: int, t2: int|
        0 <= l1 < r.2.len() && 0 <= l2 < r.2.len() && 0 <= t1 < r.2[l1].len() && 0 <= t2 < r.2[l2].len()
            && #[trigger] r.2[l1][t1] == #[trigger] r.2[l2][t2] && r.2[l1][t1] is Fragment ==> l1 == l2 && t1 == t2
}

#[verifier::rlimit(100)]
proof fn lemma_kept_ok(frags: Seq<FragmentEnds>, conns: Seq<(VertexId, VertexId)>, k: nat)
    requires
        frags.len() <= usize::MAX,
        conns.len() <= usize::MAX,
        k <= frags.len(),
    ensures
        kept_ok(frags, conns, k),
    decreases k,
{
    if k > 0 {
        lemma_kept_ok(frags, conns, (k - 1) as nat);
        let prev = kept_loops_upto(frags, conns, (k - 1) as nat);
        let st = k - 1;
        if !prev.0[st] {
            let w = loop_walk(frags, conns, prev.0, prev.1, frags[st].start, st);
            lemma_walk_ok(frags, conns, prev.0, prev.1, frags[st].start, st);
            if w.2 && w.1 >= 2 {
                let ls = prev.2.push(w.0);
                assert(kept_loops_upto(frags, conns, k) == (w.3, w.4, ls));
                assert(piece_start(frags, conns, w.0[0]) == frags[st].start);
                assert forall|l: int| 0 <= l < ls.len() implies #[trigger] ls[l].len() >= 1 && ls[l][0] is Fragment
                    && pieces_joined(frags, conns, ls[l]) && piece_end(frags, conns, ls[l][ls[l].len() - 1]) == piece_start(
                    frags,
                    conns,
                    ls[l][0],
                ) by {
                    if l < prev.2.len() {
                        assert(ls[l] == prev.2[l]);
                    }
                }
                assert forall|l: int, i: int| 0 <= l < ls.len() && 0 <= i < frags.len() && #[trigger] holds_fragment(ls[l], i)
                    implies w.3[i] by {
                    if l < prev.2.len() {
                        assert(ls[l] == prev.2[l]);
                        assert(prev.0[i]);
                    }
                }
                assert forall|l1: int, l2: int, t1: int, t2: int|
                    0 <= l1 < ls.len() && 0 <= l2 < ls.len() && 0 <= t1 < ls[l1].len() && 0 <= t2 < ls[l2].len()
                        && #[trigger] ls[l1][t1] == #[trigger] ls[l2][t2] && ls[l1][t1] is Fragment implies l1 == l2 && t1
                    == t2 by {
                    if l1 < prev.2.len() && l2 < prev.2.len() {
                        assert(ls[l1] == prev.2[l1] && ls[l2] == prev.2[l2]);
                    } else if l1 == l2 {
                    } else {
                        let (la, ta, tb) = if l1 < prev.2.len() { (l1, t1, t2) } else { (l2, t2, t1) };
                        assert(ls[la] == prev.2[la]);
                        let i = prev.2[la][ta]->Fragment_0 as int;
                        assert(w.0[tb] == LoopPiece::Fragment(i as usize));
                        assert(i < frags.len() && !prev.0[i]);
                        assert(holds_fragment(prev.2[la], i));
                    }
                }
            } else {
                assert(kept_loops_upto(frags, conns, k) == (w.3, w.4, prev.2));
                assert forall|l: int, i: int| 0 <= l < prev.2.len() && 0 <= i < frags.len() && #[trigger] holds_fragment(prev.2[l], i)
                    implies w.3[i] by {
                    assert(prev.0[i]);
                }
            }
        } else {
            assert(kept_loops_upto(frags, conns, k) == prev);
        }
    }
}

/// Every kept loop starts with a fragment, each of its pieces starts where
/// the one before it ends, and its last piece ends where its first starts;
/// and no fragment is used twice, within a loop or across loops.
pub proof fn lemma_kept_loops_close(frags: Seq<FragmentEnds>, conns: Seq<(VertexId, VertexId)>)
    requires
        frags.len() <= usize::MAX,
        conns.len() <= usize::MAX,
    ensures
        forall|l: int|
            0 <= l < kept_loops_upto(frags, conns, frags.len()).2.len() ==> #[trigger] kept_loops_upto(
                frags,
                conns,
                frags.len(),
            ).2[l].len() >= 1 && kept_loops_upto(frags, conns, frags.len()).2[l][0] is Fragment && pieces_joined(
                frags,
                conns,
                kept_loops_upto(frags, conns, frags.len()).2[l],
            ) && piece_end(
                frags,
                conns,
                kept_loops_upto(frags, conns, frags.len()).2[l][kept_loops_upto(frags, conns, frags.len()).2[l].len() - 1],
            ) == piece_start(frags, conns, kept_loops_upto(frags, conns, frags.len()).2[l][0]),
        forall|l1: int, l2: int, t1: int, t2: int|
            0 <= l1 < kept_loops_upto(frags, conns, frags.len()).2.len() && 0 <= l2 < kept_loops_upto(
                frags,
                conns,
                frags.len(),
            ).2.len() && 0 <= t1 < kept_loops_upto(frags, conns, frags.len()).2[l1].len() && 0 <= t2 < kept_loops_upto(
                frags,
                conns,
                frags.len(),
            ).2[l2].len() && #[trigger] kept_loops_upto(frags, conns, frags.len()).2[l1][t1]
                == #[trigger] kept_loops_upto(frags, conns, frags.len()).2[l2][t2] && kept_loops_upto(
                frags,
                conns,
                frags.len(),
            ).2[l1][t1] is Fragment ==> l1 == l2 && t1 == t2,
{
    lemma_kept_ok(frags, conns, frags.len());
}


/// The half-edges a loop piece contributes: a fragment's own, or the one
/// edge of a connector.
pub open spec fn piece_edges(frags: Seq<FragmentEnds>, p: LoopPiece) -> nat {
    match p {
        LoopPiece::Fragment(f) => frags[f as int].edges as nat,
        LoopPiece::Connector(..) => 1,
    }
}

/// The half-edges of a sequence of loop pieces.
pub open spec fn pieces_edges(frags: Seq<FragmentEnds>, s: Seq<LoopPiece>) -> nat
    decreases s.len(),
{
    if s.len() == 0 {
        0
    } else {
        pieces_edges(frags, s.drop_last()) + piece_edges(frags, s.last())
    }
}

proof fn lemma_pieces_edges_concat(frags: Seq<FragmentEnds>, a: Seq<LoopPiece>, b: Seq<LoopPiece>)
    ensures
        pieces_edges(frags, a + b) == pieces_edges(frags, a) + pieces_edges(frags, b),
    decreases b.len(),
{
    if b.len() == 0 {
        assert(a + b =~= a);
    } else {
        lemma_pieces_edges_concat(frags, a, b.drop_last());
        assert((a + b).drop_last() =~= a + b.drop_last());
        assert((a + b).last() == b.last());
    }
}

proof fn lemma_walk_edges(
    frags: Seq<FragmentEnds>,
    conns: Seq<(VertexId, VertexId)>,
    used: Seq<bool>,
    walked: Set<(VertexId, VertexId)>,
    start: VertexId,
    cur: int,
)
    requires
        used.len() == frags.len(),
        frags.len() <= usize::MAX,
        0 <= cur < used.len(),
        !used[cur],
    ensures
        loop_walk(frags, conns, used, walked, start, cur).1 == pieces_edges(
            frags,
            loop_walk(frags, conns, used, walked, start, cur).0,
        ),
    decreases used.len() - count_true(used),
{
    let w = loop_walk(frags, conns, used, walked, start, cur);
    let u2 = used.update(cur, true);
    let f = LoopPiece::Fragment(cur as usize);
    let p = seq![f];
    let end = frags[cur].end;
    lemma_count_true_set(used, cur);
    lemma_count_true_bound(u2);
    assert(p.drop_last() =~= Seq::<LoopPiece>::empty());
    assert(pieces_edges(frags, p.drop_last()) == 0);
    assert(p.last() == f);
    assert(pieces_edges(frags, p) == frags[cur].edges as nat);
    if end == start {
        return;
    }
    match first_conn(conns, walked, end, 0) {
        Some(c) => {
            let other = conn_far(conns, c);
            let w2 = walked.insert((end, other));
            let p2 = p.push(LoopPiece::Connector(c.0, c.1));
            assert(p2.drop_last() =~= p);
            assert(pieces_edges(frags, p2) == frags[cur].edges as nat + 1);
            if other != start {
                let ni = first_frag_from(frags, u2, other, 0);
                lemma_first_frag(frags, u2, other, 0);
                if ni < frags.len() {
                    lemma_walk_edges(frags, conns, u2, w2, start, ni);
                    let rest = loop_walk(frags, conns, u2, w2, start, ni);
                    lemma_pieces_edges_concat(frags, p2, rest.0);
                }
            }
        },
        None => {
            let ni = first_frag_from(frags, u2, end, 0);
            lemma_first_frag(frags, u2, end, 0);
            if ni < frags.len() {
                lemma_walk_edges(frags, conns, u2, walked, start, ni);
                let rest = loop_walk(frags, conns, u2, walked, start, ni);
                lemma_pieces_edges_concat(frags, p, rest.0);
            }
        },
    }
}

proof fn lemma_kept_edges(frags: Seq<FragmentEnds>, conns: Seq<(VertexId, VertexId)>, k: nat)
    requires
        frags.len() <= usize::MAX,
        conns.len() <= usize::MAX,
        k <= frags.len(),
    ensures
        forall|l: int|
            0 <= l < kept_loops_upto(frags, conns, k).2.len() ==> pieces_edges(
                frags,
                #[trigger] kept_loops_upto(frags, conns, k).2[l],
            ) >= 2,
    decreases k,
{
    if k > 0 {
        lemma_kept_edges(frags, conns, (k - 1) as nat);
        lemma_kept_ok(frags, conns, (k - 1) as nat);
        let prev = kept_loops_upto(frags, conns, (k - 1) as nat);
        let st = k - 1;
        if !prev.0[st] {
            let w = loop_walk(frags, conns, prev.0, prev.1, frags[st].start, st);
            lemma_walk_edges(frags, conns, prev.0, prev.1, frags[st].start, st);
            if w.2 && w.1 >= 2 {
                let ls = prev.2.push(w.0);
                assert forall|l: int| 0 <= l < ls.len() implies pieces_edges(frags, #[trigger] ls[l]) >= 2 by {
                    if l < prev.2.len() {
                        assert(ls[l] == prev.2[l]);
                    }
                }
            }
        }
    }
}

/// Every kept loop holds at least two half-edges, counting each fragment's
/// half-edges and one per section connector.
pub proof fn lemma_kept_loops_edges(frags: Seq<FragmentEnds>, conns: Seq<(VertexId, VertexId)>)
    requires
        frags.len() <= usize::MAX,
        conns.len() <= usize::MAX,
    ensures
        forall|l: int|
            0 <= l < kept_loops_upto(frags, conns, frags.len()).2.len() ==> pieces_edges(
                frags,
                #[trigger] kept_loops_upto(frags, conns, frags.len()).2[l],
            ) >= 2,
{
    lemma_kept_edges(frags, conns, frags.len());
}

/// The first position at or after `k` in `rem` whose fragment starts at `v`
/// (`rem.len()` when none does).
pub open spec fn first_starting(frags: Seq<FragmentEnds>, rem: Seq<usize>, v: VertexId, k: int) -> int
    decreases rem.len() - k,
{
    if k >= rem.len() || k < 0 {
        rem.len() as int
    } else if frags[rem[k] as int].start == v {
        k
    } else {
        first_starting(frags, rem, v, k + 1)
    }
}

/// The chain order of a cylinder face's kept fragments, from the fragments
/// `ordered` so far and those `rem`aining: next comes the first remaining
/// fragment that starts where the last ordered one ends, or else the first
/// remaining one.
pub open spec fn cyl_order(frags: Seq<FragmentEnds>, ordered: Seq<usize>, rem: Seq<usize>) -> Seq<usize>
    decreases rem.len(),
{
    if rem.len() == 0 || ordered.len() == 0 {
        ordered
    } else {
        let tail = frags[ordered.last() as int].end;
        let p = first_starting(frags, rem, tail, 0);
        let q = if p < rem.len() {
            p
        } else {
            0
        };
        proof {
            lemma_first_starting(frags, rem, tail, 0);
        }
        cyl_order(frags, ordered.push(rem[q]), rem.remove(q))
    }
}

/// The chain order of all the fragments: the last one first.
pub open spec fn cyl_order_of(frags: Seq<FragmentEnds>) -> Seq<usize> {
    if frags.len() == 0 {
        Seq::empty()
    } else {
        cyl_order(frags, seq![(frags.len() - 1) as usize], Seq::new((frags.len() - 1) as nat, |i: int| i as usize))
    }
}

/// The first matching position lies within the remaining fragments, or just
/// past them.
pub proof fn lemma_first_starting(frags: Seq<FragmentEnds>, rem: Seq<usize>, v: VertexId, k: int)
    requires
        0 <= k,
    ensures
        0 <= first_starting(frags, rem, v, k) <= rem.len(),
    decreases rem.len() - k,
{
    if k < rem.len() && frags[rem[k] as int].start != v {
        lemma_first_starting(frags, rem, v, k + 1);
    }
}

/// Order the kept fragments of a cut cylinder face into one chain: start from
/// the last fragment, then repeatedly take the first remaining fragment that
/// starts where the chain ends, or the first remaining one when none does.
/// Every fragment is taken exactly once.
pub fn order_cylinder_fragments(frags: &Vec<FragmentEnds>) -> (order: Vec<usize>)
    ensures
        order@ == cyl_order_of(frags@),
        order.len() == frags.len(),
        order@.no_duplicates(),
        forall|t: int| 0 <= t < order.len() ==> #[trigger] order@[t] < frags.len(),
{
    let n = frags.len();
    let mut ordered: Vec<usize> = Vec::new();
    if n == 0 {
        return ordered;
    }
    let mut rem: Vec<usize> = Vec::new();
    let mut i: usize = 0;
    while i < n - 1
        invariant
            n == frags.len(),
            n >= 1,
            i <= n - 1,
            rem@ == Seq::new(i as nat, |j: int| j as usize),
        decreases n - 1 - i,
    {
        rem.push(i);
        proof {
            assert(rem@ =~= Seq::new((i + 1) as nat, |j: int| j as usize));
        }
        i = i + 1;
    }
    ordered.push(n - 1);
    proof {
        assert(ordered@ =~= seq![(n - 1) as usize]);
    }
    while rem.len() > 0
        invariant
            n == frags.len(),
            ordered.len() >= 1,
            cyl_order(frags@, ordered@, rem@) == cyl_order_of(frags@),
            ordered.len() + rem.len() == n,
            ordered@.no_duplicates(),
            rem@.no_duplicates(),
            forall|a: int, b: int| 0 <= a < ordered.len() && 0 <= b < rem.len() ==> ordered@[a] != rem@[b],
            forall|t: int| 0 <= t < ordered.len() ==> #[trigger] ordered@[t] < n,
            forall|t: int| 0 <= t < rem.len() ==> #[trigger] rem@[t] < n,
        decreases rem.len(),
    {
        let tail = frags[ordered[ordered.len() - 1]].end;
        let mut p: usize = 0;
        while p < rem.len() && !same_vertex(frags[rem[p]].start, tail)
            invariant
                p <= rem.len(),
                forall|t: int| 0 <= t < rem.len() ==> #[trigger] rem@[t] < frags.len(),
                first_starting(frags@, rem@, tail, 0) == first_starting(frags@, rem@, tail, p as int),
            decreases rem.len() - p,
        {
            p = p + 1;
        }
        let q = if p < rem.len() { p } else { 0 };
        let ghost o0 = ordered@;
        let ghost r0 = rem@;
        let x = rem.remove(q);
        ordered.push(x);
        proof {
            assert(ordered@ == o0.push(r0[q as int]));
            assert(rem@ == r0.remove(q as int));
            assert forall|a: int, b: int| 0 <= a < ordered.len() && 0 <= b < rem.len() implies ordered@[a] != rem@[b] by {
                let bb = if b < q { b } else { b + 1 };
                assert(rem@[b] == r0[bb]);
                if a < o0.len() {
                    assert(ordered@[a] == o0[a]);
                } else {
                    assert(bb != q);
                }
            }
            assert(ordered@.no_duplicates()) by {
                assert forall|a: int, b: int| 0 <= a < ordered.len() && 0 <= b < ordered.len() && a != b implies ordered@[a]
                    != ordered@[b] by {
                    if a < o0.len() && b < o0.len() {
                    } else if a < o0.len() {
                        assert(o0[a] != r0[q as int]);
                    } else if b < o0.len() {
                        assert(o0[b] != r0[q as int]);
                    }
                }
            }
            assert(rem@.no_duplicates()) by {
                assert forall|a: int, b: int| 0 <= a < rem.len() && 0 <= b < rem.len() && a != b implies rem@[a] != rem@[b] by {
                    let aa = if a < q { a } else { a + 1 };
                    let bb = if b < q { b } else { b + 1 };
                    assert(rem@[a] == r0[aa] && rem@[b] == r0[bb]);
                }
            }
            assert forall|t: int| 0 <= t < rem.len() implies #[trigger] rem@[t] < n by {
                let tt = if t < q { t } else { t + 1 };
                assert(rem@[t] == r0[tt]);
            }
            assert forall|t: int| 0 <= t < ordered.len() implies #[trigger] ordered@[t] < n by {
                if t < o0.len() {
                    assert(ordered@[t] == o0[t]);
                }
            }
            lemma_first_starting(frags@, r0, tail, 0);
        }
    }
    ordered
}

} // verus!
