//! Member interference: the error vocabulary of the clash and sleeve checks,
//! and the combinatorial decisions of the pairwise clash check (which pairs
//! are intentional clip overlaps, which are undecidable, which go on to the
//! geometric comparison).

use vstd::prelude::*;

use crate::csg::ids::StableId;
use crate::csg::member::EvalError;
use crate::csg::node::{clipper_ids, distinct_ids, has_id, refs};
use crate::model::eval::{occupancy_leaf, occupancy_of};
use crate::model::Model;

verus! {

/// A reason an axis member could not be built.
#[derive(Debug, Clone, Copy, PartialEq, Eq, Structural)]
pub enum AxisMemberError {
    /// The start and end nodes coincide, so the member has no axis direction
    /// and zero length.
    ZeroLength,
}

/// Which sleeve rule was violated.
#[derive(Debug, Clone, Copy, PartialEq, Eq, Structural)]
pub enum SleeveViolationKind {
    /// The sleeve diameter exceeds the depth times the maximum diameter ratio.
    DiameterTooLarge,
    /// The sleeve centre is closer to a beam end than the minimum end distance.
    EndDistanceTooSmall,
    /// The sleeve centre is closer to a flange than the minimum edge distance.
    EdgeDistanceTooSmall,
}

/// A reason the sleeve check could not run on a member.
#[derive(Debug, Clone, Copy, PartialEq, Eq, Structural)]
pub enum SleeveError {
    /// The member is not a rectangular extrusion with circular openings; the
    /// check is declined rather than producing a misleading empty report.
    NotARectangularBeam,
}

/// A member pair whose interference could not be decided because one or both
/// members failed to evaluate.
#[derive(Debug, Clone, PartialEq)]
pub struct ClashError {
    /// The lower-id member of the pair.
    pub a: StableId,
    /// The higher-id member of the pair.
    pub b: StableId,
    /// The evaluation failure that prevented the pair from being checked.
    pub error: EvalError,
}

/// Member `base` is in the model and lists `clipper` as a clipper somewhere in
/// its tree.
pub open spec fn clips<L, K, B>(m: Map<u64, crate::csg::member::Member<L, K, B>>, base: u64, clipper: u64) -> bool {
    m.contains_key(base) && refs(m[base].tree(), clipper)
}

/// Whether member `base`'s tree lists `clipper` as a clipper.
#[verifier::loop_isolation(false)]
pub fn clips_against<L, K, B>(model: &Model<L, K, B>, base: StableId, clipper: StableId) -> (r: bool)
    requires
        model.wf(),
    ensures
        r == clips(model@, base.0, clipper.0),
{
    let member = match model.get(base) {
        None => {
            return false;
        },
        Some(m) => m,
    };
    let mut ids: Vec<StableId> = Vec::new();
    proof {
        assert(distinct_ids(ids@));
    }
    clipper_ids(member.csg(), &mut ids);
    proof {
        assert(!has_id(Seq::<StableId>::empty(), clipper.0));
        assert(has_id(ids@, clipper.0) <==> refs(member.tree(), clipper.0));
    }
    let mut i: usize = 0;
    while i < ids.len()
        invariant
            i <= ids.len(),
            forall|j: int| 0 <= j < i ==> ids@[j].0 != clipper.0,
        decreases ids.len() - i,
    {
        if ids[i].0 == clipper.0 {
            proof {
                assert(has_id(ids@, clipper.0));
            }
            return true;
        }
        i = i + 1;
    }
    proof {
        assert(!has_id(ids@, clipper.0));
    }
    false
}

/// Whether `a` and `b` are in a clip relationship: one lists the other as a
/// clipper anywhere in its tree.
pub fn is_clip_pair<L, K, B>(model: &Model<L, K, B>, a: StableId, b: StableId) -> (r: bool)
    requires
        model.wf(),
    ensures
        r == (clips(model@, a.0, b.0) || clips(model@, b.0, a.0)),
{
    clips_against(model, a, b) || clips_against(model, b, a)
}

/// What the clash check does with one member pair.
#[derive(Debug, Clone, Copy, PartialEq, Eq, Structural)]
pub enum PairStep {
    /// The pair is not reported.
    Skip,
    /// The pair is undecidable: its first member failed to evaluate.
    FailedA,
    /// The pair is undecidable: its second member failed to evaluate.
    FailedB,
    /// Both members occupy space: compare them geometrically.
    Compare,
}

/// The step for a pair whose members evaluated to `res_a` and `res_b`.
pub open spec fn pair_step(
    res_a: Result<bool, EvalError>,
    res_b: Result<bool, EvalError>,
    clip_pair: bool,
    include_clip_pairs: bool,
) -> PairStep {
    if !include_clip_pairs && clip_pair {
        PairStep::Skip
    } else if res_a is Err {
        PairStep::FailedA
    } else if res_b is Err {
        PairStep::FailedB
    } else if res_a->Ok_0 && res_b->Ok_0 {
        PairStep::Compare
    } else {
        PairStep::Skip
    }
}

/// Decide one pair of the clash check from how its two members evaluated
/// (`Ok(true)` for a member that occupies space, `Ok(false)` for an empty one)
/// and whether it is a clip pair: an intentional clip overlap is skipped
/// unless clip pairs are audited; otherwise the first member's failure, then
/// the second's, makes the pair undecidable; an empty member never clashes.
pub fn clash_pair_step(
    res_a: &Result<bool, EvalError>,
    res_b: &Result<bool, EvalError>,
    clip_pair: bool,
    include_clip_pairs: bool,
) -> (r: PairStep)
    ensures
        r == pair_step(*res_a, *res_b, clip_pair, include_clip_pairs),
{
    if !include_clip_pairs && clip_pair {
        return PairStep::Skip;
    }
    match (res_a, res_b) {
        (Err(_), _) => PairStep::FailedA,
        (Ok(_), Err(_)) => PairStep::FailedB,
        (Ok(x), Ok(y)) => if *x && *y {
            PairStep::Compare
        } else {
            PairStep::Skip
        },
    }
}


/// The reported steps of member `i` paired with each of the members
/// `i + 1 .. j`, in order; skipped pairs are left out.
pub open spec fn row_steps<L, K, B>(
    m: Map<u64, crate::csg::member::Member<L, K, B>>,
    ids: Seq<StableId>,
    res: Seq<Result<bool, EvalError>>,
    include_clip_pairs: bool,
    i: int,
    j: int,
) -> Seq<(StableId, StableId, PairStep)>
    decreases j - i,
{
    if j <= i + 1 {
        Seq::empty()
    } else {
        let prev = row_steps(m, ids, res, include_clip_pairs, i, j - 1);
        let a = ids[i];
        let b = ids[j - 1];
        let st = pair_step(res[i], res[j - 1], clips(m, a.0, b.0) || clips(m, b.0, a.0), include_clip_pairs);
        if st == PairStep::Skip {
            prev
        } else {
            prev.push((a, b, st))
        }
    }
}

/// The reported steps of the first `i` members, each paired with every later
/// member.
pub open spec fn clash_steps<L, K, B>(
    m: Map<u64, crate::csg::member::Member<L, K, B>>,
    ids: Seq<StableId>,
    res: Seq<Result<bool, EvalError>>,
    include_clip_pairs: bool,
    i: nat,
) -> Seq<(StableId, StableId, PairStep)>
    decreases i,
{
    if i == 0 {
        Seq::empty()
    } else {
        clash_steps(m, ids, res, include_clip_pairs, (i - 1) as nat) + row_steps(
            m,
            ids,
            res,
            include_clip_pairs,
            i - 1,
            ids.len() as int,
        )
    }
}

/// Plan the clash check over every unordered pair of the members `ids`
/// (whose evaluations are `res`, in the same order): pair `(ids[i], ids[j])`
/// for `i < j`, row by row, with what to do with it; the pairs that are not
/// reported are left out.
pub fn clash_plan<L, K, B>(
    model: &Model<L, K, B>,
    ids: &Vec<StableId>,
    res: &Vec<Result<bool, EvalError>>,
    include_clip_pairs: bool,
) -> (out: Vec<(StableId, StableId, PairStep)>)
    requires
        model.wf(),
        res.len() == ids.len(),
    ensures
        out@ == clash_steps(model@, ids@, res@, include_clip_pairs, ids.len() as nat),
{
    let n = ids.len();
    let mut out: Vec<(StableId, StableId, PairStep)> = Vec::new();
    let mut i: usize = 0;
    while i < n
        invariant
            n == ids.len(),
            res.len() == n,
            model.wf(),
            i <= n,
            out@ == clash_steps(model@, ids@, res@, include_clip_pairs, i as nat),
        decreases n - i,
    {
        let mut j: usize = i + 1;
        while j < n
            invariant
                n == ids.len(),
                res.len() == n,
                model.wf(),
                i < n,
                i + 1 <= j <= n,
                out@ == clash_steps(model@, ids@, res@, include_clip_pairs, i as nat) + row_steps(
                    model@,
                    ids@,
                    res@,
                    include_clip_pairs,
                    i as int,
                    j as int,
                ),
            decreases n - j,
        {
            let a = ids[i];
            let b = ids[j];
            let cp = !include_clip_pairs && is_clip_pair(model, a, b);
            let st = clash_pair_step(&res[i], &res[j], cp, include_clip_pairs);
            let ghost prev = out@;
            proof {
                assert(st == pair_step(res@[i as int], res@[j as int], clips(model@, a.0, b.0) || clips(model@, b.0, a.0), include_clip_pairs));
            }
            if st != PairStep::Skip {
                out.push((a, b, st));
            }
            proof {
                let base = clash_steps(model@, ids@, res@, include_clip_pairs, i as nat);
                let r0 = row_steps(model@, ids@, res@, include_clip_pairs, i as int, j as int);
                let r1 = row_steps(model@, ids@, res@, include_clip_pairs, i as int, j + 1);
                if st != PairStep::Skip {
                    assert(r1 == r0.push((a, b, st)));
                    assert(out@ =~= base + r1);
                } else {
                    assert(r1 == r0);
                }
            }
            j = j + 1;
        }
        proof {
            assert(row_steps(model@, ids@, res@, include_clip_pairs, i as int, n as int) == row_steps(
                model@,
                ids@,
                res@,
                include_clip_pairs,
                i as int,
                j as int,
            ));
        }
        i = i + 1;
    }
    out
}


/// The occupancy leaves of both members of a pair, when both members exist
/// and both have one.
pub open spec fn pair_leaves_spec<L, K, B>(m: Map<u64, crate::csg::member::Member<L, K, B>>, a: u64, b: u64) -> Option<(L, L)> {
    if m.contains_key(a) && m.contains_key(b) && occupancy_of(m[a].tree()) is Some && occupancy_of(m[b].tree()) is Some {
        Some((occupancy_of(m[a].tree())->Some_0, occupancy_of(m[b].tree())->Some_0))
    } else {
        None
    }
}

/// The prisms the fine comparison of a pair intersects: each member's
/// occupancy leaf. `None` when a member is missing or occupies no single
/// prism; such a pair can only be reported as a potential clash.
pub fn pair_leaves<L: Copy, K, B>(model: &Model<L, K, B>, a: StableId, b: StableId) -> (r: Option<(L, L)>)
    requires
        model.wf(),
    ensures
        r == pair_leaves_spec(model@, a.0, b.0),
{
    let ma = match model.get(a) {
        Some(m) => m,
        None => {
            return None;
        },
    };
    let mb = match model.get(b) {
        Some(m) => m,
        None => {
            return None;
        },
    };
    match (occupancy_leaf(ma.csg()), occupancy_leaf(mb.csg())) {
        (Some(la), Some(lb)) => Some((la, lb)),
        _ => None,
    }
}


/// The pairs of member `i` with each of the members `i + 1 .. j` that go on
/// to the geometric comparison, in order.
pub open spec fn row_compares<L, K, B>(
    m: Map<u64, crate::csg::member::Member<L, K, B>>,
    ids: Seq<StableId>,
    res: Seq<Result<bool, EvalError>>,
    include_clip_pairs: bool,
    i: int,
    j: int,
) -> Seq<(StableId, StableId)>
    decreases j - i,
{
    if j <= i + 1 {
        Seq::empty()
    } else {
        let prev = row_compares(m, ids, res, include_clip_pairs, i, j - 1);
        let a = ids[i];
        let b = ids[j - 1];
        if pair_step(res[i], res[j - 1], clips(m, a.0, b.0) || clips(m, b.0, a.0), include_clip_pairs)
            == PairStep::Compare {
            prev.push((a, b))
        } else {
            prev
        }
    }
}

/// The undecidable pairs of member `i` with each of the members `i + 1 ..
/// j`, in order, as the positions of the two members and of the one whose
/// failure decides it.
pub open spec fn row_failures<L, K, B>(
    m: Map<u64, crate::csg::member::Member<L, K, B>>,
    ids: Seq<StableId>,
    res: Seq<Result<bool, EvalError>>,
    include_clip_pairs: bool,
    i: int,
    j: int,
) -> Seq<(int, int, int)>
    decreases j - i,
{
    if j <= i + 1 {
        Seq::empty()
    } else {
        let prev = row_failures(m, ids, res, include_clip_pairs, i, j - 1);
        let a = ids[i];
        let b = ids[j - 1];
        let st = pair_step(res[i], res[j - 1], clips(m, a.0, b.0) || clips(m, b.0, a.0), include_clip_pairs);
        if st == PairStep::FailedA {
            prev.push((i, j - 1, i))
        } else if st == PairStep::FailedB {
            prev.push((i, j - 1, j - 1))
        } else {
            prev
        }
    }
}

/// The compared pairs of the first `k` rows.
pub open spec fn clash_compares<L, K, B>(
    m: Map<u64, crate::csg::member::Member<L, K, B>>,
    ids: Seq<StableId>,
    res: Seq<Result<bool, EvalError>>,
    include_clip_pairs: bool,
    k: nat,
) -> Seq<(StableId, StableId)>
    decreases k,
{
    if k == 0 {
        Seq::empty()
    } else {
        clash_compares(m, ids, res, include_clip_pairs, (k - 1) as nat) + row_compares(
            m,
            ids,
            res,
            include_clip_pairs,
            k - 1,
            ids.len() as int,
        )
    }
}

/// The undecidable pairs of the first `k` rows.
pub open spec fn clash_failures<L, K, B>(
    m: Map<u64, crate::csg::member::Member<L, K, B>>,
    ids: Seq<StableId>,
    res: Seq<Result<bool, EvalError>>,
    include_clip_pairs: bool,
    k: nat,
) -> Seq<(int, int, int)>
    decreases k,
{
    if k == 0 {
        Seq::empty()
    } else {
        clash_failures(m, ids, res, include_clip_pairs, (k - 1) as nat) + row_failures(
            m,
            ids,
            res,
            include_clip_pairs,
            k - 1,
            ids.len() as int,
        )
    }
}

/// Run the combinatorial part of the clash check over every unordered pair
/// of the members `ids` (evaluated as `res`, in the same order): the pairs to
/// compare geometrically, and one error per undecidable pair carrying the
/// failure of its first failed member; intentional clip pairs are left out
/// unless included, and empty members never clash.
pub fn clash_pairs<L, K, B>(
    model: &Model<L, K, B>,
    ids: &Vec<StableId>,
    res: &Vec<Result<bool, EvalError>>,
    include_clip_pairs: bool,
) -> (r: (Vec<(StableId, StableId)>, Vec<ClashError>))
    requires
        model.wf(),
        res.len() == ids.len(),
    ensures
        r.0@ == clash_compares(model@, ids@, res@, include_clip_pairs, ids.len() as nat),
        r.1.len() == clash_failures(model@, ids@, res@, include_clip_pairs, ids.len() as nat).len(),
        forall|t: int|
            0 <= t < r.1.len() ==> {
                let f = clash_failures(model@, ids@, res@, include_clip_pairs, ids.len() as nat)[t];
                &&& (#[trigger] r.1@[t]).a == ids@[f.0]
                &&& r.1@[t].b == ids@[f.1]
                &&& res@[f.2] is Err
                &&& cloned(res@[f.2]->Err_0, r.1@[t].error)
            },
{
    let n = ids.len();
    let mut compare: Vec<(StableId, StableId)> = Vec::new();
    let mut errors: Vec<ClashError> = Vec::new();
    let mut i: usize = 0;
    while i < n
        invariant
            n == ids.len(),
            res.len() == n,
            model.wf(),
            i <= n,
            compare@ == clash_compares(model@, ids@, res@, include_clip_pairs, i as nat),
            errors.len() == clash_failures(model@, ids@, res@, include_clip_pairs, i as nat).len(),
            forall|t: int|
                0 <= t < errors.len() ==> {
                    let f = clash_failures(model@, ids@, res@, include_clip_pairs, i as nat)[t];
                    &&& (#[trigger] errors@[t]).a == ids@[f.0]
                    &&& errors@[t].b == ids@[f.1]
                    &&& res@[f.2] is Err
                    &&& cloned(res@[f.2]->Err_0, errors@[t].error)
                },
        decreases n - i,
    {
        let ghost fails0 = clash_failures(model@, ids@, res@, include_clip_pairs, i as nat);
        let ghost compared0 = clash_compares(model@, ids@, res@, include_clip_pairs, i as nat);
        let mut j: usize = i + 1;
        while j < n
            invariant
                n == ids.len(),
                res.len() == n,
                model.wf(),
                i < n,
                i + 1 <= j <= n,
                compare@ == compared0 + row_compares(model@, ids@, res@, include_clip_pairs, i as int, j as int),
                errors.len() == fails0.len() + row_failures(model@, ids@, res@, include_clip_pairs, i as int, j as int).len(),
                forall|t: int|
                    0 <= t < errors.len() ==> {
                        let f = (fails0 + row_failures(model@, ids@, res@, include_clip_pairs, i as int, j as int))[t];
                        &&& (#[trigger] errors@[t]).a == ids@[f.0]
                        &&& errors@[t].b == ids@[f.1]
                        &&& res@[f.2] is Err
                        &&& cloned(res@[f.2]->Err_0, errors@[t].error)
                    },
            decreases n - j,
        {
            let a = ids[i];
            let b = ids[j];
            let cp = !include_clip_pairs && is_clip_pair(model, a, b);
            let st = clash_pair_step(&res[i], &res[j], cp, include_clip_pairs);
            let ghost rc0 = row_compares(model@, ids@, res@, include_clip_pairs, i as int, j as int);
            let ghost rf0 = row_failures(model@, ids@, res@, include_clip_pairs, i as int, j as int);
            let ghost e0 = errors@;
            proof {
                assert(st == pair_step(res@[i as int], res@[j as int], clips(model@, a.0, b.0) || clips(model@, b.0, a.0), include_clip_pairs));
            }
            match st {
                PairStep::Compare => {
                    compare.push((a, b));
                },
                PairStep::FailedA => {
                    match &res[i] {
                        Err(e) => {
                            errors.push(ClashError { a, b, error: e.clone() });
                        },
                        Ok(_) => {},
                    }
                },
                PairStep::FailedB => {
                    match &res[j] {
                        Err(e) => {
                            errors.push(ClashError { a, b, error: e.clone() });
                        },
                        Ok(_) => {},
                    }
                },
                PairStep::Skip => {},
            }
            proof {
                let rf1 = row_failures(model@, ids@, res@, include_clip_pairs, i as int, j + 1);
                let rc1 = row_compares(model@, ids@, res@, include_clip_pairs, i as int, j + 1);
                if st == PairStep::FailedA || st == PairStep::FailedB {
                    let w: int = if st == PairStep::FailedA { i as int } else { j as int };
                    assert(rf1 == rf0.push((i as int, j as int, w)));
                    assert(rc1 == rc0);
                    assert forall|t: int| 0 <= t < errors.len() implies {
                        let f = (fails0 + rf1)[t];
                        &&& (#[trigger] errors@[t]).a == ids@[f.0]
                        &&& errors@[t].b == ids@[f.1]
                        &&& res@[f.2] is Err
                        &&& cloned(res@[f.2]->Err_0, errors@[t].error)
                    } by {
                        if t < e0.len() {
                            assert((fails0 + rf1)[t] == (fails0 + rf0)[t]);
                            assert(errors@[t] == e0[t]);
                        } else {
                            assert((fails0 + rf1)[t] == (i as int, j as int, w));
                        }
                    }
                } else if st == PairStep::Compare {
                    assert(rc1 == rc0.push((a, b)));
                    assert(rf1 == rf0);
                    assert(compare@ =~= compared0 + rc1);
                } else {
                    assert(rc1 == rc0);
                    assert(rf1 == rf0);
                }
            }
            j = j + 1;
        }
        proof {
            assert(row_failures(model@, ids@, res@, include_clip_pairs, i as int, n as int) == row_failures(
                model@,
                ids@,
                res@,
                include_clip_pairs,
                i as int,
                j as int,
            ));
            assert(clash_failures(model@, ids@, res@, include_clip_pairs, (i + 1) as nat) == fails0 + row_failures(
                model@,
                ids@,
                res@,
                include_clip_pairs,
                i as int,
                n as int,
            ));
        }
        i = i + 1;
    }
    (compare, errors)
}


/// The step of the pair of members at positions `i` and `x`.
pub open spec fn step_at<L, K, B>(
    m: Map<u64, crate::csg::member::Member<L, K, B>>,
    ids: Seq<StableId>,
    res: Seq<Result<bool, EvalError>>,
    include_clip_pairs: bool,
    i: int,
    x: int,
) -> PairStep {
    pair_step(res[i], res[x], clips(m, ids[i].0, ids[x].0) || clips(m, ids[x].0, ids[i].0), include_clip_pairs)
}

/// Pair `p` is the pair of the members at positions `i` and `x`, and that
/// pair goes on to the geometric comparison.
pub open spec fn compared_pair<L, K, B>(
    m: Map<u64, crate::csg::member::Member<L, K, B>>,
    ids: Seq<StableId>,
    res: Seq<Result<bool, EvalError>>,
    include_clip_pairs: bool,
    i: int,
    x: int,
    p: (StableId, StableId),
) -> bool {
    step_at(m, ids, res, include_clip_pairs, i, x) == PairStep::Compare && p == (ids[i], ids[x])
}

proof fn lemma_row_law<L, K, B>(
    m: Map<u64, crate::csg::member::Member<L, K, B>>,
    ids: Seq<StableId>,
    res: Seq<Result<bool, EvalError>>,
    inc: bool,
    i: int,
    j: int,
) -> (xs: Seq<int>)
    requires
        0 <= i,
        j <= ids.len(),
    ensures
        xs.len() == row_compares(m, ids, res, inc, i, j).len(),
        forall|t: int|
            0 <= t < xs.len() ==> i < #[trigger] xs[t] < j && compared_pair(
                m,
                ids,
                res,
                inc,
                i,
                xs[t],
                row_compares(m, ids, res, inc, i, j)[t],
            ),
        forall|x: int|
            i < x < j && #[trigger] step_at(m, ids, res, inc, i, x) == PairStep::Compare ==> row_compares(
                m,
                ids,
                res,
                inc,
                i,
                j,
            ).contains((ids[i], ids[x])),
        forall|t: int|
            0 <= t < row_failures(m, ids, res, inc, i, j).len() ==> {
                let f = #[trigger] row_failures(m, ids, res, inc, i, j)[t];
                &&& f.0 == i && i < f.1 < j
                &&& (step_at(m, ids, res, inc, i, f.1) == PairStep::FailedA && f.2 == i) || (step_at(
                    m,
                    ids,
                    res,
                    inc,
                    i,
                    f.1,
                ) == PairStep::FailedB && f.2 == f.1)
            },
        forall|x: int|
            i < x < j && (#[trigger] step_at(m, ids, res, inc, i, x) == PairStep::FailedA || step_at(
                m,
                ids,
                res,
                inc,
                i,
                x,
            ) == PairStep::FailedB) ==> exists|t: int|
                0 <= t < row_failures(m, ids, res, inc, i, j).len() && (#[trigger] row_failures(m, ids, res, inc, i, j)[t]).0
                    == i && row_failures(m, ids, res, inc, i, j)[t].1 == x,
    decreases j - i,
{
    if j > i + 1 {
        let pxs = lemma_row_law(m, ids, res, inc, i, j - 1);
        let pc = row_compares(m, ids, res, inc, i, j - 1);
        let c = row_compares(m, ids, res, inc, i, j);
        let pf = row_failures(m, ids, res, inc, i, j - 1);
        let f = row_failures(m, ids, res, inc, i, j);
        let st = step_at(m, ids, res, inc, i, j - 1);
        let xs = if st == PairStep::Compare {
            pxs.push(j - 1)
        } else {
            pxs
        };
        assert forall|t: int| 0 <= t < xs.len() implies i < #[trigger] xs[t] < j && compared_pair(m, ids, res, inc, i, xs[t], c[t]) by {
            if t < pc.len() {
                assert(c[t] == pc[t] && xs[t] == pxs[t]);
            } else {
                assert(c[t] == (ids[i], ids[j - 1]));
            }
        }
        assert forall|x: int| i < x < j && #[trigger] step_at(m, ids, res, inc, i, x) == PairStep::Compare implies c.contains(
            (ids[i], ids[x]),
        ) by {
            if x < j - 1 {
                let t = pc.index_of((ids[i], ids[x]));
                if st == PairStep::Compare {
                    assert(c[t] == pc[t]);
                }
            } else {
                assert(c[c.len() - 1] == (ids[i], ids[x]));
            }
        }
        assert forall|t: int| 0 <= t < f.len() implies {
            let e = #[trigger] f[t];
            &&& e.0 == i && i < e.1 < j
            &&& (step_at(m, ids, res, inc, i, e.1) == PairStep::FailedA && e.2 == i) || (step_at(
                m,
                ids,
                res,
                inc,
                i,
                e.1,
            ) == PairStep::FailedB && e.2 == e.1)
        } by {
            if t < pf.len() {
                assert(f[t] == pf[t]);
            }
        }
        assert forall|x: int|
            i < x < j && (#[trigger] step_at(m, ids, res, inc, i, x) == PairStep::FailedA || step_at(
                m,
                ids,
                res,
                inc,
                i,
                x,
            ) == PairStep::FailedB) implies exists|t: int| 0 <= t < f.len() && (#[trigger] f[t]).0 == i && f[t].1 == x by {
            if x < j - 1 {
                let t = choose|t: int| 0 <= t < pf.len() && (#[trigger] pf[t]).0 == i && pf[t].1 == x;
                assert(f[t] == pf[t]);
            } else {
                assert(f[f.len() - 1].0 == i && f[f.len() - 1].1 == x);
            }
        }
        xs
    } else {
        Seq::empty()
    }
}

/// The clash check reports exactly the right pairs: a pair of members at
/// positions `i < x` goes to the geometric comparison exactly when its step
/// is `Compare`, and is reported undecidable exactly when its step is a
/// failure, blamed on the member whose failure decides it; nothing else is
/// reported. The positions of the members of each compared pair are
/// returned, in order.
pub proof fn lemma_clash_law<L, K, B>(
    m: Map<u64, crate::csg::member::Member<L, K, B>>,
    ids: Seq<StableId>,
    res: Seq<Result<bool, EvalError>>,
    inc: bool,
    k: nat,
) -> (ps: Seq<(int, int)>)
    requires
        k <= ids.len(),
    ensures
        ps.len() == clash_compares(m, ids, res, inc, k).len(),
        forall|t: int|
            0 <= t < ps.len() ==> 0 <= (#[trigger] ps[t]).0 < k && ps[t].0 < ps[t].1 < ids.len() && compared_pair(
                m,
                ids,
                res,
                inc,
                ps[t].0,
                ps[t].1,
                clash_compares(m, ids, res, inc, k)[t],
            ),
        forall|i: int, x: int|
            0 <= i < k && i < x < ids.len() && #[trigger] step_at(m, ids, res, inc, i, x) == PairStep::Compare
                ==> clash_compares(m, ids, res, inc, k).contains((ids[i], ids[x])),
        forall|t: int|
            0 <= t < clash_failures(m, ids, res, inc, k).len() ==> {
                let f = #[trigger] clash_failures(m, ids, res, inc, k)[t];
                &&& 0 <= f.0 < k && f.0 < f.1 < ids.len()
                &&& (step_at(m, ids, res, inc, f.0, f.1) == PairStep::FailedA && f.2 == f.0) || (step_at(
                    m,
                    ids,
                    res,
                    inc,
                    f.0,
                    f.1,
                ) == PairStep::FailedB && f.2 == f.1)
            },
        forall|i: int, x: int|
            0 <= i < k && i < x < ids.len() && (#[trigger] step_at(m, ids, res, inc, i, x) == PairStep::FailedA
                || step_at(m, ids, res, inc, i, x) == PairStep::FailedB) ==> exists|t: int|
                0 <= t < clash_failures(m, ids, res, inc, k).len() && (#[trigger] clash_failures(
                    m,
                    ids,
                    res,
                    inc,
                    k,
                )[t]).0 == i && clash_failures(m, ids, res, inc, k)[t].1 == x,
    decreases k,
{
    if k > 0 {
        let i0 = k - 1;
        let pps = lemma_clash_law(m, ids, res, inc, (k - 1) as nat);
        let xs = lemma_row_law(m, ids, res, inc, i0, ids.len() as int);
        let ps = pps + xs.map_values(|x: int| (i0, x));
        let pc = clash_compares(m, ids, res, inc, (k - 1) as nat);
        let rc = row_compares(m, ids, res, inc, i0, ids.len() as int);
        let c = clash_compares(m, ids, res, inc, k);
        let pf = clash_failures(m, ids, res, inc, (k - 1) as nat);
        let rf = row_failures(m, ids, res, inc, i0, ids.len() as int);
        let f = clash_failures(m, ids, res, inc, k);
        assert(c == pc + rc);
        assert(f == pf + rf);
        assert forall|t: int| 0 <= t < ps.len() implies 0 <= (#[trigger] ps[t]).0 < k && ps[t].0 < ps[t].1 < ids.len()
            && compared_pair(m, ids, res, inc, ps[t].0, ps[t].1, c[t]) by {
            if t < pc.len() {
                assert(c[t] == pc[t] && ps[t] == pps[t]);
            } else {
                assert(c[t] == rc[t - pc.len()] && ps[t] == (i0, xs[t - pc.len()]));
            }
        }
        assert forall|i: int, x: int|
            0 <= i < k && i < x < ids.len() && #[trigger] step_at(m, ids, res, inc, i, x) == PairStep::Compare implies c.contains(
            (ids[i], ids[x]),
        ) by {
            if i < k - 1 {
                let t = pc.index_of((ids[i], ids[x]));
                assert(c[t] == pc[t]);
            } else {
                let t = rc.index_of((ids[i], ids[x]));
                assert(c[t + pc.len()] == rc[t]);
            }
        }
        assert forall|t: int| 0 <= t < f.len() implies {
            let e = #[trigger] f[t];
            &&& 0 <= e.0 < k && e.0 < e.1 < ids.len()
            &&& (step_at(m, ids, res, inc, e.0, e.1) == PairStep::FailedA && e.2 == e.0) || (step_at(
                m,
                ids,
                res,
                inc,
                e.0,
                e.1,
            ) == PairStep::FailedB && e.2 == e.1)
        } by {
            if t < pf.len() {
                assert(f[t] == pf[t]);
            } else {
                assert(f[t] == rf[t - pf.len()]);
            }
        }
        assert forall|i: int, x: int|
            0 <= i < k && i < x < ids.len() && (#[trigger] step_at(m, ids, res, inc, i, x) == PairStep::FailedA
                || step_at(m, ids, res, inc, i, x) == PairStep::FailedB) implies exists|t: int|
            0 <= t < f.len() && (#[trigger] f[t]).0 == i && f[t].1 == x by {
            if i < k - 1 {
                let t = choose|t: int| 0 <= t < pf.len() && (#[trigger] pf[t]).0 == i && pf[t].1 == x;
                assert(f[t] == pf[t]);
            } else {
                let t = choose|t: int| 0 <= t < rf.len() && (#[trigger] rf[t]).0 == i && rf[t].1 == x;
                assert(f[t + pf.len()] == rf[t]);
            }
        }
        ps
    } else {
        Seq::empty()
    }
}

} // verus!
