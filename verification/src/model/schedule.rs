//! The evaluation of every member of a model: a member lying on a dependency
//! cycle gets the error that names its cycle, every other member its
//! evaluation plan, one entry per member.

use vstd::prelude::*;

use crate::csg::ids::StableId;
use crate::csg::member::EvalError;
use crate::model::dag::{dep_rel, lemma_order_isolates_cycles, lemma_pos_of, pos_of, positions, unplaced};
use crate::model::eval::{cycle_error, model_plan_ok, ModelPlan};
use crate::model::graph::lemma_rel_reach_trans;
use crate::model::order::{all_nodes, rel_cyclic_components, rel_mutual, rel_on_cycle};
use crate::model::{ids_of, Model};

verus! {

/// `members` names the dependency cycle through position `v` of the members
/// `s`: the ids of the members sharing `v`'s strongly connected component, in
/// ascending order.
pub open spec fn names_cycle_of<L, K, B>(s: Seq<(StableId, crate::csg::member::Member<L, K, B>)>, v: int, members: Seq<u64>) -> bool {
    &&& forall|a: int, b: int| 0 <= a < b < members.len() ==> #[trigger] members[a] < #[trigger] members[b]
    &&& forall|k: int| 0 <= k < members.len() ==> #[trigger] ids_of(s).contains(members[k])
    &&& forall|w: int|
        0 <= w < s.len() ==> (#[trigger] members.contains(s[w].0.0) <==> rel_mutual(
            dep_rel(s),
            s.len() as int,
            all_nodes(s.len()),
            v,
            w,
        ))
}

/// The entry a member gets: the cycle error when it lies on a dependency
/// cycle, its evaluation plan otherwise.
pub open spec fn schedule_entry_ok<L, K, B>(m: Model<L, K, B>, v: int, r: Result<ModelPlan<L>, EvalError>) -> bool {
    let s = m.entries();
    if rel_on_cycle(dep_rel(s), s.len() as int, all_nodes(s.len()), v) {
        r matches Err(EvalError::CyclicDependency { members }) && names_cycle_of(s, v, members@)
    } else {
        model_plan_ok(m@, s[v].0.0, r)
    }
}

impl<L: Copy, K, B> Model<L, K, B> {
    /// Plan the evaluation of every member, one entry per member in ascending
    /// id order: a member lying on a dependency cycle is isolated with the
    /// error naming its cycle; every other member, including one that only
    /// depends on a cycle, gets its evaluation plan.
    pub fn evaluation_schedule(&self) -> (out: Vec<(StableId, Result<ModelPlan<L>, EvalError>)>)
        requires
            self.wf(),
        ensures
            out.len() == self.entries().len(),
            forall|v: int|
                0 <= v < out.len() ==> (#[trigger] out@[v]).0 == self.entries()[v].0 && schedule_entry_ok(
                    *self,
                    v,
                    out@[v].1,
                ),
    {
        let ghost s = self.entries();
        let ghost n = s.len() as int;
        let ghost rel = dep_rel(s);
        let ids = self.ids();
        let order = self.topological_order();
        let ghost comps = order.cycles@.map_values(|c: Vec<StableId>| positions(s, c@));
        proof {
            assert(ids.len() == s.len());
            lemma_pos_of(s);
            lemma_order_isolates_cycles(s, order.acyclic@, comps);
            assert(cycles_ok(s, order.cycles@, comps));
        }
        let mut out: Vec<(StableId, Result<ModelPlan<L>, EvalError>)> = Vec::new();
        let mut v: usize = 0;
        while v < ids.len()
            invariant
                self.wf(),
                s == self.entries(),
                n == s.len(),
                rel == dep_rel(s),
                ids.len() == n,
                forall|i: int| 0 <= i < ids.len() ==> #[trigger] ids@[i] == s[i].0,
                cycles_ok(s, order.cycles@, comps),
                v <= n,
                out.len() == v,
                forall|q: int| 0 <= q < v ==> (#[trigger] out@[q]).0 == s[q].0 && schedule_entry_ok(*self, q, out@[q].1),
            decreases n - v,
        {
            let id = ids[v];
            let mut found: Option<usize> = None;
            let mut i: usize = 0;
            while i < order.cycles.len()
                invariant
                    i <= order.cycles.len(),
                    found is None ==> forall|a: int, k: int|
                        0 <= a < i && 0 <= k < order.cycles@[a].len() ==> (#[trigger] order.cycles@[a]@[k]).0 != id.0,
                    found matches Some(a) ==> a < order.cycles.len() && exists|k: int|
                        0 <= k < order.cycles@[a as int].len() && (#[trigger] order.cycles@[a as int]@[k]).0 == id.0,
                decreases order.cycles.len() - i,
            {
                if found.is_none() {
                    let c = &order.cycles[i];
                    let mut k: usize = 0;
                    while k < c.len()
                        invariant
                            k <= c.len(),
                            found is None ==> forall|j: int| 0 <= j < k ==> (#[trigger] c@[j]).0 != id.0,
                            found matches Some(a) ==> a == i && exists|j: int| 0 <= j < c.len() && (#[trigger] c@[j]).0 == id.0,
                        decreases c.len() - k,
                    {
                        if found.is_none() && c[k].0 == id.0 {
                            found = Some(i);
                        }
                        k = k + 1;
                    }
                }
                i = i + 1;
            }
            let entry = match found {
                Some(a) => Err(cycle_error(&order.cycles[a])),
                None => self.evaluation_plan(id),
            };
            proof {
                self.lemma_schedule_entry(order.cycles@, comps, v as int, found, entry);
            }
            out.push((id, entry));
            v = v + 1;
        }
        out
    }

    proof fn lemma_schedule_entry(
        &self,
        cycles: Seq<Vec<StableId>>,
        comps: Seq<Seq<usize>>,
        v: int,
        found: Option<usize>,
        entry: Result<ModelPlan<L>, EvalError>,
    )
        requires
            self.wf(),
            0 <= v < self.entries().len(),
            cycles_ok(self.entries(), cycles, comps),
            found is None ==> forall|a: int, k: int|
                0 <= a < cycles.len() && 0 <= k < cycles[a].len() ==> (#[trigger] cycles[a]@[k]).0 != self.entries()[v].0.0,
            found matches Some(a) ==> a < cycles.len() && exists|k: int|
                0 <= k < cycles[a as int].len() && (#[trigger] cycles[a as int]@[k]).0 == self.entries()[v].0.0,
            found is None ==> model_plan_ok(self@, self.entries()[v].0.0, entry),
            found matches Some(a) ==> entry matches Err(EvalError::CyclicDependency { members }) && members@
                == cycles[a as int]@.map_values(|x: StableId| x.0),
        ensures
            schedule_entry_ok(*self, v, entry),
    {
        let s = self.entries();
        match found {
            None => {
                lemma_off_cycles(s, cycles, comps, v);
            },
            Some(a0) => {
                let members = match entry {
                    Err(EvalError::CyclicDependency { members }) => members@,
                    _ => Seq::empty(),
                };
                lemma_names_cycle(s, cycles, comps, a0 as int, v, members);
            },
        }
    }
}

/// The reported cycles, as ids and as positions, of the sorted members `s`.
pub open spec fn cycle_ids_ok<L, K, B>(
    s: Seq<(StableId, crate::csg::member::Member<L, K, B>)>,
    cycles: Seq<Vec<StableId>>,
    comps: Seq<Seq<usize>>,
) -> bool {
    &&& crate::model::strictly_sorted(s)
    &&& s.len() <= usize::MAX
    &&& forall|i: int| 0 <= i < s.len() ==> #[trigger] pos_of(s, s[i].0.0) == i
    &&& comps == cycles.map_values(|c: Vec<StableId>| positions(s, c@))
    &&& forall|i: int, k: int|
        0 <= i < cycles.len() && 0 <= k < cycles[i].len() ==> #[trigger] ids_of(s).contains(cycles[i]@[k].0)
}

/// The reported cycles are, moreover, the cyclic components of the
/// dependency graph.
pub open spec fn cycles_ok<L, K, B>(
    s: Seq<(StableId, crate::csg::member::Member<L, K, B>)>,
    cycles: Seq<Vec<StableId>>,
    comps: Seq<Seq<usize>>,
) -> bool {
    &&& cycle_ids_ok(s, cycles, comps)
    &&& rel_cyclic_components(dep_rel(s), s.len() as int, all_nodes(s.len()), comps)
}

proof fn lemma_cycle_position<L, K, B>(
    s: Seq<(StableId, crate::csg::member::Member<L, K, B>)>,
    cycles: Seq<Vec<StableId>>,
    comps: Seq<Seq<usize>>,
    a: int,
    q: int,
)
    requires
        cycle_ids_ok(s, cycles, comps),
        0 <= a < cycles.len(),
        0 <= q < cycles[a].len(),
    ensures
        comps[a].len() == cycles[a].len(),
        comps[a][q] < s.len(),
        s[comps[a][q] as int].0 == cycles[a]@[q],
{
    assert(ids_of(s).contains(cycles[a]@[q].0));
    let j = ids_of(s).index_of(cycles[a]@[q].0);
    assert(s[j].0.0 == cycles[a]@[q].0);
    assert(pos_of(s, s[j].0.0) == j);
    assert(comps[a] == positions(s, cycles[a]@));
    assert(comps[a][q] == j);
    assert(s[j].0 == cycles[a]@[q]);
}

proof fn lemma_off_cycles<L, K, B>(
    s: Seq<(StableId, crate::csg::member::Member<L, K, B>)>,
    cycles: Seq<Vec<StableId>>,
    comps: Seq<Seq<usize>>,
    v: int,
)
    requires
        cycles_ok(s, cycles, comps),
        0 <= v < s.len(),
        forall|a: int, k: int| 0 <= a < cycles.len() && 0 <= k < cycles[a].len() ==> (#[trigger] cycles[a]@[k]).0 != s[v].0.0,
    ensures
        !rel_on_cycle(dep_rel(s), s.len() as int, all_nodes(s.len()), v),
{
    let n = s.len() as int;
    if rel_on_cycle(dep_rel(s), n, all_nodes(s.len()), v) {
        let a = choose|a: int| 0 <= a < comps.len() && #[trigger] comps[a].contains(v as usize);
        let t = comps[a].index_of(v as usize);
        lemma_cycle_position(s, cycles, comps, a, t);
        assert(cycles[a]@[t].0 != s[v].0.0);
    }
}

#[verifier::rlimit(100)]
proof fn lemma_names_cycle<L, K, B>(
    s: Seq<(StableId, crate::csg::member::Member<L, K, B>)>,
    cycles: Seq<Vec<StableId>>,
    comps: Seq<Seq<usize>>,
    a: int,
    v: int,
    members: Seq<u64>,
)
    requires
        cycles_ok(s, cycles, comps),
        0 <= v < s.len(),
        0 <= a < cycles.len(),
        exists|k: int| 0 <= k < cycles[a].len() && (#[trigger] cycles[a]@[k]).0 == s[v].0.0,
        members == cycles[a]@.map_values(|x: StableId| x.0),
    ensures
        rel_on_cycle(dep_rel(s), s.len() as int, all_nodes(s.len()), v),
        names_cycle_of(s, v, members),
{
    let n = s.len() as int;
    let rel = dep_rel(s);
    let all = all_nodes(s.len());
    let k = choose|k: int| 0 <= k < cycles[a].len() && (#[trigger] cycles[a]@[k]).0 == s[v].0.0;
    let c = comps[a];
    lemma_cycle_position(s, cycles, comps, a, k);
    assert(s[c[k] as int].0.0 == s[v].0.0);
    assert(c[k] as int == v) by {
        if (c[k] as int) < v {
            assert(s[c[k] as int].0.0 < s[v].0.0);
        } else if (c[k] as int) > v {
            assert(s[v].0.0 < s[c[k] as int].0.0);
        }
    }
    assert(c.contains(v as usize));
    let c0 = c[0] as int;
    assert(rel_mutual(rel, n, all, c0, v));
    if c0 != v {
        assert(rel_mutual(rel, n, all, v, c0));
    }
    assert forall|q: int| 0 <= q < c.len() implies #[trigger] c[q] < n && s[c[q] as int].0.0 == members[q] by {
        lemma_cycle_position(s, cycles, comps, a, q);
    }
    assert forall|x: int, y: int| 0 <= x < y < members.len() implies #[trigger] members[x] < #[trigger] members[y] by {
        assert(c[x] < c[y]);
        assert(s[c[x] as int].0.0 == members[x]);
        assert(s[c[y] as int].0.0 == members[y]);
    }
    assert forall|q: int| 0 <= q < members.len() implies #[trigger] ids_of(s).contains(members[q]) by {
        assert(ids_of(s).contains(cycles[a]@[q].0));
    }
    assert forall|w: int| 0 <= w < n implies (#[trigger] members.contains(s[w].0.0) <==> rel_mutual(rel, n, all, v, w)) by {
        if members.contains(s[w].0.0) {
            let q = members.index_of(s[w].0.0);
            assert(s[c[q] as int].0.0 == s[w].0.0);
            assert(c[q] as int == w) by {
                if (c[q] as int) < w {
                    assert(s[c[q] as int].0.0 < s[w].0.0);
                } else if (c[q] as int) > w {
                    assert(s[w].0.0 < s[c[q] as int].0.0);
                }
            }
            assert(c.contains(w as usize));
            assert(rel_mutual(rel, n, all, c0, w));
            lemma_rel_reach_trans(rel, n, all, v, c0, w);
            lemma_rel_reach_trans(rel, n, all, w, c0, v);
        }
        if rel_mutual(rel, n, all, v, w) {
            lemma_rel_reach_trans(rel, n, all, c0, v, w);
            lemma_rel_reach_trans(rel, n, all, w, v, c0);
            assert(c.contains(w as usize));
            let q = c.index_of(w as usize);
            assert(s[c[q] as int].0.0 == members[q]);
        }
    }
}

} // verus!
