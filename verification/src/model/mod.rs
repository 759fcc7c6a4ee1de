//! Model layer: a member collection with an inter-member dependency graph.
//!
//! A [`Model`] owns the building's members keyed by caller-assigned stable ids
//! and resolves the inter-member relations a single member cannot express: a
//! member whose tree clips against other members depends on them. Those
//! dependency edges run clipper → base; marking a member dirty marks every
//! member that depends on it, and evaluation visits clippers before the bases
//! that deduct them, isolating dependency cycles.

pub mod dag;
pub mod eval;
pub mod graph;
pub mod order;
pub mod schedule;

use vstd::prelude::*;

use crate::csg::ids::StableId;
use crate::csg::member::Member;

verus! {

/// A failure manipulating the model's membership.
#[derive(Debug, Clone, Copy, PartialEq, Eq, Structural)]
pub enum ModelError {
    /// A member with this id is already present; ids must be unique.
    DuplicateId(StableId),
    /// No member with this id is present.
    UnknownId(StableId),
}

/// A collection of building members keyed by stable id, held in ascending id
/// order.
///
/// The members are stored as a vector of `(id, member)` pairs kept strictly
/// sorted by id (the well-formedness invariant), rather than in an ordered
/// map. The dependency graph, its closure and its orderings all name members
/// by their position, and the proofs about them index the sorted vector
/// directly; the invariant gives the same ascending-id iteration order and
/// the same uniqueness of ids that an ordered map would, and a lookup walks
/// the sorted ids up to the first one not below the key.
#[derive(Debug)]
pub struct Model<L, K, B> {
    members: Vec<(StableId, Member<L, K, B>)>,
}

/// The ids of a member list, in order.
pub open spec fn ids_of<L, K, B>(s: Seq<(StableId, Member<L, K, B>)>) -> Seq<u64> {
    s.map_values(|e: (StableId, Member<L, K, B>)| e.0.0)
}

/// The ids of a member list strictly increase.
pub open spec fn strictly_sorted<L, K, B>(s: Seq<(StableId, Member<L, K, B>)>) -> bool {
    forall|i: int, j: int| 0 <= i < j < s.len() ==> s[i].0.0 < s[j].0.0
}

/// The map from id to member that a member list describes.
pub open spec fn map_of<L, K, B>(s: Seq<(StableId, Member<L, K, B>)>) -> Map<u64, Member<L, K, B>> {
    Map::new(|k: u64| ids_of(s).contains(k), |k: u64| s[ids_of(s).index_of(k)].1)
}

/// Replacing the member at one position keeps the ids sorted and replaces
/// that id's member in the map.
proof fn lemma_replace_member<L, K, B>(s: Seq<(StableId, Member<L, K, B>)>, i: int)
    requires
        strictly_sorted(s),
        0 <= i < s.len(),
    ensures
        forall|m: Member<L, K, B>|
            #![trigger s.update(i, (s[i].0, m))]
            strictly_sorted(s.update(i, (s[i].0, m))) && map_of(s.update(i, (s[i].0, m)))
                == map_of(s).insert(s[i].0.0, m),
{
    assert forall|m: Member<L, K, B>|
        #![trigger s.update(i, (s[i].0, m))]
        strictly_sorted(s.update(i, (s[i].0, m))) && map_of(s.update(i, (s[i].0, m)))
            == map_of(s).insert(s[i].0.0, m) by {
        let t = s.update(i, (s[i].0, m));
        assert(ids_of(t) == ids_of(s));
        assert forall|k: u64| #[trigger] map_of(t).contains_key(k) implies map_of(t)[k] == map_of(
            s,
        ).insert(s[i].0.0, m)[k] by {
            let j = ids_of(s).index_of(k);
            assert(ids_of(s)[j] == k);
            if j == i {
            } else {
                if ids_of(s)[i] == k {
                    if i < j {
                        assert(s[i].0.0 < s[j].0.0);
                    } else {
                        assert(s[j].0.0 < s[i].0.0);
                    }
                }
            }
        }
        assert(ids_of(s)[i] == s[i].0.0);
        assert(map_of(t) =~= map_of(s).insert(s[i].0.0, m));
    }
}

impl<L, K, B> Model<L, K, B> {
    /// The members in ascending id order.
    pub closed spec fn entries(&self) -> Seq<(StableId, Member<L, K, B>)> {
        self.members@
    }

    /// The model's members, in ascending id order, are held without
    /// duplicate ids.
    pub closed spec fn wf(&self) -> bool {
        strictly_sorted(self.members@)
    }

    /// The model as a map from id to member.
    pub closed spec fn view(&self) -> Map<u64, Member<L, K, B>> {
        map_of(self.members@)
    }

    /// The position of each member equals its rank in id order.
    pub proof fn lemma_entries_view(&self)
        requires
            self.wf(),
        ensures
            forall|i: int|
                0 <= i < self.entries().len() ==> #[trigger] self@.contains_key(
                    self.entries()[i].0.0,
                ) && self@[self.entries()[i].0.0] == self.entries()[i].1,
            forall|k: u64|
                #[trigger] self@.contains_key(k) <==> exists|i: int|
                    0 <= i < self.entries().len() && self.entries()[i].0.0 == k,
            self@.dom().finite(),
            self@.dom().len() == self.entries().len(),
    {
        let s = self.members@;
        let ids = ids_of(s);
        assert forall|i: int| 0 <= i < s.len() implies #[trigger] self@.contains_key(s[i].0.0)
            && self@[s[i].0.0] == s[i].1 by {
            assert(ids[i] == s[i].0.0);
            let j = ids.index_of(s[i].0.0);
            assert(ids[j] == s[i].0.0);
            if j != i {
                if j < i {
                    assert(s[j].0.0 < s[i].0.0);
                } else {
                    assert(s[i].0.0 < s[j].0.0);
                }
            }
        }
        assert forall|k: u64| #[trigger] self@.contains_key(k) <==> exists|i: int|
            0 <= i < self.entries().len() && self.entries()[i].0.0 == k by {
            if self@.contains_key(k) {
                assert(ids.contains(k));
                let j = ids.index_of(k);
                assert(ids[j] == k);
                assert(s[j].0.0 == k);
                assert(self.entries()[j].0.0 == k);
            }
            if exists|i: int| 0 <= i < self.entries().len() && self.entries()[i].0.0 == k {
                let i = choose|i: int| 0 <= i < self.entries().len() && self.entries()[i].0.0 == k;
                assert(ids[i] == k);
                assert(ids.contains(k));
            }
        }
        assert(ids.no_duplicates()) by {
            assert forall|i: int, j: int| 0 <= i < ids.len() && 0 <= j < ids.len() && i != j implies ids[i]
                != ids[j] by {
                if i < j {
                    assert(s[i].0.0 < s[j].0.0);
                } else {
                    assert(s[j].0.0 < s[i].0.0);
                }
            }
        }
        assert(self@.dom() =~= ids.to_set());
        ids.unique_seq_to_set();
        vstd::seq_lib::seq_to_set_is_finite(ids);
    }

    /// Create an empty model.
    pub fn new() -> (m: Self)
        ensures
            m.wf(),
            m@ == Map::<u64, Member<L, K, B>>::empty(),
    {
        let m = Model { members: Vec::new() };
        assert(m@ =~= Map::<u64, Member<L, K, B>>::empty());
        m
    }

    /// The position of `id` in the member list, or where it would be inserted.
    fn find(&self, id: StableId) -> (r: Result<usize, usize>)
        requires
            self.wf(),
        ensures
            match r {
                Ok(i) => i < self.members.len() && self.members@[i as int].0.0 == id.0,
                Err(i) => i <= self.members.len() && (forall|j: int|
                    0 <= j < i ==> self.members@[j].0.0 < id.0) && (forall|j: int|
                    i <= j < self.members.len() ==> self.members@[j].0.0 > id.0),
            },
    {
        let mut i: usize = 0;
        while i < self.members.len()
            invariant
                self.wf(),
                i <= self.members.len(),
                forall|j: int| 0 <= j < i ==> self.members@[j].0.0 < id.0,
            decreases self.members.len() - i,
        {
            if self.members[i].0.0 == id.0 {
                return Ok(i);
            }
            if self.members[i].0.0 > id.0 {
                return Err(i);
            }
            i = i + 1;
        }
        Err(i)
    }

    /// Insert a member under a caller-assigned id.
    ///
    /// Fails with [`ModelError::DuplicateId`] if a member with `id` is already
    /// present, leaving the model unchanged.
    pub fn insert(&mut self, id: StableId, member: Member<L, K, B>) -> (r: Result<(), ModelError>)
        requires
            old(self).wf(),
        ensures
            final(self).wf(),
            if old(self)@.contains_key(id.0) {
                r == Err::<(), ModelError>(ModelError::DuplicateId(id)) && final(self)@ == old(
                    self,
                )@
            } else {
                r is Ok && final(self)@ == old(self)@.insert(id.0, member)
            },
    {
        proof {
            self.lemma_entries_view();
        }
        match self.find(id) {
            Ok(_) => Err(ModelError::DuplicateId(id)),
            Err(pos) => {
                let ghost before = *self;
                let ghost m = member;
                self.members.insert(pos, (id, member));
                proof {
                    assert(self.members@ == before.members@.insert(pos as int, (id, m)));
                    assert forall|i: int, j: int| 0 <= i < j < self.members@.len() implies self.members@[i].0.0
                        < self.members@[j].0.0 by {
                        if j < pos {
                        } else if j == pos {
                        } else if i < pos {
                        } else if i == pos {
                            assert(self.members@[j] == before.members@[j - 1]);
                        } else {
                            assert(self.members@[j] == before.members@[j - 1]);
                            assert(self.members@[i] == before.members@[i - 1]);
                        }
                    }
                    self.lemma_entries_view();
                    before.lemma_entries_view();
                    assert forall|k: u64| #[trigger] self@.contains_key(k) <==> before@.insert(
                        id.0,
                        m,
                    ).contains_key(k) by {
                        if before@.contains_key(k) {
                            let i = choose|i: int|
                                0 <= i < before.entries().len() && before.entries()[i].0.0 == k;
                            if i < pos {
                                assert(self.entries()[i] == before.entries()[i]);
                            } else {
                                assert(self.entries()[i + 1] == before.entries()[i]);
                            }
                        }
                        if k == id.0 {
                            assert(self.entries()[pos as int].0.0 == k);
                        }
                        if self@.contains_key(k) {
                            let i = choose|i: int|
                                0 <= i < self.entries().len() && self.entries()[i].0.0 == k;
                            if i < pos {
                                assert(before.entries()[i].0.0 == k);
                            } else if i > pos {
                                assert(before.entries()[i - 1].0.0 == k);
                            }
                        }
                    }
                    assert forall|k: u64| #[trigger] self@.contains_key(k) implies self@[k]
                        == before@.insert(id.0, m)[k] by {
                        let i = choose|i: int|
                            0 <= i < self.entries().len() && self.entries()[i].0.0 == k;
                        assert(self@[self.entries()[i].0.0] == self.entries()[i].1);
                        if i < pos {
                            assert(before@[before.entries()[i].0.0] == before.entries()[i].1);
                        } else if i > pos {
                            assert(before@[before.entries()[i - 1].0.0] == before.entries()[i
                                - 1].1);
                        }
                    }
                    assert(self@ =~= before@.insert(id.0, m));
                }
                Ok(())
            },
        }
    }

    /// Remove a member by id, returning it.
    ///
    /// Fails with [`ModelError::UnknownId`] if no member with `id` is present,
    /// leaving the model unchanged.
    pub fn remove(&mut self, id: StableId) -> (r: Result<Member<L, K, B>, ModelError>)
        requires
            old(self).wf(),
        ensures
            final(self).wf(),
            if old(self)@.contains_key(id.0) {
                r matches Ok(m) && m == old(self)@[id.0] && final(self)@ == old(self)@.remove(id.0)
            } else {
                r == Err::<Member<L, K, B>, ModelError>(ModelError::UnknownId(id)) && final(self)@ == old(
                    self,
                )@
            },
    {
        proof {
            self.lemma_entries_view();
        }
        match self.find(id) {
            Err(_) => Err(ModelError::UnknownId(id)),
            Ok(pos) => {
                let ghost before = *self;
                let (_, member) = self.members.remove(pos);
                proof {
                    assert(self.members@ == before.members@.remove(pos as int));
                    assert forall|i: int, j: int| 0 <= i < j < self.members@.len() implies self.members@[i].0.0
                        < self.members@[j].0.0 by {
                        if j < pos {
                        } else if i < pos {
                            assert(self.members@[j] == before.members@[j + 1]);
                        } else {
                            assert(self.members@[j] == before.members@[j + 1]);
                            assert(self.members@[i] == before.members@[i + 1]);
                        }
                    }
                    self.lemma_entries_view();
                    before.lemma_entries_view();
                    assert forall|k: u64| #[trigger] self@.contains_key(k) <==> before@.remove(
                        id.0,
                    ).contains_key(k) by {
                        if before@.contains_key(k) && k != id.0 {
                            let i = choose|i: int|
                                0 <= i < before.entries().len() && before.entries()[i].0.0 == k;
                            if i < pos {
                                assert(self.entries()[i] == before.entries()[i]);
                            } else {
                                assert(i != pos);
                                assert(self.entries()[i - 1] == before.entries()[i]);
                            }
                        }
                        if self@.contains_key(k) {
                            let i = choose|i: int|
                                0 <= i < self.entries().len() && self.entries()[i].0.0 == k;
                            if i < pos {
                                assert(before.entries()[i].0.0 == k);
                                assert(before.entries()[i].0.0 < id.0);
                            } else {
                                assert(before.entries()[i + 1].0.0 == k);
                                assert(before.entries()[i + 1].0.0 > id.0);
                            }
                        }
                    }
                    assert forall|k: u64| #[trigger] self@.contains_key(k) implies self@[k]
                        == before@.remove(id.0)[k] by {
                        let i = choose|i: int|
                            0 <= i < self.entries().len() && self.entries()[i].0.0 == k;
                        assert(self@[self.entries()[i].0.0] == self.entries()[i].1);
                        if i < pos {
                            assert(before@[before.entries()[i].0.0] == before.entries()[i].1);
                        } else {
                            assert(before@[before.entries()[i + 1].0.0] == before.entries()[i
                                + 1].1);
                        }
                    }
                    assert(self@ =~= before@.remove(id.0));
                    assert(before@[id.0] == before.entries()[pos as int].1);
                }
                Ok(member)
            },
        }
    }

    /// Borrow a member by id.
    pub fn get(&self, id: StableId) -> (r: Option<&Member<L, K, B>>)
        requires
            self.wf(),
        ensures
            if self@.contains_key(id.0) {
                r matches Some(m) && *m == self@[id.0]
            } else {
                r is None
            },
    {
        proof {
            self.lemma_entries_view();
        }
        match self.find(id) {
            Ok(i) => Some(&self.members[i].1),
            Err(_) => None,
        }
    }

    /// Mutably borrow a member by id.
    ///
    /// Changing the member's tree through the borrow marks that member stale
    /// but does not propagate to its dependents; call
    /// [`mark_dirty`](Self::mark_dirty) for that.
    pub fn get_mut(&mut self, id: StableId) -> (r: Option<&mut Member<L, K, B>>)
        requires
            old(self).wf(),
        ensures
            if old(self)@.contains_key(id.0) {
                r matches Some(m) && *m == old(self)@[id.0] && final(self).wf() && final(self)@
                    == old(self)@.insert(id.0, *final(m))
            } else {
                r is None && final(self)@ == old(self)@ && final(self).wf()
            },
    {
        proof {
            self.lemma_entries_view();
        }
        match self.find(id) {
            Ok(i) => {
                proof {
                    lemma_replace_member(self.members@, i as int);
                }
                let r = &mut self.members[i].1;
                Some(r)
            },
            Err(_) => None,
        }
    }

    /// Mark the member at position `i` stale, leaving every id, every tree and
    /// every other member's flag as it was.
    fn mark_stale_at(&mut self, i: usize)
        requires
            old(self).wf(),
            i < old(self).entries().len(),
        ensures
            final(self).wf(),
            final(self).entries().len() == old(self).entries().len(),
            forall|a: int|
                #![trigger final(self).entries()[a]]
                0 <= a < old(self).entries().len() ==> final(self).entries()[a].0 == old(
                    self,
                ).entries()[a].0 && final(self).entries()[a].1.tree() == old(self).entries()[a].1.tree()
                    && final(self).entries()[a].1.stale() == (old(self).entries()[a].1.stale() || a
                    == i),
        forall|a: int|
            #![trigger final(self).entries()[a]]
            0 <= a < old(self).entries().len() ==> final(self).entries()[a].1.same_cache(old(self).entries()[a].1),
    {
        proof {
            lemma_replace_member(self.members@, i as int);
        }
        let m = &mut self.members[i].1;
        m.mark_dirty();
    }

    /// The number of members in the model.
    pub fn len(&self) -> (n: usize)
        requires
            self.wf(),
        ensures
            n == self@.dom().len(),
    {
        proof {
            self.lemma_entries_view();
        }
        self.members.len()
    }

    /// `true` if the model has no members.
    pub fn is_empty(&self) -> (r: bool)
        requires
            self.wf(),
        ensures
            r == (self@.dom().len() == 0),
    {
        proof {
            self.lemma_entries_view();
        }
        self.members.len() == 0
    }

    /// The ids of the members, in ascending order.
    pub fn ids(&self) -> (v: Vec<StableId>)
        requires
            self.wf(),
        ensures
            v@.len() == self.entries().len(),
            forall|i: int| 0 <= i < v.len() ==> #[trigger] v@[i] == self.entries()[i].0,
            forall|i: int, j: int| 0 <= i < j < v.len() ==> v@[i].0 < v@[j].0,
            forall|k: u64| self@.contains_key(k) <==> exists|i: int| 0 <= i < v.len() && #[trigger] v@[i].0 == k,
    {
        proof {
            self.lemma_entries_view();
        }
        let mut v: Vec<StableId> = Vec::new();
        let mut i: usize = 0;
        while i < self.members.len()
            invariant
                i <= self.members.len(),
                v.len() == i,
                forall|j: int| 0 <= j < i ==> #[trigger] v@[j] == self.members@[j].0,
            decreases self.members.len() - i,
        {
            v.push(self.members[i].0);
            i = i + 1;
        }
        proof {
            assert forall|k: u64| self@.contains_key(k) <==> exists|i: int| 0 <= i < v.len() && #[trigger] v@[i].0 == k by {
                if self@.contains_key(k) {
                    let i = choose|i: int| 0 <= i < self.entries().len() && self.entries()[i].0.0 == k;
                    assert(v@[i].0 == k);
                }
            }
        }
        v
    }
}

} // verus!
