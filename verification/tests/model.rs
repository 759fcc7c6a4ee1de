use archi_kernel::csg::ids::StableId;
use archi_kernel::csg::member::{BrepAction, EvalError, Member};
use archi_kernel::csg::node::{ClipRule, CsgNode};
use archi_kernel::model::eval::cycle_error;
use archi_kernel::model::{Model, ModelError};

fn leaf(x: u32) -> CsgNode<u32> {
    CsgNode::Extrude(x)
}

fn clip(base: u32, clippers: &[u64]) -> CsgNode<u32> {
    CsgNode::Clip {
        base: Box::new(leaf(base)),
        clippers: clippers.iter().map(|&c| StableId(c)).collect(),
        rule: ClipRule::Priority,
    }
}

fn model_of(members: Vec<(u64, CsgNode<u32>)>) -> Model<u32, u64, u64> {
    let mut m = Model::new();
    for (id, node) in members {
        m.insert(StableId(id), Member::new(node)).unwrap();
    }
    m
}

#[test]
fn insert_duplicate_is_refused() {
    let mut m: Model<u32, u64, u64> = Model::new();
    assert!(m.is_empty());
    assert_eq!(m.insert(StableId(7), Member::new(leaf(1))), Ok(()));
    assert_eq!(
        m.insert(StableId(7), Member::new(leaf(2))),
        Err(ModelError::DuplicateId(StableId(7)))
    );
    assert_eq!(m.len(), 1);
    assert_eq!(m.get(StableId(7)).map(|mm| matches!(mm.csg(), CsgNode::Extrude(1))), Some(true));
}

#[test]
fn remove_unknown_is_refused() {
    let mut m = model_of(vec![(1, leaf(1))]);
    assert_eq!(m.remove(StableId(2)).err(), Some(ModelError::UnknownId(StableId(2))));
    assert!(m.remove(StableId(1)).is_ok());
    assert!(m.is_empty());
    assert!(m.get(StableId(1)).is_none());
}

#[test]
fn ids_are_ascending() {
    let m = model_of(vec![(30, leaf(1)), (10, leaf(2)), (20, leaf(3))]);
    assert_eq!(m.ids(), vec![StableId(10), StableId(20), StableId(30)]);
}

#[test]
fn get_mut_marks_nothing_until_changed() {
    let mut m = model_of(vec![(1, leaf(1))]);
    m.get_mut(StableId(1)).unwrap().record(0, Ok(0));
    assert!(!m.get(StableId(1)).unwrap().is_dirty(&0));
    *m.get_mut(StableId(1)).unwrap().csg_mut() = leaf(9);
    assert!(m.get(StableId(1)).unwrap().is_dirty(&0));
    assert!(m.get_mut(StableId(5)).is_none());
}

#[test]
fn mark_dirty_propagates_to_dependents_only() {
    // 1: column; 2: girder clipped by 1; 3: beam clipped by 2; 4: unrelated.
    let mut m = model_of(vec![(1, leaf(1)), (2, clip(2, &[1])), (3, clip(3, &[2])), (4, leaf(4))]);
    for id in [1, 2, 3, 4] {
        m.get_mut(StableId(id)).unwrap().record(0, Ok(0));
    }
    m.mark_dirty(StableId(1));
    assert!(m.get(StableId(1)).unwrap().is_dirty(&0));
    assert!(m.get(StableId(2)).unwrap().is_dirty(&0));
    assert!(m.get(StableId(3)).unwrap().is_dirty(&0));
    assert!(!m.get(StableId(4)).unwrap().is_dirty(&0));
}

#[test]
fn mark_dirty_of_missing_id_changes_nothing() {
    let mut m = model_of(vec![(1, leaf(1)), (2, clip(2, &[1]))]);
    m.get_mut(StableId(1)).unwrap().record(0, Ok(0));
    m.get_mut(StableId(2)).unwrap().record(0, Ok(0));
    m.mark_dirty(StableId(99));
    assert!(!m.get(StableId(1)).unwrap().is_dirty(&0));
    assert!(!m.get(StableId(2)).unwrap().is_dirty(&0));
}

#[test]
fn dependents_closure_is_transitive_and_excludes_self() {
    let m = model_of(vec![(1, leaf(1)), (2, clip(2, &[1])), (3, clip(3, &[2])), (4, clip(4, &[3, 9]))]);
    assert_eq!(
        m.dependents_closure(StableId(1)),
        vec![StableId(2), StableId(3), StableId(4)]
    );
    assert_eq!(m.dependents_closure(StableId(3)), vec![StableId(4)]);
    assert_eq!(m.dependents_closure(StableId(4)), Vec::<StableId>::new());
    assert_eq!(m.dependents_closure(StableId(9)), Vec::<StableId>::new());
}

#[test]
fn topological_order_puts_clippers_first() {
    let m = model_of(vec![(1, clip(1, &[3])), (2, clip(2, &[3, 1])), (3, leaf(3))]);
    let order = m.topological_order();
    assert_eq!(order.acyclic, vec![StableId(3), StableId(1), StableId(2)]);
    assert!(order.cycles.is_empty());
}

#[test]
fn topological_order_picks_smallest_ready_first() {
    let m = model_of(vec![(5, leaf(5)), (2, leaf(2)), (9, clip(9, &[2])), (1, clip(1, &[5]))]);
    let order = m.topological_order();
    assert_eq!(order.acyclic, vec![StableId(2), StableId(5), StableId(1), StableId(9)]);
}

#[test]
fn cycles_are_isolated() {
    // 1 <-> 2 form a cycle; 3 clips itself; 4 depends on the cycle; 5 is free.
    let m = model_of(vec![
        (1, clip(1, &[2])),
        (2, clip(2, &[1])),
        (3, clip(3, &[3])),
        (4, clip(4, &[1])),
        (5, leaf(5)),
    ]);
    let order = m.topological_order();
    assert_eq!(order.acyclic, vec![StableId(5)]);
    assert_eq!(
        order.cycles,
        vec![vec![StableId(1), StableId(2)], vec![StableId(3)]]
    );
}

#[test]
fn cycle_error_carries_member_ids() {
    let e = cycle_error(&vec![StableId(4), StableId(8)]);
    assert_eq!(e, EvalError::CyclicDependency { members: vec![4, 8] });
}

#[test]
fn clean_cache_for_the_same_tolerance_is_returned() {
    let mut mem: Member<u32, u64, u64> = Member::new(leaf(1));
    assert!(mem.is_dirty(&5));
    assert_eq!(mem.cached(&5), None);
    assert_eq!(mem.last_valid(), None);
    mem.record(5, Ok(100));
    assert!(!mem.is_dirty(&5));
    assert_eq!(mem.cached(&5), Some(&Ok(100)));
    // Another tolerance misses the cache.
    assert!(mem.is_dirty(&6));
    assert_eq!(mem.cached(&6), None);
    assert_eq!(mem.last_valid(), Some(&100));
}

#[test]
fn failure_keeps_the_last_valid_brep() {
    let mut mem: Member<u32, u64, u64> = Member::new(leaf(1));
    mem.record(5, Ok(100));
    mem.mark_dirty();
    assert_eq!(mem.cached(&5), None);
    mem.record(5, Err(EvalError::NotYetImplemented));
    assert_eq!(mem.cached(&5), Some(&Err(EvalError::NotYetImplemented)));
    assert_eq!(mem.last_valid(), Some(&100));
    *mem.csg_mut() = leaf(2);
    assert!(mem.is_dirty(&5));
    assert!(matches!(mem.csg(), CsgNode::Extrude(2)));
}

#[test]
fn mark_dirty_keeps_every_cache() {
    let mut m = model_of(vec![(1, leaf(1)), (2, clip(2, &[1])), (3, leaf(3))]);
    m.get_mut(StableId(1)).unwrap().record(4, Ok(10));
    m.get_mut(StableId(2)).unwrap().record(4, Ok(20));
    m.get_mut(StableId(3)).unwrap().record(4, Ok(30));
    m.mark_dirty(StableId(1));
    // The invalidated members keep their last valid B-rep for display.
    assert_eq!(m.get(StableId(1)).unwrap().last_valid(), Some(&10));
    assert_eq!(m.get(StableId(2)).unwrap().last_valid(), Some(&20));
    assert!(m.get(StableId(1)).unwrap().is_dirty(&4));
    assert!(m.get(StableId(2)).unwrap().is_dirty(&4));
    // The member outside the closure keeps its clean cache.
    assert!(!m.get(StableId(3)).unwrap().is_dirty(&4));
    assert_eq!(m.get(StableId(3)).unwrap().cached(&4), Some(&Ok(30)));
}

#[test]
fn brep_request_reuses_only_a_clean_cache_of_the_same_tolerance() {
    let mut mem: Member<u32, u64, u64> = Member::new(leaf(1));
    assert_eq!(mem.brep_action(&5), BrepAction::Evaluate);
    mem.record(5, Err(EvalError::NotYetImplemented));
    // A cached failure is returned as it is.
    assert_eq!(mem.brep_action(&5), BrepAction::ReturnCached);
    assert_eq!(mem.brep_action(&6), BrepAction::Evaluate);
    mem.mark_dirty();
    assert_eq!(mem.brep_action(&5), BrepAction::Evaluate);
    mem.record(5, Ok(7));
    assert_eq!(mem.brep_action(&5), BrepAction::ReturnCached);
}
