use archi_kernel::csg::ids::{OpeningId, StableId};
use archi_kernel::csg::member::{EvalError, Member, MemberPlan, UnsupportedReason};
use archi_kernel::csg::node::{ClipRule, CsgNode, Opening};
use archi_kernel::model::eval::{base_opening_leaves, occupancy_leaf, ModelPlan};
use archi_kernel::model::Model;

fn non_leaf() -> EvalError {
    EvalError::Unsupported3dBoolean { reason: UnsupportedReason::NonLeafOperands }
}

fn walled(base: u32, openings: &[u32]) -> CsgNode<u32> {
    CsgNode::OpeningSubtraction {
        base: Box::new(CsgNode::Extrude(base)),
        openings: openings
            .iter()
            .enumerate()
            .map(|(i, &o)| (OpeningId(i as u64), Opening { shape: CsgNode::Extrude(o) }))
            .collect(),
    }
}

#[test]
fn occupancy_descends_through_openings_and_clips() {
    assert_eq!(occupancy_leaf(&CsgNode::Extrude(3u32)), Some(3));
    assert_eq!(occupancy_leaf(&walled(4, &[5])), Some(4));
    let clipped = CsgNode::Clip { base: Box::new(walled(6, &[])), clippers: vec![], rule: ClipRule::Priority };
    assert_eq!(occupancy_leaf(&clipped), Some(6));
    assert_eq!(occupancy_leaf(&CsgNode::Union(vec![CsgNode::Extrude(1u32)])), None);
}

#[test]
fn base_openings_are_listed_in_order() {
    assert_eq!(base_opening_leaves(&walled(1, &[7, 8])), Ok(vec![7, 8]));
    assert_eq!(base_opening_leaves(&CsgNode::Extrude(1u32)), Ok(vec![]));
    let bad = CsgNode::OpeningSubtraction {
        base: Box::new(CsgNode::Extrude(1u32)),
        openings: vec![(OpeningId(0), Opening { shape: CsgNode::Union(vec![]) })],
    };
    assert_eq!(base_opening_leaves(&bad), Err(non_leaf()));
}

fn model() -> Model<u32, u64, u64> {
    let mut m = Model::new();
    m.insert(StableId(1), Member::new(walled(10, &[11]))).unwrap();
    m.insert(StableId(2), Member::new(CsgNode::Clip {
        base: Box::new(walled(20, &[21, 22])),
        clippers: vec![StableId(1), StableId(3)],
        rule: ClipRule::Priority,
    })).unwrap();
    m.insert(StableId(3), Member::new(CsgNode::Extrude(30))).unwrap();
    m.insert(StableId(4), Member::new(CsgNode::Clip {
        base: Box::new(CsgNode::Extrude(40)),
        clippers: vec![StableId(9), StableId(5)],
        rule: ClipRule::Priority,
    })).unwrap();
    m.insert(StableId(5), Member::new(CsgNode::Union(vec![]))).unwrap();
    m.insert(StableId(6), Member::new(CsgNode::Clip {
        base: Box::new(CsgNode::Extrude(60)),
        clippers: vec![StableId(5), StableId(9)],
        rule: ClipRule::Priority,
    })).unwrap();
    m
}

#[test]
fn clip_plan_deducts_gross_clippers_and_base_openings() {
    let m = model();
    match m.evaluation_plan(StableId(2)) {
        Ok(ModelPlan::Clip { base, openings, clippers }) => {
            assert_eq!(base, 20);
            assert_eq!(openings, vec![21, 22]);
            assert_eq!(clippers, vec![10, 30]);
        }
        other => panic!("unexpected plan {other:?}"),
    }
}

#[test]
fn first_bad_clipper_fails_the_clip() {
    let m = model();
    assert_eq!(m.evaluation_plan(StableId(4)).err(), Some(EvalError::UnknownClipper { clipper: 9 }));
    assert_eq!(m.evaluation_plan(StableId(6)).err(), Some(non_leaf()));
}

#[test]
fn unknown_member_and_plain_members() {
    let m = model();
    assert_eq!(m.evaluation_plan(StableId(42)).err(), Some(EvalError::UnknownClipper { clipper: 42 }));
    match m.evaluation_plan(StableId(1)) {
        Ok(ModelPlan::Member(MemberPlan::OpeningSubtraction { base, openings })) => {
            assert_eq!(base, 10);
            assert_eq!(openings, vec![11]);
        }
        other => panic!("unexpected plan {other:?}"),
    }
    match m.evaluation_plan(StableId(3)) {
        Ok(ModelPlan::Member(MemberPlan::Extrude(l))) => assert_eq!(l, 30),
        other => panic!("unexpected plan {other:?}"),
    }
    match m.evaluation_plan(StableId(5)) {
        Ok(ModelPlan::Member(MemberPlan::Union(v))) => assert!(v.is_empty()),
        other => panic!("unexpected plan {other:?}"),
    }
}

#[test]
fn clipper_leaves_follow_the_clip_chain() {
    let mut m: Model<u32, u64, u64> = Model::new();
    m.insert(StableId(1), Member::new(walled(10, &[11]))).unwrap();
    m.insert(StableId(2), Member::new(CsgNode::Union(vec![]))).unwrap();
    m.insert(StableId(3), Member::new(CsgNode::Extrude(30))).unwrap();
    let inner = CsgNode::Clip { base: Box::new(CsgNode::Extrude(40)), clippers: vec![StableId(3)], rule: ClipRule::Priority };
    let outer = CsgNode::Clip {
        base: Box::new(inner),
        clippers: vec![StableId(1), StableId(2), StableId(9)],
        rule: ClipRule::Priority,
    };
    m.insert(StableId(4), Member::new(outer)).unwrap();
    // Clipper 2 occupies no single prism and 9 is not in the model.
    assert_eq!(m.clipper_leaves_of(StableId(4)), vec![10, 30]);
    assert_eq!(m.clipper_leaves_of(StableId(3)), Vec::<u32>::new());
    assert_eq!(m.clipper_leaves_of(StableId(7)), Vec::<u32>::new());
}

#[test]
fn schedule_gives_every_member_an_entry() {
    let mut m: Model<u32, u64, u64> = Model::new();
    let clip = |base: u32, by: u64| CsgNode::Clip {
        base: Box::new(CsgNode::Extrude(base)),
        clippers: vec![StableId(by)],
        rule: ClipRule::Priority,
    };
    m.insert(StableId(1), Member::new(clip(10, 2))).unwrap();
    m.insert(StableId(2), Member::new(clip(20, 1))).unwrap();
    m.insert(StableId(3), Member::new(clip(30, 1))).unwrap();
    m.insert(StableId(4), Member::new(CsgNode::Extrude(40))).unwrap();
    let sched = m.evaluation_schedule();
    let ids: Vec<StableId> = sched.iter().map(|(id, _)| *id).collect();
    assert_eq!(ids, vec![StableId(1), StableId(2), StableId(3), StableId(4)]);
    let cyclic = EvalError::CyclicDependency { members: vec![1, 2] };
    assert!(matches!(&sched[0].1, Err(e) if *e == cyclic));
    assert!(matches!(&sched[1].1, Err(e) if *e == cyclic));
    // Member 3 only depends on the cycle: it is planned against its clipper.
    match &sched[2].1 {
        Ok(ModelPlan::Clip { base, openings, clippers }) => {
            assert_eq!(*base, 30);
            assert!(openings.is_empty());
            assert_eq!(clippers, &vec![10]);
        }
        other => panic!("unexpected {:?}", other),
    }
    assert!(matches!(&sched[3].1, Ok(ModelPlan::Member(MemberPlan::Extrude(40)))));
}
