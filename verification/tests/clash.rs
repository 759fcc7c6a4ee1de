use archi_kernel::clash::{
    clash_pair_step, clash_pairs, clash_plan, clips_against, pair_leaves, is_clip_pair, AxisMemberError, ClashError, PairStep,
    SleeveError, SleeveViolationKind,
};
use archi_kernel::csg::ids::StableId;
use archi_kernel::csg::member::{EvalError, Member};
use archi_kernel::csg::node::{ClipRule, CsgNode};
use archi_kernel::model::Model;

fn model() -> Model<u32, u64, u64> {
    let mut m = Model::new();
    m.insert(StableId(1), Member::new(CsgNode::Extrude(1))).unwrap();
    let girder = CsgNode::Union(vec![CsgNode::Clip {
        base: Box::new(CsgNode::Extrude(2)),
        clippers: vec![StableId(1)],
        rule: ClipRule::Priority,
    }]);
    m.insert(StableId(2), Member::new(girder)).unwrap();
    m.insert(StableId(3), Member::new(CsgNode::Extrude(3))).unwrap();
    m
}

#[test]
fn clip_relation_is_found_at_any_depth() {
    let m = model();
    assert!(clips_against(&m, StableId(2), StableId(1)));
    assert!(!clips_against(&m, StableId(1), StableId(2)));
    assert!(!clips_against(&m, StableId(9), StableId(1)));
    assert!(is_clip_pair(&m, StableId(1), StableId(2)));
    assert!(is_clip_pair(&m, StableId(2), StableId(1)));
    assert!(!is_clip_pair(&m, StableId(1), StableId(3)));
}

#[test]
fn pair_steps() {
    let ok = Ok(true);
    let empty = Ok(false);
    let bad: Result<bool, EvalError> = Err(EvalError::NotYetImplemented);
    assert_eq!(clash_pair_step(&ok, &ok, true, false), PairStep::Skip);
    assert_eq!(clash_pair_step(&ok, &ok, true, true), PairStep::Compare);
    assert_eq!(clash_pair_step(&bad, &bad, false, false), PairStep::FailedA);
    assert_eq!(clash_pair_step(&ok, &bad, false, false), PairStep::FailedB);
    assert_eq!(clash_pair_step(&empty, &ok, false, false), PairStep::Skip);
    assert_eq!(clash_pair_step(&bad, &ok, true, false), PairStep::Skip);
}

#[test]
fn error_vocabulary() {
    let e = ClashError { a: StableId(1), b: StableId(2), error: EvalError::NotYetImplemented };
    assert_eq!(e.clone(), e);
    assert_eq!(AxisMemberError::ZeroLength, AxisMemberError::ZeroLength);
    assert_ne!(SleeveViolationKind::DiameterTooLarge, SleeveViolationKind::EndDistanceTooSmall);
    assert_ne!(SleeveViolationKind::EndDistanceTooSmall, SleeveViolationKind::EdgeDistanceTooSmall);
    assert_eq!(SleeveError::NotARectangularBeam, SleeveError::NotARectangularBeam);
}

#[test]
fn clash_plan_walks_pairs_in_order_and_skips_clip_pairs() {
    let m = model();
    let ids = m.ids();
    let res: Vec<Result<bool, EvalError>> = vec![Ok(true), Ok(true), Ok(true)];
    assert_eq!(
        clash_plan(&m, &ids, &res, false),
        vec![(StableId(1), StableId(3), PairStep::Compare), (StableId(2), StableId(3), PairStep::Compare)]
    );
    assert_eq!(
        clash_plan(&m, &ids, &res, true),
        vec![
            (StableId(1), StableId(2), PairStep::Compare),
            (StableId(1), StableId(3), PairStep::Compare),
            (StableId(2), StableId(3), PairStep::Compare),
        ]
    );
}

#[test]
fn clash_plan_isolates_failures_and_empty_members() {
    let m = model();
    let ids = m.ids();
    let res: Vec<Result<bool, EvalError>> = vec![Ok(false), Ok(true), Err(EvalError::NotYetImplemented)];
    assert_eq!(
        clash_plan(&m, &ids, &res, false),
        vec![(StableId(1), StableId(3), PairStep::FailedB), (StableId(2), StableId(3), PairStep::FailedB)]
    );
}

#[test]
fn pair_leaves_read_each_occupancy() {
    let mut m = model();
    assert_eq!(pair_leaves(&m, StableId(1), StableId(3)), Some((1, 3)));
    // A union occupies no single prism.
    assert_eq!(pair_leaves(&m, StableId(3), StableId(2)), None);
    // A clipped member occupies its base prism.
    m.insert(StableId(4), Member::new(CsgNode::Clip {
        base: Box::new(CsgNode::Extrude(4)),
        clippers: vec![StableId(1)],
        rule: ClipRule::Priority,
    }))
    .unwrap();
    assert_eq!(pair_leaves(&m, StableId(4), StableId(1)), Some((4, 1)));
    assert_eq!(pair_leaves(&m, StableId(1), StableId(9)), None);
}

#[test]
fn clash_pairs_split_compares_and_errors() {
    let m = model();
    let ids = m.ids();
    let bad = EvalError::NotYetImplemented;
    let res: Vec<Result<bool, EvalError>> = vec![Ok(true), Ok(true), Err(bad.clone())];
    let (compare, errors) = clash_pairs(&m, &ids, &res, true);
    assert_eq!(compare, vec![(StableId(1), StableId(2))]);
    assert_eq!(
        errors,
        vec![
            ClashError { a: StableId(1), b: StableId(3), error: bad.clone() },
            ClashError { a: StableId(2), b: StableId(3), error: bad },
        ]
    );
    let (compare, errors) = clash_pairs(&m, &ids, &vec![Ok(true), Ok(false), Ok(true)], false);
    assert_eq!(compare, vec![(StableId(1), StableId(3))]);
    assert!(errors.is_empty());
}
