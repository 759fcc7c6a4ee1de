use archi_kernel::boolean::prismatic::detect::relabel;
use archi_kernel::boolean::prismatic::{
    opening_residency, opening_subtraction_plan, union_plan, OpeningPlan, Operand, PrismError,
    UnionPlan, DEFAULT_BUDGET,
};
use archi_kernel::csg::member::{EvalError, UnsupportedReason};

#[test]
fn union_dispatch_by_count() {
    assert_eq!(union_plan::<u8>(&vec![]), Ok(UnionPlan::Empty));
    assert_eq!(union_plan(&vec![4u8]), Ok(UnionPlan::Single(4)));
    assert_eq!(union_plan(&vec![4u8, 5]), Ok(UnionPlan::Pair(4, 5)));
    assert_eq!(union_plan(&vec![4u8, 5, 6]), Err(PrismError::NoCommonDirection));
}

#[test]
fn opening_dispatch_by_count() {
    assert_eq!(opening_subtraction_plan(1u8, &vec![]), OpeningPlan::Single(1));
    assert_eq!(opening_subtraction_plan(1u8, &vec![2]), OpeningPlan::Difference(1, 2));
    assert_eq!(opening_subtraction_plan(1u8, &vec![2, 3]), OpeningPlan::MultiBand);
}

#[test]
fn residency_keeps_base_outside_every_opening() {
    assert!(opening_residency(&[true]));
    assert!(opening_residency(&[true, false, false]));
    assert!(!opening_residency(&[true, false, true]));
    assert!(!opening_residency(&[false, false]));
}

#[test]
fn budget_default() {
    assert_eq!(DEFAULT_BUDGET, 100_000);
}

#[test]
fn relabel_retags_only_circular_failures() {
    assert_eq!(
        relabel(PrismError::CircularInvolved { operand: Operand::A }, Operand::B),
        PrismError::CircularInvolved { operand: Operand::B }
    );
    assert_eq!(relabel(PrismError::NoCommonDirection, Operand::B), PrismError::NoCommonDirection);
}

#[test]
fn prism_errors_surface_as_eval_errors() {
    assert_eq!(
        EvalError::from_prism(PrismError::NoCommonDirection),
        EvalError::Unsupported3dBoolean { reason: UnsupportedReason::NoCommonDirection }
    );
    assert_eq!(
        EvalError::from_prism(PrismError::CircularInvolved { operand: Operand::B }),
        EvalError::Unsupported3dBoolean { reason: UnsupportedReason::CircularOperand { operand: Operand::B } }
    );
    assert_eq!(
        EvalError::from_prism(PrismError::DegenerateAxis),
        EvalError::Construction("extrusion axis is degenerate (zero direction)".to_string())
    );
    assert_eq!(
        EvalError::from_prism(PrismError::ComplexityLimit { measure: 7, budget: 3 }),
        EvalError::ComplexityLimit { measure: 7, budget: 3 }
    );
    assert_eq!(
        EvalError::from_prism(PrismError::Poly2("bad".to_string())),
        EvalError::Construction("bad".to_string())
    );
}
