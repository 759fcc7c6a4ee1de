use archi_kernel::boolean::poly2d::classify::{inside, Op};

#[test]
fn difference_table() {
    assert!(Op::Difference.keep(true, false));
    assert!(!Op::Difference.keep(true, true));
    assert!(!Op::Difference.keep(false, true));
    assert!(!Op::Difference.keep(false, false));
}

#[test]
fn union_table() {
    assert!(Op::Union.keep(true, false));
    assert!(Op::Union.keep(false, true));
    assert!(Op::Union.keep(true, true));
    assert!(!Op::Union.keep(false, false));
}

#[test]
fn intersection_table() {
    assert!(Op::Intersection.keep(true, true));
    assert!(!Op::Intersection.keep(true, false));
    assert!(!Op::Intersection.keep(false, true));
    assert!(!Op::Intersection.keep(false, false));
}

#[test]
fn inside_rule() {
    assert!(!inside(0));
    assert!(inside(1));
    assert!(inside(-1));
    assert!(inside(2));
}

#[test]
fn inside_extreme_windings() {
    assert!(inside(i32::MIN));
    assert!(inside(i32::MAX));
    assert!(inside(-2));
}

#[test]
fn union_and_intersection_commute() {
    for a in [false, true] {
        for b in [false, true] {
            assert_eq!(Op::Union.keep(a, b), Op::Union.keep(b, a));
            assert_eq!(Op::Intersection.keep(a, b), Op::Intersection.keep(b, a));
            assert_eq!(Op::Difference.keep(a, b), Op::Intersection.keep(a, !b));
        }
    }
}
