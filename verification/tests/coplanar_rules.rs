use archi_kernel::boolean::coplanar_rules::{layers_self, Layers};
use archi_kernel::boolean::poly2d::classify::Op;

#[test]
fn difference_self_agree_drops_oppose_keeps() {
    assert!(
        !layers_self(Op::Difference, true).face_survives(),
        "A−B self/agree must DROP (reference 1)"
    );
    assert!(
        layers_self(Op::Difference, false).face_survives(),
        "A−B self/oppose must KEEP (reference 2)"
    );
}

#[test]
fn union_self_oppose_drops_agree_keeps() {
    assert!(
        !layers_self(Op::Union, false).face_survives(),
        "A∪B self/oppose must DROP (shared stacked face is interior)"
    );
    assert!(
        layers_self(Op::Union, true).face_survives(),
        "A∪B self/agree must KEEP (A's lid bounds the union)"
    );
}

#[test]
fn intersection_self_agree_keeps_oppose_drops() {
    assert!(
        layers_self(Op::Intersection, true).face_survives(),
        "A∩B self/agree must KEEP (overlap shares the cut face)"
    );
    assert!(
        !layers_self(Op::Intersection, false).face_survives(),
        "A∩B self/oppose must DROP (contact-only ∩ is empty)"
    );
}

#[test]
fn cut_specialises_intersection_agree_keep() {
    assert!(
        layers_self(Op::Intersection, true).face_survives(),
        "cut lid (∩ with solid & half-space on the same side) must survive"
    );
}

#[test]
fn layers_survive_iff_they_differ() {
    assert!(Layers { minus: true, plus: false }.face_survives());
    assert!(Layers { minus: false, plus: true }.face_survives());
    assert!(!Layers { minus: true, plus: true }.face_survives());
    assert!(!Layers { minus: false, plus: false }.face_survives());
}

#[test]
fn layers_self_exact_values() {
    let l = layers_self(Op::Difference, true);
    assert_eq!(l, Layers { minus: false, plus: false });
    let l = layers_self(Op::Difference, false);
    assert_eq!(l, Layers { minus: true, plus: false });
    let l = layers_self(Op::Union, false);
    assert_eq!(l, Layers { minus: true, plus: true });
}
