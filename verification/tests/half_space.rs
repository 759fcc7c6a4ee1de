use archi_kernel::boolean::cut_actions::{face_action, solid_path, FaceAction, SolidPath};
use archi_kernel::boolean::half_space::{
    edge_is_kept, extract_kept_fragments, fold_flip, fragment_portals, is_dropped, is_strictly_kept,
    ruling_segments, side_summary, straddles, KeepSide,
};
use archi_kernel::geom::SurfaceGeom;
use archi_kernel::tolerance::Sign3;
use archi_kernel::topo::Sense;

#[test]
fn strictly_kept_and_dropped_sides() {
    assert!(is_strictly_kept(Sign3::Below, KeepSide::Below));
    assert!(!is_strictly_kept(Sign3::On, KeepSide::Below));
    assert!(!is_strictly_kept(Sign3::Above, KeepSide::Below));
    assert!(is_strictly_kept(Sign3::Above, KeepSide::Above));
    assert!(is_dropped(Sign3::Above, KeepSide::Below));
    assert!(is_dropped(Sign3::Below, KeepSide::Above));
    assert!(!is_dropped(Sign3::On, KeepSide::Above));
}

#[test]
fn edge_kept_unless_an_end_is_dropped() {
    assert!(edge_is_kept(Sign3::On, Sign3::On, KeepSide::Below));
    assert!(edge_is_kept(Sign3::Below, Sign3::On, KeepSide::Below));
    assert!(!edge_is_kept(Sign3::Below, Sign3::Above, KeepSide::Below));
    assert!(!edge_is_kept(Sign3::Above, Sign3::On, KeepSide::Below));
    assert!(edge_is_kept(Sign3::Above, Sign3::On, KeepSide::Above));
}

#[test]
fn straddle_needs_strictly_opposite_sides() {
    assert!(straddles(Sign3::Below, Sign3::Above));
    assert!(straddles(Sign3::Above, Sign3::Below));
    assert!(!straddles(Sign3::On, Sign3::Above));
    assert!(!straddles(Sign3::Below, Sign3::Below));
}

#[test]
fn flip_reverses_sense() {
    assert_eq!(fold_flip(Sense::Same, false), Sense::Same);
    assert_eq!(fold_flip(Sense::Same, true), Sense::Reversed);
    assert_eq!(fold_flip(Sense::Reversed, false), Sense::Reversed);
    assert_eq!(fold_flip(Sense::Reversed, true), Sense::Same);
}

#[test]
fn summary_reports_each_side() {
    let signs = vec![Sign3::Below, Sign3::On, Sign3::On];
    assert_eq!(side_summary(&signs, KeepSide::Below), (true, false, true));
    assert_eq!(side_summary(&signs, KeepSide::Above), (false, true, true));
    assert_eq!(side_summary(&vec![], KeepSide::Above), (false, false, false));
}

#[test]
fn fragments_of_short_loop_are_empty() {
    assert!(extract_kept_fragments(&vec![None], &vec![Sign3::Below], KeepSide::Below).is_empty());
}

#[test]
fn wholly_kept_loop_is_one_closed_fragment() {
    let signs = vec![Sign3::Below, Sign3::On, Sign3::Below];
    let f = extract_kept_fragments(&vec![None, None, None], &signs, KeepSide::Below);
    assert_eq!(f, vec![vec![0, 1, 2, 0]]);
}

#[test]
fn wholly_dropped_loop_has_no_fragment() {
    let signs = vec![Sign3::Above, Sign3::Above, Sign3::Above];
    let f = extract_kept_fragments(&vec![None, None, None], &signs, KeepSide::Below);
    assert!(f.is_empty());
}

#[test]
fn square_cut_through_two_corners() {
    // 0 below, 1 on, 2 above, 3 on: the kept run is 3 -> 0 -> 1.
    let signs = vec![Sign3::Below, Sign3::On, Sign3::Above, Sign3::On];
    let f = extract_kept_fragments(&vec![None, None, None, None], &signs, KeepSide::Below);
    assert_eq!(f, vec![vec![3, 0, 1]]);
}

#[test]
fn midpoint_classification_overrides_signs() {
    // Both ends on the plane, but the recorded midpoint says edge 1 is dropped.
    let signs = vec![Sign3::On, Sign3::On, Sign3::On, Sign3::On];
    let kept = vec![None, Some(false), None, Some(false)];
    let f = extract_kept_fragments(&kept, &signs, KeepSide::Below);
    assert_eq!(f, vec![vec![0, 1], vec![2, 3]]);
}

#[test]
fn several_runs_follow_the_loop_from_the_first_start() {
    let kept = vec![Some(true), Some(false), Some(true), Some(true), Some(false), Some(true)];
    let signs = vec![Sign3::On; 6];
    let f = extract_kept_fragments(&kept, &signs, KeepSide::Above);
    assert_eq!(f, vec![vec![2, 3, 4], vec![5, 0, 1]]);
}

#[test]
fn face_actions_follow_the_side_summary() {
    let plane: SurfaceGeom<(), ()> = SurfaceGeom::Plane(());
    let cyl: SurfaceGeom<(), ()> = SurfaceGeom::Cylinder(());
    // A cylinder crossed between its vertices is split on the cylinder walk.
    assert_eq!(face_action(&cyl, true, false, false, false, true, false), FaceAction::SplitCylinder);
    // All-on faces.
    assert_eq!(face_action(&plane, false, false, true, false, false, true), FaceAction::Coplanar);
    assert_eq!(face_action(&plane, false, false, true, false, false, false), FaceAction::SplitPlanar);
    assert_eq!(face_action(&cyl, false, false, true, false, false, false), FaceAction::OnCylinder);
    // Wholly on one side.
    assert_eq!(face_action(&plane, false, true, true, false, false, false), FaceAction::Drop);
    assert_eq!(face_action(&plane, true, false, true, false, false, false), FaceAction::CopyVerbatim);
    // Straddling, or an arc crossing.
    assert_eq!(face_action(&plane, true, true, false, false, false, false), FaceAction::Split);
    assert_eq!(face_action(&plane, true, false, false, true, false, false), FaceAction::Split);
    assert_eq!(face_action(&plane, false, false, true, true, false, true), FaceAction::Split);
    // `cylinder_crossed` means nothing for a plane.
    assert_eq!(face_action(&plane, true, false, false, false, true, false), FaceAction::CopyVerbatim);
}

#[test]
fn solid_fast_paths() {
    assert_eq!(solid_path(false, true, false, false), SolidPath::Empty);
    assert_eq!(solid_path(false, false, false, false), SolidPath::Empty);
    assert_eq!(solid_path(true, false, false, false), SolidPath::AllKept);
    assert_eq!(solid_path(true, false, false, true), SolidPath::Process);
    assert_eq!(solid_path(true, true, false, false), SolidPath::Process);
    assert_eq!(solid_path(false, false, true, false), SolidPath::Process);
}

#[test]
fn portals_are_fragment_ends_on_the_plane() {
    let ends = vec![(Sign3::On, Sign3::On), (Sign3::Below, Sign3::On), (Sign3::On, Sign3::Below), (Sign3::Below, Sign3::Below)];
    assert_eq!(fragment_portals(&ends), vec![(0, false), (0, true), (1, true), (2, false)]);
}

#[test]
fn ruling_portals_pair_even_with_odd() {
    assert_eq!(ruling_segments(&vec![10, 11, 12, 13]), vec![(10, 11), (12, 13)]);
    assert_eq!(ruling_segments(&vec![10, 11, 12]), vec![(10, 11)]);
    assert_eq!(ruling_segments::<u8>(&vec![]), vec![]);
}
