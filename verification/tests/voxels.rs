use archi_kernel::boolean::poly2d::classify::Op;
use archi_kernel::boolean::prismatic::voxels::{
    check_budget, voxel_faces, voxel_plan, voxel_residency, KeepRule, VoxelFace,
};
use archi_kernel::boolean::prismatic::PrismError;

fn wall(edge: usize, band: usize, material_on_left: bool) -> VoxelFace {
    VoxelFace::Wall { edge, band, material_on_left }
}

fn iface(cell: usize, level: usize, up: bool) -> VoxelFace {
    VoxelFace::Interface { cell, level, up }
}

#[test]
fn single_resident_voxel_has_a_wall_per_boundary_edge_and_two_caps() {
    // One cell bounded by two edges, the cell on the left of the first and on
    // the right of the second; one band.
    let sides = vec![(Some(0), None), (None, Some(0))];
    let resident = vec![vec![true]];
    let faces = voxel_faces(&sides, &resident, 1);
    assert_eq!(faces, vec![wall(0, 0, true), wall(1, 0, false), iface(0, 0, false), iface(0, 1, true)]);
}

#[test]
fn walls_stand_only_between_differing_cells() {
    // Two cells sharing edge 0; in band 0 both are resident, in band 1 only
    // the right one.
    let sides = vec![(Some(0), Some(1))];
    let resident = vec![vec![true, false], vec![true, true]];
    let faces = voxel_faces(&sides, &resident, 2);
    assert_eq!(
        faces,
        vec![
            wall(0, 1, false),
            // cell 0: bottom cap, top of band 0
            iface(0, 0, false),
            iface(0, 1, true),
            // cell 1: bottom cap, top cap
            iface(1, 0, false),
            iface(1, 2, true),
        ]
    );
}

#[test]
fn interfaces_between_stacked_bands() {
    // A cell resident in bands 0 and 2 but not 1.
    let sides: Vec<(Option<usize>, Option<usize>)> = vec![];
    let resident = vec![vec![true, false, true]];
    let faces = voxel_faces(&sides, &resident, 3);
    assert_eq!(faces, vec![iface(0, 0, false), iface(0, 1, true), iface(0, 2, false), iface(0, 3, true)]);
}

#[test]
fn empty_cell_has_no_faces() {
    let sides = vec![(Some(0), None)];
    let resident = vec![vec![false, false]];
    assert_eq!(voxel_faces(&sides, &resident, 2), vec![]);
}

#[test]
fn budget_measure_counts_walls_and_interfaces() {
    // 4 edges × 2 bands + 3 cells × 3 levels = 17.
    assert_eq!(check_budget(4, 3, 2, 17), Ok(17));
    assert_eq!(check_budget(4, 3, 2, 16), Err(PrismError::ComplexityLimit { measure: 17, budget: 16 }));
    // With no band, each edge still counts once: 4 + 3 = 7.
    assert_eq!(check_budget(4, 3, 0, 100), Ok(7));
}

#[test]
fn budget_products_saturate() {
    let r = check_budget(usize::MAX, 0, 2, 5);
    assert_eq!(r, Err(PrismError::ComplexityLimit { measure: usize::MAX, budget: 5 }));
}

#[test]
fn residency_applies_the_keep_rule_to_inside_and_present() {
    // Two cells: the first inside A only, the second inside both.
    let inside = vec![vec![true, false], vec![true, true]];
    // Two bands: A alone, then both.
    let present = vec![vec![true, false], vec![true, true]];
    let diff = voxel_residency(&inside, &present, 2, KeepRule::Binary(Op::Difference));
    assert_eq!(diff, vec![vec![true, true], vec![true, false]]);
    let inter = voxel_residency(&inside, &present, 2, KeepRule::Binary(Op::Intersection));
    assert_eq!(inter, vec![vec![false, false], vec![false, true]]);
    let openings = voxel_residency(&inside, &present, 2, KeepRule::Openings);
    assert_eq!(openings, diff);
}

#[test]
fn plan_with_no_band_builds_nothing() {
    let sides = vec![(Some(0), None)];
    let inside = vec![vec![true, true]];
    let present: Vec<Vec<bool>> = vec![];
    assert_eq!(voxel_plan(&sides, &inside, &present, 2, KeepRule::Binary(Op::Union), 100), Ok(None));
}

#[test]
fn plan_over_budget_is_refused() {
    let sides = vec![(Some(0), None)];
    let inside = vec![vec![true, true]];
    let present = vec![vec![true, true]];
    // 1 edge × 1 band + 1 cell × 2 levels = 3.
    assert_eq!(
        voxel_plan(&sides, &inside, &present, 2, KeepRule::Binary(Op::Union), 2),
        Err(PrismError::ComplexityLimit { measure: 3, budget: 2 })
    );
}

#[test]
fn plan_builds_the_faces_of_the_resident_voxels() {
    let sides = vec![(Some(0), None)];
    let inside = vec![vec![true, false]];
    let present = vec![vec![true, true]];
    assert_eq!(
        voxel_plan(&sides, &inside, &present, 2, KeepRule::Binary(Op::Union), 100),
        Ok(Some(vec![wall(0, 0, true), iface(0, 0, false), iface(0, 1, true)]))
    );
    // The difference with both present and the cell inside only A keeps it too;
    // inside both, nothing is left.
    let inside_both = vec![vec![true, true]];
    assert_eq!(
        voxel_plan(&sides, &inside_both, &present, 2, KeepRule::Binary(Op::Difference), 100),
        Ok(Some(vec![]))
    );
}
