use archi_kernel::curved::panel_cells::{boundary_cells, CellFaces};

fn cell(i: usize, j: usize, sides: [bool; 4]) -> CellFaces {
    CellFaces { i, j, theta_lo: sides[0], theta_hi: sides[1], z_lo: sides[2], z_hi: sides[3] }
}

#[test]
fn shared_sides_between_material_cells_are_not_emitted() {
    // 2 × 2 grid with one void cell at (1, 1).
    let material = vec![vec![true, true], vec![true, false]];
    assert_eq!(
        boundary_cells(&material, 2),
        vec![
            cell(0, 0, [true, false, true, false]),
            cell(0, 1, [true, true, false, true]),
            cell(1, 0, [false, true, true, true]),
        ]
    );
}

#[test]
fn empty_grid_emits_nothing() {
    assert_eq!(boundary_cells(&vec![vec![false, false]], 2), vec![]);
    assert_eq!(boundary_cells(&vec![], 3), vec![]);
}
