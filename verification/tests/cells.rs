use archi_kernel::boolean::poly2d::arrangement::ArrEdge;
use archi_kernel::boolean::poly2d::dcel::{half_edges, link_next, trace_faces};
use archi_kernel::boolean::poly2d::snap::VertexId;
use archi_kernel::boolean::prismatic::cells::{assemble_cells, edge_sides, Cell};
use archi_kernel::tolerance::Sign3;

#[test]
fn square_has_one_cell_left_of_its_inner_loop() {
    let loops = vec![vec![0, 2, 4, 7], vec![1, 6, 5, 3]];
    let (cells, hc) = assemble_cells(8, &loops, &vec![Sign3::Above, Sign3::Below], &vec![None, None]);
    assert_eq!(cells, vec![Cell { outer: 0, inners: vec![] }]);
    assert_eq!(hc, vec![Some(0), None, Some(0), None, Some(0), None, None, Some(0)]);
    assert_eq!(edge_sides(&hc, 4), vec![(Some(0), None), (Some(0), None), (Some(0), None), (None, Some(0))]);
}

#[test]
fn hole_loop_borders_the_cell_around_it() {
    let loops = vec![vec![0, 1], vec![2, 3], vec![4, 5], vec![6, 7]];
    let signs = vec![Sign3::Above, Sign3::Below, Sign3::Above, Sign3::Below];
    let parents = vec![None, Some(0), None, None];
    let (cells, hc) = assemble_cells(8, &loops, &signs, &parents);
    assert_eq!(cells, vec![Cell { outer: 0, inners: vec![1] }, Cell { outer: 2, inners: vec![] }]);
    assert_eq!(hc, vec![Some(0), Some(0), Some(0), Some(0), Some(1), Some(1), None, None]);
}

#[test]
fn zero_area_loops_join_no_cell() {
    let loops = vec![vec![0], vec![1]];
    let (cells, hc) = assemble_cells(2, &loops, &vec![Sign3::On, Sign3::Above], &vec![Some(0), None]);
    assert_eq!(cells, vec![Cell { outer: 1, inners: vec![] }]);
    assert_eq!(hc, vec![None, Some(0)]);
}

#[test]
fn square_with_diagonal_has_two_cells_sharing_the_diagonal() {
    // Unit square 0=(0,0), 1=(1,0), 2=(1,1), 3=(0,1) with the diagonal 0-2.
    let e = |a: usize, b: usize| ArrEdge { a: VertexId(a), b: VertexId(b), wind_a: 1, wind_b: 0 };
    let edges = vec![e(0, 1), e(1, 2), e(2, 3), e(0, 3), e(0, 2)];
    let halfs = half_edges(&edges);
    // Each vertex's leaving half-edges, counter-clockwise by direction angle.
    let rings = vec![vec![0, 8, 6], vec![2, 1], vec![9, 3, 4], vec![7, 5]];
    let next = link_next(&halfs, &rings).unwrap();
    assert_eq!(next, vec![2, 6, 9, 1, 7, 3, 5, 8, 4, 0]);
    let loops = trace_faces(&next);
    assert_eq!(loops, vec![vec![0, 2, 9], vec![1, 6, 5, 3], vec![4, 7, 8]]);
    // The two triangles have positive area, the outer loop negative.
    let (cells, hc) =
        assemble_cells(10, &loops, &vec![Sign3::Above, Sign3::Below, Sign3::Above], &vec![None, None, None]);
    assert_eq!(cells, vec![Cell { outer: 0, inners: vec![] }, Cell { outer: 2, inners: vec![] }]);
    assert_eq!(
        edge_sides(&hc, 5),
        vec![(Some(0), None), (Some(0), None), (Some(1), None), (None, Some(1)), (Some(1), Some(0))]
    );
}
