use archi_kernel::boolean::poly2d::arrangement::{
    accumulate_edge, arrangement_edges, push_split, ArrEdge, InputSeg, Operand,
};
use archi_kernel::boolean::poly2d::geom::Orient;
use archi_kernel::boolean::poly2d::intersect::orientations_straddle;
use archi_kernel::boolean::poly2d::snap::VertexId;

fn v(i: usize) -> VertexId {
    VertexId(i)
}

#[test]
fn split_points_skip_endpoints_and_repeats() {
    let s = InputSeg { a: v(0), b: v(1), operand: Operand::A };
    let mut splits = Vec::new();
    push_split(&mut splits, v(0), &s);
    push_split(&mut splits, v(5), &s);
    push_split(&mut splits, v(1), &s);
    push_split(&mut splits, v(5), &s);
    push_split(&mut splits, v(3), &s);
    assert_eq!(splits, vec![v(5), v(3)]);
}

#[test]
fn accumulate_keys_by_unordered_pair() {
    let mut m: Vec<ArrEdge> = Vec::new();
    accumulate_edge(&mut m, v(3), v(1), Operand::A);
    assert_eq!(m, vec![ArrEdge { a: v(1), b: v(3), wind_a: -1, wind_b: 0 }]);
    accumulate_edge(&mut m, v(1), v(3), Operand::B);
    assert_eq!(m, vec![ArrEdge { a: v(1), b: v(3), wind_a: -1, wind_b: 1 }]);
    accumulate_edge(&mut m, v(1), v(3), Operand::A);
    accumulate_edge(&mut m, v(0), v(2), Operand::A);
    assert_eq!(
        m,
        vec![
            ArrEdge { a: v(1), b: v(3), wind_a: 0, wind_b: 1 },
            ArrEdge { a: v(0), b: v(2), wind_a: 1, wind_b: 0 },
        ]
    );
}

#[test]
fn shared_edge_in_opposite_directions_vanishes() {
    // Two unit squares side by side, both of operand A: 0-1-4-3 and 1-2-5-4.
    let inputs = vec![
        InputSeg { a: v(0), b: v(1), operand: Operand::A },
        InputSeg { a: v(1), b: v(4), operand: Operand::A },
        InputSeg { a: v(4), b: v(3), operand: Operand::A },
        InputSeg { a: v(3), b: v(0), operand: Operand::A },
        InputSeg { a: v(1), b: v(2), operand: Operand::A },
        InputSeg { a: v(2), b: v(5), operand: Operand::A },
        InputSeg { a: v(5), b: v(4), operand: Operand::A },
        InputSeg { a: v(4), b: v(1), operand: Operand::A },
    ];
    let chains: Vec<Vec<VertexId>> = inputs.iter().map(|s| vec![s.a, s.b]).collect();
    let edges = arrangement_edges(&inputs, &chains);
    assert_eq!(edges.len(), 6);
    assert!(!edges.iter().any(|e| e.a == v(1) && e.b == v(4)));
    assert!(edges.contains(&ArrEdge { a: v(0), b: v(1), wind_a: 1, wind_b: 0 }));
    assert!(edges.contains(&ArrEdge { a: v(3), b: v(4), wind_a: -1, wind_b: 0 }));
}

#[test]
fn split_chains_make_unit_edges_and_skip_collapsed_ones() {
    let inputs = vec![
        InputSeg { a: v(0), b: v(2), operand: Operand::A },
        InputSeg { a: v(2), b: v(0), operand: Operand::B },
    ];
    let chains = vec![vec![v(0), v(1), v(1), v(2)], vec![v(2), v(0)]];
    let edges = arrangement_edges(&inputs, &chains);
    assert_eq!(
        edges,
        vec![
            ArrEdge { a: v(0), b: v(1), wind_a: 1, wind_b: 0 },
            ArrEdge { a: v(1), b: v(2), wind_a: 1, wind_b: 0 },
            ArrEdge { a: v(0), b: v(2), wind_a: 0, wind_b: -1 },
        ]
    );
}

#[test]
fn straddle_from_orientations() {
    assert!(orientations_straddle(Orient::Left, Orient::Right));
    assert!(orientations_straddle(Orient::Right, Orient::Left));
    assert!(orientations_straddle(Orient::Collinear, Orient::Left));
    assert!(orientations_straddle(Orient::Right, Orient::Collinear));
    assert!(!orientations_straddle(Orient::Left, Orient::Left));
    assert!(!orientations_straddle(Orient::Right, Orient::Right));
}
