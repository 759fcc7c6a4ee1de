use archi_kernel::boolean::poly2d::arrangement::ArrEdge;
use archi_kernel::boolean::poly2d::dcel::{
    face_vertex_ids, half_edges, link_next, outgoing_rings, trace_faces, HalfEdge, LinkError,
};
use archi_kernel::boolean::poly2d::snap::VertexId;

fn v(i: usize) -> VertexId {
    VertexId(i)
}

fn edge(a: usize, b: usize) -> ArrEdge {
    ArrEdge { a: v(a), b: v(b), wind_a: 1, wind_b: 0 }
}

/// The unit square 0=(0,0), 1=(1,0), 2=(1,1), 3=(0,1).
fn square_edges() -> Vec<ArrEdge> {
    vec![edge(0, 1), edge(1, 2), edge(2, 3), edge(0, 3)]
}

/// Each vertex's leaving half-edges in counter-clockwise angle order.
fn square_rings_by_angle() -> Vec<Vec<usize>> {
    vec![vec![0, 6], vec![2, 1], vec![3, 4], vec![7, 5]]
}

#[test]
fn half_edges_pair_twins() {
    let h = half_edges(&square_edges());
    assert_eq!(h.len(), 8);
    assert_eq!(h[0], HalfEdge { origin: v(0), dest: v(1), twin: 1 });
    assert_eq!(h[1], HalfEdge { origin: v(1), dest: v(0), twin: 0 });
    assert_eq!(h[6], HalfEdge { origin: v(0), dest: v(3), twin: 7 });
    assert_eq!(h[7], HalfEdge { origin: v(3), dest: v(0), twin: 6 });
}

#[test]
fn outgoing_rings_group_by_origin() {
    let h = half_edges(&square_edges());
    let rings = outgoing_rings(&h, 4);
    assert_eq!(rings, vec![vec![0, 6], vec![1, 2], vec![3, 4], vec![5, 7]]);
}

#[test]
fn link_next_takes_the_entry_before_the_twin() {
    let h = half_edges(&square_edges());
    let next = link_next(&h, &square_rings_by_angle()).unwrap();
    assert_eq!(next, vec![2, 6, 4, 1, 7, 3, 5, 0]);
}

#[test]
fn link_next_reports_a_missing_ring() {
    let h = half_edges(&square_edges());
    let rings = vec![vec![0, 6], vec![2, 1]];
    assert_eq!(link_next(&h, &rings), Err(LinkError::VertexMissing));
}

#[test]
fn link_next_reports_a_missing_twin() {
    let h = half_edges(&square_edges());
    let rings = vec![vec![0, 6], vec![2], vec![3, 4], vec![7, 5]];
    assert_eq!(link_next(&h, &rings), Err(LinkError::TwinMissing));
}

#[test]
fn square_traces_an_inner_and_an_outer_loop() {
    let h = half_edges(&square_edges());
    let next = link_next(&h, &square_rings_by_angle()).unwrap();
    let faces = trace_faces(&next);
    assert_eq!(faces, vec![vec![0, 2, 4, 7], vec![1, 6, 5, 3]]);
    assert_eq!(face_vertex_ids(&h, &faces[0]), vec![v(0), v(1), v(2), v(3)]);
    assert_eq!(face_vertex_ids(&h, &faces[1]), vec![v(1), v(0), v(3), v(2)]);
}

#[test]
fn every_half_edge_on_exactly_one_loop() {
    let h = half_edges(&square_edges());
    let next = link_next(&h, &square_rings_by_angle()).unwrap();
    let faces = trace_faces(&next);
    for e in 0..h.len() {
        let count: usize = faces.iter().map(|f| f.iter().filter(|&&x| x == e).count()).sum();
        assert_eq!(count, 1);
    }
}

#[test]
fn half_edge_without_successor_opens_no_loop() {
    let faces = trace_faces(&vec![usize::MAX, 1]);
    assert_eq!(faces, vec![vec![1]]);
}

#[test]
fn malformed_successors_stop_at_the_cap() {
    let faces = trace_faces(&vec![1, 1]);
    assert_eq!(faces, vec![vec![0, 1, 1, 1]]);
}
