use archi_kernel::boolean::poly2d::reconstruct::{cancel_internal_edges, key_less, DirKey, GeomKey};
use archi_kernel::boolean::poly2d::snap::VertexId;

fn seg(a: usize, b: usize) -> DirKey {
    DirKey { a: VertexId(a), b: VertexId(b), geom: GeomKey::Seg }
}

fn arc(a: usize, b: usize, mx: i64) -> DirKey {
    DirKey { a: VertexId(a), b: VertexId(b), geom: GeomKey::Arc { cx: 0, cy: 0, r: 5, mx, my: 0 } }
}

#[test]
fn shared_edge_of_two_squares_cancels() {
    // squares 0-1-4-3 and 1-2-5-4 (both CCW) share 1-4 in opposite directions.
    let edges = vec![
        seg(0, 1), seg(1, 4), seg(4, 3), seg(3, 0),
        seg(1, 2), seg(2, 5), seg(5, 4), seg(4, 1),
    ];
    let out = cancel_internal_edges(&edges);
    assert_eq!(out, vec![seg(0, 1), seg(1, 2), seg(2, 5), seg(3, 0), seg(4, 3), seg(5, 4)]);
}

#[test]
fn degenerate_edges_are_dropped_and_surplus_kept() {
    let edges = vec![seg(2, 2), seg(1, 0), seg(0, 1), seg(0, 1), seg(0, 1)];
    assert_eq!(cancel_internal_edges(&edges), vec![seg(0, 1), seg(0, 1)]);
}

#[test]
fn arcs_cancel_only_on_the_same_midpoint() {
    let edges = vec![arc(0, 1, 3), arc(1, 0, 3), arc(1, 0, -3)];
    assert_eq!(cancel_internal_edges(&edges), vec![arc(1, 0, -3)]);
}

#[test]
fn key_order_is_lexicographic() {
    assert!(key_less(&seg(0, 9), &seg(1, 0)));
    assert!(key_less(&seg(1, 0), &seg(1, 2)));
    assert!(key_less(&seg(1, 2), &arc(1, 2, -100)));
    assert!(key_less(&arc(1, 2, -1), &arc(1, 2, 0)));
    assert!(!key_less(&seg(1, 2), &seg(1, 2)));
    assert_eq!(GeomKey::Seg.reversed(), GeomKey::Seg);
}
