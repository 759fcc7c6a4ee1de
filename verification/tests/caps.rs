use archi_kernel::boolean::caps::{chain_cap_edges, collect_cap_edges, CapSource, CoordKey, KeyEdge};

const A: CoordKey = (0, 0, 0);
const B: CoordKey = (1_000_000_000, 0, 0);
const C: CoordKey = (1_000_000_000, 1_000_000_000, 0);
const D: CoordKey = (0, 1_000_000_000, 0);

#[test]
fn opposite_straight_edges_cancel_and_duplicates_collapse() {
    let straight: Vec<KeyEdge> = vec![(A, B), (B, A), (B, C), (B, C), (C, A)];
    let arcs: Vec<KeyEdge> = vec![(C, A), (A, D)];
    assert_eq!(
        collect_cap_edges(&straight, &arcs),
        vec![CapSource::Straight(2), CapSource::Straight(4), CapSource::Arc(1)]
    );
}

#[test]
fn unbalanced_multiplicity_keeps_each_direction_once() {
    let straight: Vec<KeyEdge> = vec![(A, B), (B, A), (A, B)];
    assert_eq!(
        collect_cap_edges(&straight, &Vec::new()),
        vec![CapSource::Straight(0), CapSource::Straight(1)]
    );
}

#[test]
fn arcs_are_never_cancelled() {
    let arcs: Vec<KeyEdge> = vec![(A, B), (B, A), (A, B)];
    assert_eq!(
        collect_cap_edges(&Vec::new(), &arcs),
        vec![CapSource::Arc(0), CapSource::Arc(1)]
    );
}

#[test]
fn triangle_chains_into_one_reversed_cycle() {
    let edges: Vec<KeyEdge> = vec![(A, B), (B, C), (C, A)];
    assert_eq!(chain_cap_edges(&edges), vec![vec![2, 1, 0]]);
}

#[test]
fn chain_follows_end_keys_in_any_order() {
    let edges: Vec<KeyEdge> = vec![(C, A), (A, B), (B, C)];
    assert_eq!(chain_cap_edges(&edges), vec![vec![2, 1, 0]]);
}

#[test]
fn open_chain_is_kept_and_single_edge_dropped() {
    let edges: Vec<KeyEdge> = vec![(A, B), (B, C), (D, (5, 5, 5))];
    assert_eq!(chain_cap_edges(&edges), vec![vec![1, 0]]);
}

#[test]
fn two_separate_cycles() {
    let e: CoordKey = (7, 7, 7);
    let f: CoordKey = (8, 8, 8);
    let edges: Vec<KeyEdge> = vec![(A, B), (D, e), (B, A), (e, f), (f, D)];
    assert_eq!(chain_cap_edges(&edges), vec![vec![2, 0], vec![4, 3, 1]]);
}
