use archi_kernel::boolean::components::{connected_components, EdgeKey};
use archi_kernel::geom::CurveId;

fn k(curve: usize, lo: i64, hi: i64) -> EdgeKey {
    EdgeKey { curve: CurveId(curve), lo, hi }
}

#[test]
fn faces_sharing_edges_form_one_component() {
    let faces = vec![
        vec![k(1, 0, 5), k(2, 0, 5)],
        vec![k(2, 0, 5), k(3, -1, 1)],
        vec![k(4, 0, 1)],
        vec![k(3, -1, 1)],
        vec![],
    ];
    assert_eq!(connected_components(&faces), vec![vec![0, 1, 3], vec![2], vec![4]]);
}

#[test]
fn connection_is_transitive_through_chains() {
    // 3 - 0 - 2 - 1 chained by distinct keys.
    let faces = vec![
        vec![k(1, 0, 1), k(2, 0, 1)],
        vec![k(3, 0, 1)],
        vec![k(2, 0, 1), k(3, 0, 1)],
        vec![k(1, 0, 1)],
    ];
    assert_eq!(connected_components(&faces), vec![vec![0, 1, 2, 3]]);
}

#[test]
fn same_curve_different_interval_does_not_connect() {
    let faces = vec![vec![k(1, 0, 1)], vec![k(1, 0, 2)]];
    assert_eq!(connected_components(&faces), vec![vec![0], vec![1]]);
}

#[test]
fn no_faces_no_components() {
    assert!(connected_components(&vec![]).is_empty());
}
