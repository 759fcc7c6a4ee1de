use archi_kernel::boolean::support::{uf_find, uf_union};

#[test]
fn find_on_fresh_forest_is_identity() {
    let mut p: Vec<usize> = (0..5).collect();
    for i in 0..5 {
        assert_eq!(uf_find(&mut p, i), i);
    }
}

#[test]
fn union_links_root_of_a_under_root_of_b() {
    let mut p: Vec<usize> = (0..4).collect();
    uf_union(&mut p, 0, 1);
    assert_eq!(uf_find(&mut p, 0), 1);
    assert_eq!(uf_find(&mut p, 1), 1);
    uf_union(&mut p, 2, 0);
    assert_eq!(uf_find(&mut p, 2), 1);
    assert_eq!(uf_find(&mut p, 3), 3);
}

#[test]
fn union_joins_classes_and_leaves_others() {
    let mut p: Vec<usize> = (0..6).collect();
    uf_union(&mut p, 0, 1);
    uf_union(&mut p, 2, 3);
    uf_union(&mut p, 1, 3);
    let r = uf_find(&mut p, 0);
    for x in [1, 2, 3] {
        assert_eq!(uf_find(&mut p, x), r);
    }
    assert_eq!(uf_find(&mut p, 4), 4);
    assert_eq!(uf_find(&mut p, 5), 5);
}

#[test]
fn find_halves_the_path() {
    // chain 0 -> 1 -> 2 -> 3 (root)
    let mut p: Vec<usize> = vec![1, 2, 3, 3];
    assert_eq!(uf_find(&mut p, 0), 3);
    assert_eq!(p, vec![2, 2, 3, 3]);
    assert_eq!(uf_find(&mut p, 0), 3);
}

#[test]
fn union_of_same_class_changes_nothing() {
    let mut p: Vec<usize> = vec![1, 1, 2];
    uf_union(&mut p, 0, 1);
    assert_eq!(p, vec![1, 1, 2]);
}
