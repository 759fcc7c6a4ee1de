use archi_kernel::boolean::nesting::{group_nested, NestGroup};

fn group(outer: usize, inners: Vec<usize>) -> NestGroup {
    NestGroup { outer, inners }
}

#[test]
fn outer_loops_collect_their_holes() {
    let parent = vec![None, Some(0), Some(0), None, Some(3)];
    assert_eq!(group_nested(&parent), vec![group(0, vec![1, 2]), group(3, vec![4])]);
}

#[test]
fn loop_inside_a_hole_stands_alone() {
    let parent = vec![None, Some(0), Some(1)];
    assert_eq!(group_nested(&parent), vec![group(0, vec![1]), group(2, vec![])]);
}

#[test]
fn parent_naming_no_loop_stands_alone() {
    let parent = vec![Some(7), None];
    assert_eq!(group_nested(&parent), vec![group(1, vec![]), group(0, vec![])]);
}

#[test]
fn no_loops_no_groups() {
    assert_eq!(group_nested(&Vec::new()), Vec::<NestGroup>::new());
}

#[test]
fn every_loop_lands_in_exactly_one_group() {
    let parent = vec![None, Some(0), Some(1), None, Some(3), Some(9), Some(0)];
    let groups = group_nested(&parent);
    for i in 0..parent.len() {
        let count: usize = groups
            .iter()
            .map(|g| (g.outer == i) as usize + g.inners.iter().filter(|&&x| x == i).count())
            .sum();
        assert_eq!(count, 1);
    }
}
