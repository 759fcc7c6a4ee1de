use archi_kernel::boolean::kept_loops::{chain_kept_loops, order_cylinder_fragments, FragmentEnds, LoopPiece};
use archi_kernel::boolean::poly2d::snap::VertexId;

fn frag(start: usize, end: usize, edges: usize) -> FragmentEnds {
    FragmentEnds { start: VertexId(start), end: VertexId(end), edges }
}

fn conn(a: usize, b: usize) -> (VertexId, VertexId) {
    (VertexId(a), VertexId(b))
}

#[test]
fn fragment_closed_by_one_section_connector() {
    let loops = chain_kept_loops(&vec![frag(1, 3, 2)], &vec![conn(3, 1)]);
    assert_eq!(loops, vec![vec![LoopPiece::Fragment(0), LoopPiece::Connector(0, true)]]);
}

#[test]
fn fragments_and_connectors_alternate() {
    let loops = chain_kept_loops(&vec![frag(1, 2, 1), frag(3, 4, 1)], &vec![conn(2, 3), conn(1, 4)]);
    assert_eq!(
        loops,
        vec![vec![
            LoopPiece::Fragment(0),
            LoopPiece::Connector(0, true),
            LoopPiece::Fragment(1),
            LoopPiece::Connector(1, false),
        ]]
    );
}

#[test]
fn fragment_continues_straight_into_the_next() {
    let loops = chain_kept_loops(&vec![frag(1, 2, 1), frag(2, 1, 1)], &vec![]);
    assert_eq!(loops, vec![vec![LoopPiece::Fragment(0), LoopPiece::Fragment(1)]]);
}

#[test]
fn a_loop_needs_two_half_edges() {
    assert_eq!(chain_kept_loops(&vec![frag(5, 5, 1)], &vec![]), Vec::<Vec<LoopPiece>>::new());
    assert_eq!(chain_kept_loops(&vec![frag(5, 5, 2)], &vec![]), vec![vec![LoopPiece::Fragment(0)]]);
}

#[test]
fn open_walks_are_dropped_and_fragments_used_once() {
    // Fragment 0 leads nowhere; fragment 1 then closes with fragment 2.
    let loops = chain_kept_loops(&vec![frag(1, 2, 1), frag(7, 8, 1), frag(8, 7, 1)], &vec![]);
    assert_eq!(loops, vec![vec![LoopPiece::Fragment(1), LoopPiece::Fragment(2)]]);
}

#[test]
fn a_connector_direction_is_walked_once() {
    // Both fragments end at 2; the connector 2-3 can be walked from 2 only once.
    let loops = chain_kept_loops(&vec![frag(3, 2, 1), frag(4, 2, 1)], &vec![conn(2, 3), conn(2, 4)]);
    assert_eq!(
        loops,
        vec![
            vec![LoopPiece::Fragment(0), LoopPiece::Connector(0, true)],
            vec![LoopPiece::Fragment(1), LoopPiece::Connector(1, true)],
        ]
    );
}

#[test]
fn cylinder_fragments_chain_from_the_last() {
    // Fragment 2 ends at 5, where fragment 0 starts; fragment 0 ends at 9,
    // where none starts, so the first remaining one (1) follows.
    let frags = vec![frag(5, 9, 1), frag(6, 7, 1), frag(4, 5, 1)];
    assert_eq!(order_cylinder_fragments(&frags), vec![2, 0, 1]);
    assert_eq!(order_cylinder_fragments(&vec![]), Vec::<usize>::new());
    assert_eq!(order_cylinder_fragments(&vec![frag(1, 2, 1)]), vec![0]);
}
