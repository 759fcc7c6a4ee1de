//! Assembling the traced face loops of a prismatic arrangement into cells.
//!
//! Every loop with positive area is the outer boundary of a cell, numbered
//! in loop order. Every loop with negative area bounds a void and becomes a
//! hole of the cell whose material surrounds it (found geometrically), when
//! there is one. Each half-edge then knows the cell on its left, and each
//! edge the cells on its two sides.

use vstd::prelude::*;

use crate::boolean::nesting::{lemma_positions_where, positions_where};
use crate::tolerance::Sign3;

verus! {

/// A cell: its outer loop and its hole loops, as loop positions.
#[derive(Debug, Clone, PartialEq, Eq)]
pub struct Cell {
    /// The loop bounding the cell, traversed counter-clockwise.
    pub outer: usize,
    /// The loops of the voids inside the cell, in loop order.
    pub inners: Vec<usize>,
}

/// A loop with positive area.
pub open spec fn outer_pred(signs: Seq<Sign3>) -> spec_fn(int) -> bool {
    |i: int| signs[i] is Above
}

/// A loop with negative area attached to cell `c`.
pub open spec fn hole_pred(signs: Seq<Sign3>, parents: Seq<Option<usize>>, c: int) -> spec_fn(int) -> bool {
    |i: int| signs[i] is Below && parents[i] == Some(c as usize)
}

/// The cells: one per positive loop, in loop order, holding the negative
/// loops attached to it.
pub open spec fn cells_spec(signs: Seq<Sign3>, parents: Seq<Option<usize>>) -> Seq<(usize, Seq<usize>)> {
    positions_where(outer_pred(signs), signs.len()).map(
        |c: int, o: usize| (o, positions_where(hole_pred(signs, parents, c), signs.len())),
    )
}

/// `hc` with every half-edge of `chain` set to cell `c`.
pub open spec fn assign(hc: Seq<Option<usize>>, chain: Seq<usize>, c: usize) -> Seq<Option<usize>> {
    Seq::new(hc.len(), |h: int| if chain.contains(h as usize) { Some(c) } else { hc[h] })
}

/// The cell of each of `n` half-edges after the positive loops among the
/// first `k`: each gives its half-edges the number of the cell it bounds.
pub open spec fn outer_cells(loops: Seq<Seq<usize>>, signs: Seq<Sign3>, n: nat, k: nat) -> Seq<Option<usize>>
    decreases k,
{
    if k == 0 {
        Seq::new(n, |h: int| None)
    } else {
        let prev = outer_cells(loops, signs, n, (k - 1) as nat);
        if signs[k - 1] is Above {
            assign(prev, loops[k - 1], positions_where(outer_pred(signs), (k - 1) as nat).len() as usize)
        } else {
            prev
        }
    }
}

/// The cell of each half-edge after all positive loops and then the
/// attached negative loops among the first `k`: each gives its half-edges
/// the cell it is a hole of.
pub open spec fn half_cells(
    loops: Seq<Seq<usize>>,
    signs: Seq<Sign3>,
    parents: Seq<Option<usize>>,
    n: nat,
    k: nat,
) -> Seq<Option<usize>>
    decreases k,
{
    if k == 0 {
        outer_cells(loops, signs, n, loops.len())
    } else {
        let prev = half_cells(loops, signs, parents, n, (k - 1) as nat);
        if signs[k - 1] is Below && parents[k - 1] is Some {
            assign(prev, loops[k - 1], parents[k - 1]->0)
        } else {
            prev
        }
    }
}

fn assign_chain(hc: &mut Vec<Option<usize>>, chain: &Vec<usize>, c: usize)
    requires
        forall|t: int| 0 <= t < chain.len() ==> #[trigger] chain@[t] < old(hc).len(),
    ensures
        final(hc)@ == assign(old(hc)@, chain@, c),
{
    let ghost h0 = hc@;
    let mut j: usize = 0;
    while j < chain.len()
        invariant
            j <= chain.len(),
            hc.len() == h0.len(),
            forall|t: int| 0 <= t < chain.len() ==> #[trigger] chain@[t] < h0.len(),
            hc@ == assign(h0, chain@.take(j as int), c),
        decreases chain.len() - j,
    {
        let ghost before = hc@;
        hc.set(chain[j], Some(c));
        proof {
            assert forall|h: int| 0 <= h < h0.len() implies #[trigger] hc@[h] == assign(h0, chain@.take(j + 1), c)[h] by {
                let t1 = chain@.take(j + 1);
                let t0 = chain@.take(j as int);
                if h == chain@[j as int] as int {
                    assert(t1[j as int] == h as usize);
                } else {
                    assert(hc@[h] == before[h]);
                    if t1.contains(h as usize) {
                        let q = t1.index_of(h as usize);
                        assert(q < j);
                        assert(t0[q] == h as usize);
                    }
                    if t0.contains(h as usize) {
                        let q = t0.index_of(h as usize);
                        assert(t1[q] == h as usize);
                    }
                }
            }
            assert(hc@ =~= assign(h0, chain@.take(j + 1), c));
        }
        j = j + 1;
    }
    proof {
        assert(chain@.take(chain.len() as int) =~= chain@);
    }
}

/// Assemble the traced loops of `n` half-edges into cells. `signs` gives the
/// sign of each loop's area and `parents`, for a negative loop, the cell its
/// void lies in (if any). Returns the cells, one per positive loop in loop
/// order with the negative loops attached to it, and the cell on the left of
/// each half-edge: a positive loop's half-edges border its own cell, an
/// attached negative loop's border the cell it is a hole of.
pub fn assemble_cells(
    n: usize,
    loops: &Vec<Vec<usize>>,
    signs: &Vec<Sign3>,
    parents: &Vec<Option<usize>>,
) -> (r: (Vec<Cell>, Vec<Option<usize>>))
    requires
        signs.len() == loops.len(),
        parents.len() == loops.len(),
        forall|l: int, t: int| 0 <= l < loops.len() && 0 <= t < loops@[l].len() ==> #[trigger] loops@[l]@[t] < n,
        forall|l: int|
            0 <= l < loops.len() && signs@[l] is Below && (#[trigger] parents@[l]) is Some ==> parents@[l]->0
                < positions_where(outer_pred(signs@), signs.len() as nat).len(),
    ensures
        r.0.len() == cells_spec(signs@, parents@).len(),
        forall|c: int|
            0 <= c < r.0.len() ==> (#[trigger] r.0@[c]).outer == cells_spec(signs@, parents@)[c].0 && r.0@[c].inners@
                == cells_spec(signs@, parents@)[c].1,
        r.1@ == half_cells(loops@.map_values(|v: Vec<usize>| v@), signs@, parents@, n as nat, loops.len() as nat),
        // Cells are numbered by their positive loops, in loop order.
        forall|c: int| 0 <= c < r.0.len() ==> (#[trigger] r.0@[c]).outer < loops.len() && signs@[r.0@[c].outer as int] is Above,
        forall|c1: int, c2: int| 0 <= c1 < c2 < r.0.len() ==> (#[trigger] r.0@[c1]).outer < (#[trigger] r.0@[c2]).outer,
        forall|l: int| 0 <= l < loops.len() && #[trigger] signs@[l] is Above ==> exists|c: int| 0 <= c < r.0.len() && (#[trigger] r.0@[c]).outer == l,
        // A negative loop attached to cell `c` is a hole of the `c`-th cell,
        // and a cell's holes are exactly the negative loops attached to it.
        forall|l: int|
            0 <= l < loops.len() && signs@[l] is Below && (#[trigger] parents@[l]) is Some ==> parents@[l]->0 < r.0.len()
                && r.0@[parents@[l]->0 as int].inners@.contains(l as usize),
        forall|c: int, t: int|
            0 <= c < r.0.len() && 0 <= t < r.0@[c].inners.len() ==> (#[trigger] r.0@[c].inners@[t]) < loops.len() && signs@[
                r.0@[c].inners@[t] as int] is Below && parents@[r.0@[c].inners@[t] as int] == Some(c as usize),
{
    let m = loops.len();
    let ghost lv = loops@.map_values(|v: Vec<usize>| v@);
    let ghost op = outer_pred(signs@);
    let mut hc: Vec<Option<usize>> = Vec::new();
    while hc.len() < n
        invariant
            hc.len() <= n,
            forall|h: int| 0 <= h < hc.len() ==> (#[trigger] hc@[h]) is None,
        decreases n - hc.len(),
    {
        hc.push(None);
    }
    proof {
        assert(hc@ =~= outer_cells(lv, signs@, n as nat, 0));
    }
    let mut cells: Vec<Cell> = Vec::new();
    let mut li: usize = 0;
    while li < m
        invariant
            m == loops.len(),
            signs.len() == m,
            parents.len() == m,
            li <= m,
            lv == loops@.map_values(|v: Vec<usize>| v@),
            op == outer_pred(signs@),
            forall|l: int, t: int| 0 <= l < loops.len() && 0 <= t < loops@[l].len() ==> #[trigger] loops@[l]@[t] < n,
            hc.len() == n,
            hc@ == outer_cells(lv, signs@, n as nat, li as nat),
            cells.len() == positions_where(op, li as nat).len(),
            forall|c: int|
                0 <= c < cells.len() ==> (#[trigger] cells@[c]).outer == positions_where(op, li as nat)[c]
                    && cells@[c].inners@ == positions_where(hole_pred(signs@, parents@, c), m as nat),
        decreases m - li,
    {
        if signs[li] == Sign3::Above {
            let cid = cells.len();
            proof {
                assert(lv[li as int] == loops@[li as int]@);
            }
            assign_chain(&mut hc, &loops[li], cid);
            let ghost hp = hole_pred(signs@, parents@, cid as int);
            let mut inners: Vec<usize> = Vec::new();
            let mut j: usize = 0;
            while j < m
                invariant
                    m == signs.len(),
                    parents.len() == m,
                    j <= m,
                    hp == hole_pred(signs@, parents@, cid as int),
                    inners@ == positions_where(hp, j as nat),
                decreases m - j,
            {
                if signs[j] == Sign3::Below && parents[j] == Some(cid) {
                    inners.push(j);
                }
                j = j + 1;
            }
            cells.push(Cell { outer: li, inners });
        }
        li = li + 1;
    }
    proof {
        assert(hc@ =~= half_cells(lv, signs@, parents@, n as nat, 0));
    }
    let ghost ncells = cells@;
    let mut k: usize = 0;
    while k < m
        invariant
            m == loops.len(),
            signs.len() == m,
            parents.len() == m,
            k <= m,
            lv == loops@.map_values(|v: Vec<usize>| v@),
            forall|l: int, t: int| 0 <= l < loops.len() && 0 <= t < loops@[l].len() ==> #[trigger] loops@[l]@[t] < n,
            hc.len() == n,
            hc@ == half_cells(lv, signs@, parents@, n as nat, k as nat),
        decreases m - k,
    {
        if signs[k] == Sign3::Below {
            if let Some(c) = parents[k] {
                proof {
                    assert(lv[k as int] == loops@[k as int]@);
                }
                assign_chain(&mut hc, &loops[k], c);
            }
        }
        k = k + 1;
    }
    proof {
        let cs = cells_spec(signs@, parents@);
        assert forall|c: int| 0 <= c < cells.len() implies (#[trigger] cells@[c]).outer == cs[c].0 && cells@[c].inners@
            == cs[c].1 by {}
        lemma_cells_law(signs@, parents@);
        assert forall|l: int| 0 <= l < loops.len() && #[trigger] signs@[l] is Above implies exists|c: int|
            0 <= c < cells.len() && (#[trigger] cells@[c]).outer == l by {
            let c = choose|c: int| 0 <= c < cs.len() && (#[trigger] cs[c]).0 == l;
            assert(cells@[c].outer == cs[c].0);
        }
    }
    (cells, hc)
}

/// The cells are the positive loops in loop order, and each holds exactly
/// the negative loops attached to its number.
pub proof fn lemma_cells_law(signs: Seq<Sign3>, parents: Seq<Option<usize>>)
    requires
        signs.len() <= usize::MAX,
        parents.len() == signs.len(),
    ensures
        forall|c: int|
            0 <= c < cells_spec(signs, parents).len() ==> (#[trigger] cells_spec(signs, parents)[c]).0 < signs.len()
                && signs[cells_spec(signs, parents)[c].0 as int] is Above,
        forall|c1: int, c2: int|
            0 <= c1 < c2 < cells_spec(signs, parents).len() ==> (#[trigger] cells_spec(signs, parents)[c1]).0
                < (#[trigger] cells_spec(signs, parents)[c2]).0,
        forall|l: int|
            0 <= l < signs.len() && #[trigger] signs[l] is Above ==> exists|c: int|
                0 <= c < cells_spec(signs, parents).len() && (#[trigger] cells_spec(signs, parents)[c]).0 == l,
        forall|l: int|
            0 <= l < signs.len() && signs[l] is Below && (#[trigger] parents[l]) is Some && parents[l]->0
                < cells_spec(signs, parents).len() ==> cells_spec(signs, parents)[parents[l]->0 as int].1.contains(
                l as usize,
            ),
        forall|c: int, t: int|
            0 <= c < cells_spec(signs, parents).len() && 0 <= t < cells_spec(signs, parents)[c].1.len() ==> (
            #[trigger] cells_spec(signs, parents)[c].1[t]) < signs.len() && signs[cells_spec(signs, parents)[c].1[t] as int] is Below
                && parents[cells_spec(signs, parents)[c].1[t] as int] == Some(c as usize),
{
    let cs = cells_spec(signs, parents);
    let os = positions_where(outer_pred(signs), signs.len());
    lemma_positions_where(outer_pred(signs), signs.len());
    assert forall|c: int| 0 <= c < cs.len() implies (#[trigger] cs[c]).0 < signs.len() && signs[cs[c].0 as int] is Above by {
        assert(cs[c].0 == os[c]);
        assert(outer_pred(signs)(os[c] as int));
    }
    assert forall|c1: int, c2: int| 0 <= c1 < c2 < cs.len() implies (#[trigger] cs[c1]).0 < (#[trigger] cs[c2]).0 by {
        assert(cs[c1].0 == os[c1] && cs[c2].0 == os[c2]);
    }
    assert forall|l: int| 0 <= l < signs.len() && #[trigger] signs[l] is Above implies exists|c: int|
        0 <= c < cs.len() && (#[trigger] cs[c]).0 == l by {
        assert(outer_pred(signs)(l));
        assert(os.contains(l as usize));
        let c = os.index_of(l as usize);
        assert(cs[c].0 == os[c]);
    }
    assert forall|l: int|
        0 <= l < signs.len() && signs[l] is Below && (#[trigger] parents[l]) is Some && parents[l]->0 < cs.len() implies cs[parents[l]->0 as int].1.contains(
        l as usize,
    ) by {
        let c = parents[l]->0 as int;
        lemma_positions_where(hole_pred(signs, parents, c), signs.len());
        assert(hole_pred(signs, parents, c)(l));
        assert(cs[c].1 == positions_where(hole_pred(signs, parents, c), signs.len()));
    }
    assert forall|c: int, t: int| 0 <= c < cs.len() && 0 <= t < cs[c].1.len() implies (#[trigger] cs[c].1[t])
        < signs.len() && signs[cs[c].1[t] as int] is Below && parents[cs[c].1[t] as int] == Some(c as usize) by {
        lemma_positions_where(hole_pred(signs, parents, c), signs.len());
        assert(cs[c].1 == positions_where(hole_pred(signs, parents, c), signs.len()));
        assert(hole_pred(signs, parents, c)(cs[c].1[t] as int));
    }
}

/// The cells on the two sides of each of the first `n_edges` edges: edge `e`
/// runs along half-edge `2e` with its twin `2e + 1`, so its left cell is that
/// of `2e` and its right cell that of `2e + 1`.
pub fn edge_sides(half_cell: &Vec<Option<usize>>, n_edges: usize) -> (sides: Vec<(Option<usize>, Option<usize>)>)
    requires
        2 * n_edges <= half_cell.len(),
    ensures
        sides.len() == n_edges,
        forall|e: int| 0 <= e < n_edges ==> #[trigger] sides@[e] == (half_cell@[2 * e], half_cell@[2 * e + 1]),
{
    let mut sides: Vec<(Option<usize>, Option<usize>)> = Vec::new();
    let mut e: usize = 0;
    while e < n_edges
        invariant
            2 * n_edges <= half_cell.len(),
            e <= n_edges,
            sides.len() == e,
            forall|q: int| 0 <= q < e ==> #[trigger] sides@[q] == (half_cell@[2 * q], half_cell@[2 * q + 1]),
        decreases n_edges - e,
    {
        sides.push((half_cell[2 * e], half_cell[2 * e + 1]));
        e = e + 1;
    }
    sides
}


/// No half-edge lies on two loops.
pub open spec fn loops_disjoint(loops: Seq<Seq<usize>>) -> bool {
    forall|l1: int, l2: int, t1: int, t2: int|
        0 <= l1 < loops.len() && 0 <= l2 < loops.len() && 0 <= t1 < loops[l1].len() && 0 <= t2 < loops[l2].len()
            && #[trigger] loops[l1][t1] == #[trigger] loops[l2][t2] ==> l1 == l2
}

proof fn lemma_outer_cells_keep(loops: Seq<Seq<usize>>, signs: Seq<Sign3>, n: nat, li: int, h: int, k: nat)
    requires
        loops_disjoint(loops),
        signs.len() == loops.len(),
        0 <= li < k <= loops.len(),
        signs[li] is Above,
        0 <= h < n,
        loops[li].contains(h as usize),
    ensures
        outer_cells(loops, signs, n, k).len() == n,
        outer_cells(loops, signs, n, k)[h] == Some(positions_where(outer_pred(signs), li as nat).len() as usize),
    decreases k,
{
    lemma_outer_cells_len(loops, signs, n, (k - 1) as nat);
    if k - 1 > li {
        lemma_outer_cells_keep(loops, signs, n, li, h, (k - 1) as nat);
        if loops[k - 1].contains(h as usize) {
            let t1 = loops[li].index_of(h as usize);
            let t2 = loops[k - 1].index_of(h as usize);
            assert(loops[li][t1] == loops[k - 1][t2]);
        }
    }
}

proof fn lemma_outer_cells_len(loops: Seq<Seq<usize>>, signs: Seq<Sign3>, n: nat, k: nat)
    ensures
        outer_cells(loops, signs, n, k).len() == n,
    decreases k,
{
    if k > 0 {
        lemma_outer_cells_len(loops, signs, n, (k - 1) as nat);
    }
}

proof fn lemma_half_cells_keep(
    loops: Seq<Seq<usize>>,
    signs: Seq<Sign3>,
    parents: Seq<Option<usize>>,
    n: nat,
    li: int,
    h: int,
    k: nat,
)
    requires
        loops_disjoint(loops),
        signs.len() == loops.len(),
        0 <= li < loops.len(),
        k <= loops.len(),
        0 <= h < n,
        loops[li].contains(h as usize),
        outer_cells(loops, signs, n, loops.len()).len() == n,
        !(signs[li] is Below && parents[li] is Some) || li >= k,
    ensures
        half_cells(loops, signs, parents, n, k)[h] == outer_cells(loops, signs, n, loops.len())[h],
        half_cells(loops, signs, parents, n, k).len() == n,
    decreases k,
{
    if k > 0 {
        lemma_half_cells_keep(loops, signs, parents, n, li, h, (k - 1) as nat);
        if signs[k - 1] is Below && parents[k - 1] is Some && loops[k - 1].contains(h as usize) {
            let t1 = loops[li].index_of(h as usize);
            let t2 = loops[k - 1].index_of(h as usize);
            assert(loops[li][t1] == loops[k - 1][t2]);
        }
    }
}

proof fn lemma_hole_cells_keep(
    loops: Seq<Seq<usize>>,
    signs: Seq<Sign3>,
    parents: Seq<Option<usize>>,
    n: nat,
    li: int,
    h: int,
    k: nat,
)
    requires
        loops_disjoint(loops),
        signs.len() == loops.len(),
        0 <= li < k <= loops.len(),
        0 <= h < n,
        loops[li].contains(h as usize),
        signs[li] is Below,
        parents[li] is Some,
    ensures
        half_cells(loops, signs, parents, n, k)[h] == parents[li],
    decreases k,
{
    lemma_outer_cells_len(loops, signs, n, loops.len());
    lemma_half_cells_len(loops, signs, parents, n, (k - 1) as nat);
    if k - 1 > li {
        lemma_hole_cells_keep(loops, signs, parents, n, li, h, (k - 1) as nat);
        if signs[k - 1] is Below && parents[k - 1] is Some && loops[k - 1].contains(h as usize) {
            let t1 = loops[li].index_of(h as usize);
            let t2 = loops[k - 1].index_of(h as usize);
            assert(loops[li][t1] == loops[k - 1][t2]);
        }
    } else {
        lemma_half_cells_keep(loops, signs, parents, n, li, h, li as nat);
    }
}

proof fn lemma_half_cells_len(loops: Seq<Seq<usize>>, signs: Seq<Sign3>, parents: Seq<Option<usize>>, n: nat, k: nat)
    ensures
        half_cells(loops, signs, parents, n, k).len() == n,
    decreases k,
{
    if k == 0 {
        lemma_outer_cells_len(loops, signs, n, loops.len());
    } else {
        lemma_half_cells_len(loops, signs, parents, n, (k - 1) as nat);
    }
}

/// With no half-edge on two loops, every half-edge of a positive loop has
/// that loop's own cell on its left, and every half-edge of an attached
/// negative loop has the cell it is a hole of.
pub proof fn lemma_cell_sides(loops: Seq<Seq<usize>>, signs: Seq<Sign3>, parents: Seq<Option<usize>>, n: nat)
    requires
        loops_disjoint(loops),
        signs.len() == loops.len(),
        forall|l: int, t: int| 0 <= l < loops.len() && 0 <= t < loops[l].len() ==> #[trigger] loops[l][t] < n,
    ensures
        forall|l: int, t: int|
            0 <= l < loops.len() && 0 <= t < loops[l].len() && signs[l] is Above ==> #[trigger] half_cells(
                loops,
                signs,
                parents,
                n,
                loops.len(),
            )[loops[l][t] as int] == Some(positions_where(outer_pred(signs), l as nat).len() as usize),
        forall|l: int, t: int|
            0 <= l < loops.len() && 0 <= t < loops[l].len() && signs[l] is Below && parents[l] is Some
                ==> #[trigger] half_cells(loops, signs, parents, n, loops.len())[loops[l][t] as int] == parents[l],
{
    lemma_outer_cells_len(loops, signs, n, loops.len());
    assert forall|l: int, t: int|
        0 <= l < loops.len() && 0 <= t < loops[l].len() && signs[l] is Above implies #[trigger] half_cells(
            loops,
            signs,
            parents,
            n,
            loops.len(),
        )[loops[l][t] as int] == Some(positions_where(outer_pred(signs), l as nat).len() as usize) by {
        let h = loops[l][t] as int;
        assert(loops[l].contains(h as usize));
        lemma_outer_cells_keep(loops, signs, n, l, h, loops.len());
        lemma_half_cells_keep(loops, signs, parents, n, l, h, loops.len());
    }
    assert forall|l: int, t: int|
        0 <= l < loops.len() && 0 <= t < loops[l].len() && signs[l] is Below && parents[l] is Some
            implies #[trigger] half_cells(loops, signs, parents, n, loops.len())[loops[l][t] as int] == parents[l] by {
        let h = loops[l][t] as int;
        assert(loops[l].contains(h as usize));
        lemma_hole_cells_keep(loops, signs, parents, n, l, h, loops.len());
    }
}

} // verus!
