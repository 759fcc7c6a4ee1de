//! Which faces a thick panel's tessellation emits for its grid of cells.
//!
//! The panel's parameter rectangle is cut into an `nt × nz` grid; each cell is
//! material or void. Every material cell emits its outer and inner faces, and
//! a side face on each of its four sides that borders the grid's edge or a
//! void cell, so that the side faces are exactly the material/void
//! interfaces.

use vstd::prelude::*;

verus! {

/// A material cell and which of its four sides get a side face.
#[derive(Debug, Clone, Copy, PartialEq, Eq, Structural)]
pub struct CellFaces {
    /// The cell's column along the angle.
    pub i: usize,
    /// The cell's row along the height.
    pub j: usize,
    /// A side face at the cell's lower angle.
    pub theta_lo: bool,
    /// A side face at the cell's upper angle.
    pub theta_hi: bool,
    /// A side face at the cell's lower height.
    pub z_lo: bool,
    /// A side face at the cell's upper height.
    pub z_hi: bool,
}

/// Whether the grid holds material at `(i, j)`; outside the grid is void.
pub open spec fn solid(m: Seq<Seq<bool>>, i: int, j: int) -> bool {
    0 <= i < m.len() && 0 <= j < m[i].len() && m[i][j]
}

/// The faces of material cell `(i, j)`.
pub open spec fn cell_faces(m: Seq<Seq<bool>>, i: int, j: int) -> CellFaces {
    CellFaces {
        i: i as usize,
        j: j as usize,
        theta_lo: !solid(m, i - 1, j),
        theta_hi: !solid(m, i + 1, j),
        z_lo: !solid(m, i, j - 1),
        z_hi: !solid(m, i, j + 1),
    }
}

/// The faces of the material cells of column `i` below row `j`, in order.
pub open spec fn row_faces(m: Seq<Seq<bool>>, i: int, j: int) -> Seq<CellFaces>
    decreases j,
{
    if j <= 0 {
        Seq::empty()
    } else if m[i][j - 1] {
        row_faces(m, i, j - 1).push(cell_faces(m, i, j - 1))
    } else {
        row_faces(m, i, j - 1)
    }
}

/// The faces of the material cells in the first `i` columns, column by
/// column.
pub open spec fn grid_faces(m: Seq<Seq<bool>>, nz: int, i: int) -> Seq<CellFaces>
    decreases i,
{
    if i <= 0 {
        Seq::empty()
    } else {
        grid_faces(m, nz, i - 1) + row_faces(m, i - 1, nz)
    }
}

/// Cell `a` comes before cell `b` in column-then-row order.
pub open spec fn cell_before(a: CellFaces, b: CellFaces) -> bool {
    a.i < b.i || (a.i == b.i && a.j < b.j)
}

proof fn lemma_row_faces(m: Seq<Seq<bool>>, i: int, j: int)
    requires
        0 <= i < m.len() <= usize::MAX,
        0 <= j <= m[i].len() <= usize::MAX,
    ensures
        forall|t: int|
            0 <= t < row_faces(m, i, j).len() ==> (#[trigger] row_faces(m, i, j)[t]).i == i && row_faces(m, i, j)[t].j < j
                && m[i][row_faces(m, i, j)[t].j as int] && row_faces(m, i, j)[t] == cell_faces(m, i, row_faces(m, i, j)[t].j as int),
        forall|t1: int, t2: int|
            0 <= t1 < t2 < row_faces(m, i, j).len() ==> (#[trigger] row_faces(m, i, j)[t1]).j < (#[trigger] row_faces(m, i, j)[t2]).j,
        forall|jj: int|
            0 <= jj < j && #[trigger] m[i][jj] ==> exists|t: int|
                0 <= t < row_faces(m, i, j).len() && (#[trigger] row_faces(m, i, j)[t]).j == jj,
    decreases j,
{
    if j > 0 {
        lemma_row_faces(m, i, j - 1);
        let prev = row_faces(m, i, j - 1);
        let cur = row_faces(m, i, j);
        if m[i][j - 1] {
            let c = cell_faces(m, i, j - 1);
            assert(cur == prev.push(c));
            assert forall|t: int| 0 <= t < cur.len() implies (#[trigger] cur[t]).i == i && cur[t].j < j && m[i][cur[t].j as int]
                && cur[t] == cell_faces(m, i, cur[t].j as int) by {
                if t < prev.len() {
                    assert(cur[t] == prev[t]);
                }
            }
            assert forall|t1: int, t2: int| 0 <= t1 < t2 < cur.len() implies (#[trigger] cur[t1]).j < (#[trigger] cur[t2]).j by {
                assert(cur[t1] == prev[t1]);
                if t2 < prev.len() {
                    assert(cur[t2] == prev[t2]);
                }
            }
            assert forall|jj: int| 0 <= jj < j && #[trigger] m[i][jj] implies exists|t: int|
                0 <= t < cur.len() && (#[trigger] cur[t]).j == jj by {
                if jj == j - 1 {
                    assert(cur[prev.len() as int].j == jj);
                } else {
                    let t = choose|t: int| 0 <= t < prev.len() && (#[trigger] prev[t]).j == jj;
                    assert(cur[t] == prev[t]);
                }
            }
        }
    }
}

proof fn lemma_grid_faces(m: Seq<Seq<bool>>, nz: int, i: int)
    requires
        0 <= i <= m.len() <= usize::MAX,
        0 <= nz <= usize::MAX,
        forall|r: int| 0 <= r < m.len() ==> (#[trigger] m[r]).len() == nz,
    ensures
        forall|t: int|
            0 <= t < grid_faces(m, nz, i).len() ==> (#[trigger] grid_faces(m, nz, i)[t]).i < i && grid_faces(m, nz, i)[t].j < nz
                && m[grid_faces(m, nz, i)[t].i as int][grid_faces(m, nz, i)[t].j as int] && grid_faces(m, nz, i)[t] == cell_faces(
                m,
                grid_faces(m, nz, i)[t].i as int,
                grid_faces(m, nz, i)[t].j as int,
            ),
        forall|t1: int, t2: int|
            0 <= t1 < t2 < grid_faces(m, nz, i).len() ==> cell_before(
                #[trigger] grid_faces(m, nz, i)[t1],
                #[trigger] grid_faces(m, nz, i)[t2],
            ),
        forall|ii: int, jj: int|
            0 <= ii < i && 0 <= jj < nz && #[trigger] m[ii][jj] ==> exists|t: int|
                0 <= t < grid_faces(m, nz, i).len() && (#[trigger] grid_faces(m, nz, i)[t]).i == ii && grid_faces(m, nz, i)[t].j
                    == jj,
    decreases i,
{
    if i > 0 {
        lemma_grid_faces(m, nz, i - 1);
        lemma_row_faces(m, i - 1, nz);
        let a = grid_faces(m, nz, i - 1);
        let b = row_faces(m, i - 1, nz);
        let g = grid_faces(m, nz, i);
        assert(g == a + b);
        assert forall|t: int| 0 <= t < g.len() implies (#[trigger] g[t]).i < i && g[t].j < nz && m[g[t].i as int][g[t].j as int]
            && g[t] == cell_faces(m, g[t].i as int, g[t].j as int) by {
            if t < a.len() {
                assert(g[t] == a[t]);
            } else {
                assert(g[t] == b[t - a.len()]);
            }
        }
        assert forall|t1: int, t2: int| 0 <= t1 < t2 < g.len() implies cell_before(#[trigger] g[t1], #[trigger] g[t2]) by {
            if t2 < a.len() {
                assert(g[t1] == a[t1] && g[t2] == a[t2]);
            } else if t1 < a.len() {
                assert(g[t1] == a[t1] && g[t2] == b[t2 - a.len()]);
            } else {
                assert(g[t1] == b[t1 - a.len()] && g[t2] == b[t2 - a.len()]);
            }
        }
        assert forall|ii: int, jj: int| 0 <= ii < i && 0 <= jj < nz && #[trigger] m[ii][jj] implies exists|t: int|
            0 <= t < g.len() && (#[trigger] g[t]).i == ii && g[t].j == jj by {
            if ii < i - 1 {
                let t = choose|t: int| 0 <= t < a.len() && (#[trigger] a[t]).i == ii && a[t].j == jj;
                assert(g[t] == a[t]);
            } else {
                let t = choose|t: int| 0 <= t < b.len() && (#[trigger] b[t]).j == jj;
                assert(g[t + a.len()] == b[t]);
            }
        }
    }
}

/// The tessellation emits each material cell exactly once, and nothing
/// else: every entry is a material cell of the grid with its side faces
/// where it borders the grid's edge or a void cell, the entries run in
/// column-then-row order, and every material cell has an entry, whatever
/// its neighbours.
pub proof fn lemma_boundary_cells_law(m: Seq<Seq<bool>>, nz: int)
    requires
        m.len() <= usize::MAX,
        0 <= nz <= usize::MAX,
        forall|r: int| 0 <= r < m.len() ==> (#[trigger] m[r]).len() == nz,
    ensures
        forall|t: int|
            0 <= t < grid_faces(m, nz, m.len() as int).len() ==> solid(
                m,
                (#[trigger] grid_faces(m, nz, m.len() as int)[t]).i as int,
                grid_faces(m, nz, m.len() as int)[t].j as int,
            ) && grid_faces(m, nz, m.len() as int)[t] == cell_faces(
                m,
                grid_faces(m, nz, m.len() as int)[t].i as int,
                grid_faces(m, nz, m.len() as int)[t].j as int,
            ),
        forall|t1: int, t2: int|
            0 <= t1 < t2 < grid_faces(m, nz, m.len() as int).len() ==> cell_before(
                #[trigger] grid_faces(m, nz, m.len() as int)[t1],
                #[trigger] grid_faces(m, nz, m.len() as int)[t2],
            ),
        forall|i: int, j: int|
            #[trigger] solid(m, i, j) ==> exists|t: int|
                0 <= t < grid_faces(m, nz, m.len() as int).len() && (#[trigger] grid_faces(m, nz, m.len() as int)[t]).i == i
                    && grid_faces(m, nz, m.len() as int)[t].j == j,
{
    lemma_grid_faces(m, nz, m.len() as int);
    let g = grid_faces(m, nz, m.len() as int);
    assert forall|i: int, j: int| #[trigger] solid(m, i, j) implies exists|t: int|
        0 <= t < g.len() && (#[trigger] g[t]).i == i && g[t].j == j by {
        assert(m[i][j]);
    }
}

/// The views of the grid's columns.
pub open spec fn rows_of(material: Seq<Vec<bool>>) -> Seq<Seq<bool>> {
    material.map_values(|r: Vec<bool>| r@)
}

/// The faces the tessellation emits, material cell by material cell, column
/// by column: each material cell with a side face on every side that
/// borders the grid's edge or a void cell.
pub fn boundary_cells(material: &Vec<Vec<bool>>, nz: usize) -> (cells: Vec<CellFaces>)
    requires
        forall|i: int| 0 <= i < material.len() ==> (#[trigger] material@[i]).len() == nz,
    ensures
        cells@ == grid_faces(rows_of(material@), nz as int, material.len() as int),
        // Every material cell has an entry, whatever its neighbours.
        forall|i: int, j: int|
            0 <= i < material.len() && 0 <= j < nz && #[trigger] material@[i]@[j] ==> exists|t: int|
                0 <= t < cells.len() && (#[trigger] cells@[t]).i == i && cells@[t].j == j,
        // Every entry is a material cell, with a side face exactly where it
        // borders the grid's edge or a void cell.
        forall|t: int|
            0 <= t < cells.len() ==> (#[trigger] cells@[t]).i < material.len() && cells@[t].j < nz
                && material@[cells@[t].i as int]@[cells@[t].j as int] && cells@[t] == cell_faces(
                rows_of(material@),
                cells@[t].i as int,
                cells@[t].j as int,
            ),
        // The entries run in column-then-row order, each cell once.
        forall|t1: int, t2: int| 0 <= t1 < t2 < cells.len() ==> cell_before(#[trigger] cells@[t1], #[trigger] cells@[t2]),
        // A side face stands on each side that borders the grid's edge or a
        // void cell, and on no other.
        forall|t: int|
            0 <= t < cells.len() ==> {
                let c = #[trigger] cells@[t];
                &&& c.theta_lo == !(c.i > 0 && material@[c.i - 1]@[c.j as int])
                &&& c.theta_hi == !(c.i + 1 < material.len() && material@[c.i + 1]@[c.j as int])
                &&& c.z_lo == !(c.j > 0 && material@[c.i as int]@[c.j - 1])
                &&& c.z_hi == !(c.j + 1 < nz && material@[c.i as int]@[c.j + 1])
            },
{
    let ghost m = rows_of(material@);
    let nt = material.len();
    let mut cells: Vec<CellFaces> = Vec::new();
    let mut i: usize = 0;
    while i < nt
        invariant
            nt == material.len(),
            m == rows_of(material@),
            forall|r: int| 0 <= r < material.len() ==> (#[trigger] material@[r]).len() == nz,
            i <= nt,
            cells@ == grid_faces(m, nz as int, i as int),
        decreases nt - i,
    {
        let ghost base = cells@;
        let mut j: usize = 0;
        while j < nz
            invariant
                nt == material.len(),
                m == rows_of(material@),
                forall|r: int| 0 <= r < material.len() ==> (#[trigger] material@[r]).len() == nz,
                i < nt,
                j <= nz,
                cells@ == base + row_faces(m, i as int, j as int),
            decreases nz - j,
        {
            proof {
                assert(m[i as int] == material@[i as int]@);
            }
            if material[i][j] {
                let theta_lo = !(i > 0 && material[i - 1][j]);
                let theta_hi = !(i + 1 < nt && material[i + 1][j]);
                let z_lo = !(j > 0 && material[i][j - 1]);
                let z_hi = !(j + 1 < nz && material[i][j + 1]);
                let c = CellFaces { i, j, theta_lo, theta_hi, z_lo, z_hi };
                proof {
                    if i > 0 {
                        assert(m[i - 1] == material@[i - 1]@);
                    }
                    if i + 1 < nt {
                        assert(m[i + 1] == material@[i + 1]@);
                    }
                    assert(c == cell_faces(m, i as int, j as int));
                }
                cells.push(c);
                proof {
                    assert(cells@ =~= base + row_faces(m, i as int, j + 1));
                }
            }
            j = j + 1;
        }
        i = i + 1;
    }
    proof {
        assert forall|r: int| 0 <= r < m.len() implies (#[trigger] m[r]).len() == nz by {
            assert(m[r] == material@[r]@);
        }
        lemma_boundary_cells_law(m, nz as int);
        assert forall|i: int, j: int|
            0 <= i < material.len() && 0 <= j < nz && #[trigger] material@[i]@[j] implies exists|t: int|
            0 <= t < cells.len() && (#[trigger] cells@[t]).i == i && cells@[t].j == j by {
            assert(m[i] == material@[i]@);
            assert(solid(m, i, j));
        }
        assert forall|t: int| 0 <= t < cells.len() implies (#[trigger] cells@[t]).i < material.len() && cells@[t].j < nz
            && material@[cells@[t].i as int]@[cells@[t].j as int] && cells@[t] == cell_faces(
            m,
            cells@[t].i as int,
            cells@[t].j as int,
        ) by {
            assert(solid(m, cells@[t].i as int, cells@[t].j as int));
            assert(m[cells@[t].i as int] == material@[cells@[t].i as int]@);
        }
        assert forall|t: int| 0 <= t < cells.len() implies {
            let c = #[trigger] cells@[t];
            &&& c.theta_lo == !(c.i > 0 && material@[c.i - 1]@[c.j as int])
            &&& c.theta_hi == !(c.i + 1 < material.len() && material@[c.i + 1]@[c.j as int])
            &&& c.z_lo == !(c.j > 0 && material@[c.i as int]@[c.j - 1])
            &&& c.z_hi == !(c.j + 1 < nz && material@[c.i as int]@[c.j + 1])
        } by {
            let c = cells@[t];
            let i = c.i as int;
            let j = c.j as int;
            assert(c == cell_faces(m, i, j));
            assert(m[i] == material@[i]@);
            if i > 0 {
                assert(m[i - 1] == material@[i - 1]@);
            }
            if i + 1 < material.len() {
                assert(m[i + 1] == material@[i + 1]@);
            }
        }
    }
    cells
}

} // verus!
