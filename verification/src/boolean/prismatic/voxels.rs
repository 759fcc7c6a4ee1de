//! The faces of a prismatic boolean result, from the residency of its voxels.
//!
//! The solid is the set of resident `cell × band` voxels of the shared
//! arrangement. Its boundary has two kinds of face:
//!
//! * a **wall** for each arrangement edge and band where the two cells across
//!   the edge differ in residency (no cell counts as not resident), with the
//!   material on the resident side;
//! * an **interface** for each cell and level `0..=bands` where residency
//!   differs between the band below (empty below the bottom) and the band
//!   above (empty above the top), facing up when the material is below.
//!
//! A voxel is resident when the keep rule accepts the flags `inside ∧
//! present` of its operands: the cell lies inside the operand's section and
//! the band inside its axial extent. Before any face is built, the boundary
//! complexity is checked against the budget.

use vstd::prelude::*;

use crate::boolean::poly2d::classify::{keep_spec, Op};
use crate::boolean::prismatic::error::PrismError;
use crate::boolean::prismatic::plan::opening_residency;

verus! {

/// One face of the voxel boundary.
#[derive(Debug, Clone, Copy, PartialEq, Eq, Structural)]
pub enum VoxelFace {
    /// The wall along arrangement edge `edge` over band `band`.
    Wall {
        /// The arrangement edge.
        edge: usize,
        /// The band.
        band: usize,
        /// Whether the material lies on the edge's left.
        material_on_left: bool,
    },
    /// The interface of cell `cell` at level `level` (the bottom of band
    /// `level`, or the top of the last band).
    Interface {
        /// The arrangement cell.
        cell: usize,
        /// The level.
        level: usize,
        /// Whether the face looks up (the material is below it).
        up: bool,
    },
}

/// Whether the cell on a side of an edge is resident in band `k`; no cell is
/// not resident.
pub open spec fn side_resident(resident: Seq<Seq<bool>>, side: Option<usize>, k: int) -> bool {
    match side {
        Some(c) => resident[c as int][k],
        None => false,
    }
}

/// The walls of edge `e` over the bands before `k`.
pub open spec fn edge_walls(sides: Seq<(Option<usize>, Option<usize>)>, resident: Seq<Seq<bool>>, e: int, k: int) -> Seq<
    VoxelFace,
>
    decreases k,
{
    if k <= 0 {
        Seq::empty()
    } else {
        let prev = edge_walls(sides, resident, e, k - 1);
        let l = side_resident(resident, sides[e].0, k - 1);
        let r = side_resident(resident, sides[e].1, k - 1);
        if l != r {
            prev.push(VoxelFace::Wall { edge: e as usize, band: (k - 1) as usize, material_on_left: l })
        } else {
            prev
        }
    }
}

/// The walls of the edges before `e`, edge by edge.
pub open spec fn walls_upto(sides: Seq<(Option<usize>, Option<usize>)>, resident: Seq<Seq<bool>>, n_bands: int, e: int) -> Seq<
    VoxelFace,
>
    decreases e,
{
    if e <= 0 {
        Seq::empty()
    } else {
        walls_upto(sides, resident, n_bands, e - 1) + edge_walls(sides, resident, e - 1, n_bands)
    }
}

/// The interface of cell `c` at level `k`, if residency differs across it.
pub open spec fn level_interface(resident: Seq<Seq<bool>>, n_bands: int, c: int, k: int) -> Seq<VoxelFace> {
    let below = k > 0 && resident[c][k - 1];
    let above = k < n_bands && resident[c][k];
    if below != above {
        seq![VoxelFace::Interface { cell: c as usize, level: k as usize, up: below }]
    } else {
        Seq::empty()
    }
}

/// The interfaces of cell `c` at the levels before `k`.
pub open spec fn cell_interfaces(resident: Seq<Seq<bool>>, n_bands: int, c: int, k: int) -> Seq<VoxelFace>
    decreases k,
{
    if k <= 0 {
        Seq::empty()
    } else {
        cell_interfaces(resident, n_bands, c, k - 1) + level_interface(resident, n_bands, c, k - 1)
    }
}

/// The interfaces of the cells before `c`, cell by cell, each over the
/// levels `0..=n_bands`.
pub open spec fn interfaces_upto(resident: Seq<Seq<bool>>, n_bands: int, c: int) -> Seq<VoxelFace>
    decreases c,
{
    if c <= 0 {
        Seq::empty()
    } else {
        interfaces_upto(resident, n_bands, c - 1) + cell_interfaces(resident, n_bands, c - 1, n_bands + 1)
    }
}

/// The views of the residency rows.
pub open spec fn rows_view(resident: Seq<Vec<bool>>) -> Seq<Seq<bool>> {
    resident.map_values(|r: Vec<bool>| r@)
}

/// The boundary faces of the resident voxels: the walls, edge by edge and
/// band by band, then the interfaces, cell by cell and level by level.
/// `sides` gives each arrangement edge's left and right cell (if any) and
/// `resident` each cell's residency per band.
pub fn voxel_faces(sides: &Vec<(Option<usize>, Option<usize>)>, resident: &Vec<Vec<bool>>, n_bands: usize) -> (faces: Vec<
    VoxelFace,
>)
    requires
        forall|c: int| 0 <= c < resident.len() ==> (#[trigger] resident@[c]).len() == n_bands,
        forall|e: int|
            0 <= e < sides.len() ==> ((#[trigger] sides@[e]).0 matches Some(c) ==> c < resident.len()) && (sides@[e].1 matches Some(
                c,
            ) ==> c < resident.len()),
    ensures
        faces@ == walls_upto(sides@, rows_view(resident@), n_bands as int, sides.len() as int) + interfaces_upto(
            rows_view(resident@),
            n_bands as int,
            resident.len() as int,
        ),
{
    let ghost rs = rows_view(resident@);
    let mut faces: Vec<VoxelFace> = Vec::new();
    let mut e: usize = 0;
    while e < sides.len()
        invariant
            rs == rows_view(resident@),
            forall|c: int| 0 <= c < resident.len() ==> (#[trigger] resident@[c]).len() == n_bands,
            forall|e2: int|
                0 <= e2 < sides.len() ==> ((#[trigger] sides@[e2]).0 matches Some(c) ==> c < resident.len()) && (
                sides@[e2].1 matches Some(c) ==> c < resident.len()),
            e <= sides.len(),
            faces@ == walls_upto(sides@, rs, n_bands as int, e as int),
        decreases sides.len() - e,
    {
        let ghost base = faces@;
        let (ls, rsd) = sides[e];
        let mut k: usize = 0;
        while k < n_bands
            invariant
                rs == rows_view(resident@),
                forall|c: int| 0 <= c < resident.len() ==> (#[trigger] resident@[c]).len() == n_bands,
                e < sides.len(),
                (ls, rsd) == sides@[e as int],
                ls matches Some(c) ==> c < resident.len(),
                rsd matches Some(c) ==> c < resident.len(),
                k <= n_bands,
                faces@ == base + edge_walls(sides@, rs, e as int, k as int),
            decreases n_bands - k,
        {
            let l = match ls {
                Some(c) => resident[c][k],
                None => false,
            };
            let r = match rsd {
                Some(c) => resident[c][k],
                None => false,
            };
            proof {
                if let Some(c) = ls {
                    assert(rs[c as int] == resident@[c as int]@);
                }
                if let Some(c) = rsd {
                    assert(rs[c as int] == resident@[c as int]@);
                }
                assert(l == side_resident(rs, ls, k as int));
                assert(r == side_resident(rs, rsd, k as int));
            }
            if l != r {
                faces.push(VoxelFace::Wall { edge: e, band: k, material_on_left: l });
            }
            proof {
                assert(faces@ =~= base + edge_walls(sides@, rs, e as int, k + 1));
            }
            k = k + 1;
        }
        e = e + 1;
    }
    let ghost walls = faces@;
    let mut c: usize = 0;
    while c < resident.len()
        invariant
            rs == rows_view(resident@),
            forall|c2: int| 0 <= c2 < resident.len() ==> (#[trigger] resident@[c2]).len() == n_bands,
            c <= resident.len(),
            faces@ == walls + interfaces_upto(rs, n_bands as int, c as int),
        decreases resident.len() - c,
    {
        let ghost base = faces@;
        let row = &resident[c];
        proof {
            assert(rs[c as int] == row@);
        }
        let mut k: usize = 0;
        while k < n_bands
            invariant
                rs == rows_view(resident@),
                c < resident.len(),
                rs[c as int] == row@,
                row.len() == n_bands,
                k <= n_bands,
                faces@ == base + cell_interfaces(rs, n_bands as int, c as int, k as int),
            decreases n_bands - k,
        {
            let below = k > 0 && row[k - 1];
            let above = row[k];
            if below != above {
                faces.push(VoxelFace::Interface { cell: c, level: k, up: below });
            }
            proof {
                assert(faces@ =~= base + cell_interfaces(rs, n_bands as int, c as int, k + 1));
            }
            k = k + 1;
        }
        // The top level: the last band below, nothing above.
        let below = n_bands > 0 && row[n_bands - 1];
        if below {
            faces.push(VoxelFace::Interface { cell: c, level: n_bands, up: true });
        }
        proof {
            assert(faces@ =~= base + cell_interfaces(rs, n_bands as int, c as int, n_bands + 1));
        }
        proof {
            assert(faces@ =~= walls + interfaces_upto(rs, n_bands as int, c + 1));
        }
        c = c + 1;
    }
    faces
}

/// The boundary complexity of a voxel build: walls (edges times bands, at
/// least one band) plus interfaces (cells times levels), each product
/// saturating at `usize::MAX`.
pub open spec fn complexity(n_edges: int, n_cells: int, n_bands: int) -> int {
    let walls = n_edges * if n_bands > 1 { n_bands } else { 1 };
    let ifaces = n_cells * (n_bands + 1);
    (if walls > usize::MAX { usize::MAX as int } else { walls }) + (if ifaces > usize::MAX {
        usize::MAX as int
    } else {
        ifaces
    })
}

/// Check the boundary complexity against the budget: the measure when it
/// fits, `ComplexityLimit` with the measure and the budget when it exceeds
/// it.
pub fn check_budget(n_edges: usize, n_cells: usize, n_bands: usize, budget: usize) -> (r: Result<usize, PrismError>)
    requires
        n_bands < usize::MAX,
        complexity(n_edges as int, n_cells as int, n_bands as int) <= usize::MAX,
    ensures
        complexity(n_edges as int, n_cells as int, n_bands as int) > budget ==> r == Err::<usize, PrismError>(
            PrismError::ComplexityLimit {
                measure: complexity(n_edges as int, n_cells as int, n_bands as int) as usize,
                budget,
            },
        ),
        complexity(n_edges as int, n_cells as int, n_bands as int) <= budget ==> r == Ok::<usize, PrismError>(
            complexity(n_edges as int, n_cells as int, n_bands as int) as usize,
        ),
{
    let per_edge = if n_bands > 1 { n_bands } else { 1 };
    let walls = match n_edges.checked_mul(per_edge) {
        Some(x) => x,
        None => usize::MAX,
    };
    let ifaces = match n_cells.checked_mul(n_bands + 1) {
        Some(x) => x,
        None => usize::MAX,
    };
    proof {
        assert(walls == if n_edges * per_edge > usize::MAX { usize::MAX as int } else { n_edges * per_edge });
        assert(ifaces == if n_cells * (n_bands + 1) > usize::MAX { usize::MAX as int } else { n_cells * (n_bands + 1) });
    }
    let measure = walls + ifaces;
    if measure > budget {
        return Err(PrismError::ComplexityLimit { measure, budget });
    }
    Ok(measure)
}


/// How the operands' flags of a voxel decide its residency.
#[derive(Debug, Clone, Copy, PartialEq, Eq, Structural)]
pub enum KeepRule {
    /// A binary boolean of the first two operands.
    Binary(Op),
    /// The base (operand 0) with every other operand an opening cut from it.
    Openings,
}

/// Whether `rule` keeps a voxel whose operand flags are `flags`.
pub open spec fn rule_keeps(rule: KeepRule, flags: Seq<bool>) -> bool {
    match rule {
        KeepRule::Binary(op) => keep_spec(op, flags[0], flags[1]),
        KeepRule::Openings => flags[0] && forall|i: int| 1 <= i < flags.len() ==> !#[trigger] flags[i],
    }
}

/// The residency of every cell in every band: the rule applied to the flags
/// `inside[c][i] ∧ present[k][i]` of the `n_ops` operands.
pub open spec fn residency_spec(inside: Seq<Seq<bool>>, present: Seq<Seq<bool>>, n_ops: nat, rule: KeepRule) -> Seq<
    Seq<bool>,
> {
    Seq::new(
        inside.len(),
        |c: int|
            Seq::new(
                present.len(),
                |k: int| rule_keeps(rule, Seq::new(n_ops, |i: int| inside[c][i] && present[k][i])),
            ),
    )
}

/// What the operand count must be for the rule.
pub open spec fn rule_fits(rule: KeepRule, n_ops: nat) -> bool {
    match rule {
        KeepRule::Binary(_) => n_ops >= 2,
        KeepRule::Openings => n_ops >= 1,
    }
}

/// Decide the residency of every voxel: for cell `c` and band `k`, the rule
/// applied to each operand's flag `inside[c][i] ∧ present[k][i]`.
pub fn voxel_residency(inside: &Vec<Vec<bool>>, present: &Vec<Vec<bool>>, n_ops: usize, rule: KeepRule) -> (resident: Vec<
    Vec<bool>,
>)
    requires
        rule_fits(rule, n_ops as nat),
        forall|c: int| 0 <= c < inside.len() ==> (#[trigger] inside@[c]).len() == n_ops,
        forall|k: int| 0 <= k < present.len() ==> (#[trigger] present@[k]).len() == n_ops,
    ensures
        rows_view(resident@) == residency_spec(rows_view(inside@), rows_view(present@), n_ops as nat, rule),
        resident.len() == inside.len(),
        forall|c: int| 0 <= c < resident.len() ==> (#[trigger] resident@[c]).len() == present.len(),
{
    let ghost ins = rows_view(inside@);
    let ghost pre = rows_view(present@);
    let ghost want = residency_spec(ins, pre, n_ops as nat, rule);
    let mut resident: Vec<Vec<bool>> = Vec::new();
    let mut c: usize = 0;
    while c < inside.len()
        invariant
            rule_fits(rule, n_ops as nat),
            ins == rows_view(inside@),
            pre == rows_view(present@),
            want == residency_spec(ins, pre, n_ops as nat, rule),
            forall|c2: int| 0 <= c2 < inside.len() ==> (#[trigger] inside@[c2]).len() == n_ops,
            forall|k: int| 0 <= k < present.len() ==> (#[trigger] present@[k]).len() == n_ops,
            c <= inside.len(),
            resident.len() == c,
            forall|c2: int| 0 <= c2 < c ==> (#[trigger] resident@[c2])@ == want[c2],
        decreases inside.len() - c,
    {
        let mut row: Vec<bool> = Vec::new();
        let mut k: usize = 0;
        while k < present.len()
            invariant
                rule_fits(rule, n_ops as nat),
                ins == rows_view(inside@),
                pre == rows_view(present@),
                want == residency_spec(ins, pre, n_ops as nat, rule),
                forall|c2: int| 0 <= c2 < inside.len() ==> (#[trigger] inside@[c2]).len() == n_ops,
                forall|k2: int| 0 <= k2 < present.len() ==> (#[trigger] present@[k2]).len() == n_ops,
                c < inside.len(),
                k <= present.len(),
                row.len() == k,
                forall|k2: int| 0 <= k2 < k ==> #[trigger] row@[k2] == want[c as int][k2],
            decreases present.len() - k,
        {
            let mut flags: Vec<bool> = Vec::new();
            let mut i: usize = 0;
            while i < n_ops
                invariant
                    forall|c2: int| 0 <= c2 < inside.len() ==> (#[trigger] inside@[c2]).len() == n_ops,
                    forall|k2: int| 0 <= k2 < present.len() ==> (#[trigger] present@[k2]).len() == n_ops,
                    c < inside.len(),
                    k < present.len(),
                    i <= n_ops,
                    flags@ == Seq::new(i as nat, |j: int| inside@[c as int]@[j] && present@[k as int]@[j]),
                decreases n_ops - i,
            {
                flags.push(inside[c][i] && present[k][i]);
                proof {
                    assert(flags@ =~= Seq::new((i + 1) as nat, |j: int| inside@[c as int]@[j] && present@[k as int]@[j]));
                }
                i = i + 1;
            }
            let ghost fl = Seq::new(n_ops as nat, |j: int| ins[c as int][j] && pre[k as int][j]);
            proof {
                assert(ins[c as int] == inside@[c as int]@);
                assert(pre[k as int] == present@[k as int]@);
                assert(flags@ =~= fl);
                assert(want[c as int][k as int] == rule_keeps(rule, fl));
            }
            let r = match rule {
                KeepRule::Binary(op) => op.keep(flags[0], flags[1]),
                KeepRule::Openings => opening_residency(flags.as_slice()),
            };
            row.push(r);
            k = k + 1;
        }
        proof {
            assert(row@ =~= want[c as int]);
        }
        resident.push(row);
        c = c + 1;
    }
    proof {
        assert(rows_view(resident@) =~= want);
    }
    resident
}

/// Plan the faces of a prismatic build from its arrangement (`sides` per
/// edge, `inside` per cell) and its bands (`present` per band): the budget
/// is checked first; with no band or no cell nothing survives (`None`);
/// otherwise the faces of the resident voxels.
pub fn voxel_plan(
    sides: &Vec<(Option<usize>, Option<usize>)>,
    inside: &Vec<Vec<bool>>,
    present: &Vec<Vec<bool>>,
    n_ops: usize,
    rule: KeepRule,
    budget: usize,
) -> (r: Result<Option<Vec<VoxelFace>>, PrismError>)
    requires
        rule_fits(rule, n_ops as nat),
        forall|c: int| 0 <= c < inside.len() ==> (#[trigger] inside@[c]).len() == n_ops,
        forall|k: int| 0 <= k < present.len() ==> (#[trigger] present@[k]).len() == n_ops,
        forall|e: int|
            0 <= e < sides.len() ==> ((#[trigger] sides@[e]).0 matches Some(c) ==> c < inside.len()) && (sides@[e].1 matches Some(
                c,
            ) ==> c < inside.len()),
        present.len() < usize::MAX,
        complexity(sides.len() as int, inside.len() as int, present.len() as int) <= usize::MAX,
    ensures
        ({
            let m = complexity(sides.len() as int, inside.len() as int, present.len() as int);
            let res = residency_spec(rows_view(inside@), rows_view(present@), n_ops as nat, rule);
            &&& m > budget ==> r == Err::<Option<Vec<VoxelFace>>, PrismError>(
                PrismError::ComplexityLimit { measure: m as usize, budget },
            )
            &&& m <= budget && (present.len() == 0 || inside.len() == 0) ==> (r matches Ok(None))
            &&& m <= budget && present.len() > 0 && inside.len() > 0 ==> (r matches Ok(Some(f)) && f@ == walls_upto(
                sides@,
                res,
                present.len() as int,
                sides.len() as int,
            ) + interfaces_upto(res, present.len() as int, inside.len() as int))
        }),
{
    match check_budget(sides.len(), inside.len(), present.len(), budget) {
        Err(e) => {
            return Err(e);
        },
        Ok(_) => {},
    }
    if present.len() == 0 || inside.len() == 0 {
        return Ok(None);
    }
    let resident = voxel_residency(inside, present, n_ops, rule);
    let faces = voxel_faces(sides, &resident, present.len());
    Ok(Some(faces))
}


/// A wall stands for edge `e` and band `k` when the cells across the edge
/// differ in residency there.
pub open spec fn wall_at(sides: Seq<(Option<usize>, Option<usize>)>, resident: Seq<Seq<bool>>, e: int, k: int) -> bool {
    side_resident(resident, sides[e].0, k) != side_resident(resident, sides[e].1, k)
}

/// An interface stands for cell `c` at level `k` when residency differs
/// between the band below and the band above.
pub open spec fn interface_at(resident: Seq<Seq<bool>>, n_bands: int, c: int, k: int) -> bool {
    (k > 0 && resident[c][k - 1]) != (k < n_bands && resident[c][k])
}

proof fn lemma_edge_walls(sides: Seq<(Option<usize>, Option<usize>)>, resident: Seq<Seq<bool>>, e: int, k: int, w: VoxelFace)
    requires
        0 <= e <= usize::MAX,
        k <= usize::MAX + 1,
    ensures
        edge_walls(sides, resident, e, k).contains(w) <==> (w matches VoxelFace::Wall { edge, band, material_on_left }
            && edge == e && band < k && wall_at(sides, resident, e, band as int) && material_on_left == side_resident(
            resident,
            sides[e].0,
            band as int,
        )),
    decreases k,
{
    if k > 0 {
        lemma_edge_walls(sides, resident, e, k - 1, w);
        let prev = edge_walls(sides, resident, e, k - 1);
        let cur = edge_walls(sides, resident, e, k);
        if wall_at(sides, resident, e, k - 1) {
            let x = VoxelFace::Wall {
                edge: e as usize,
                band: (k - 1) as usize,
                material_on_left: side_resident(resident, sides[e].0, k - 1),
            };
            assert(cur == prev.push(x));
            if cur.contains(w) && w != x {
                let t = cur.index_of(w);
                assert(prev[t] == w);
            }
            if prev.contains(w) {
                let t = prev.index_of(w);
                assert(cur[t] == w);
            }
            if w == x {
                assert(cur[prev.len() as int] == x);
            }
        }
    }
}

proof fn lemma_walls_upto(
    sides: Seq<(Option<usize>, Option<usize>)>,
    resident: Seq<Seq<bool>>,
    n_bands: int,
    e: int,
    w: VoxelFace,
)
    requires
        e <= usize::MAX + 1,
        0 <= n_bands <= usize::MAX + 1,
    ensures
        walls_upto(sides, resident, n_bands, e).contains(w) <==> (w matches VoxelFace::Wall { edge, band, material_on_left }
            && edge < e && band < n_bands && wall_at(sides, resident, edge as int, band as int) && material_on_left
            == side_resident(resident, sides[edge as int].0, band as int)),
    decreases e,
{
    if e > 0 {
        lemma_walls_upto(sides, resident, n_bands, e - 1, w);
        lemma_edge_walls(sides, resident, e - 1, n_bands, w);
        let a = walls_upto(sides, resident, n_bands, e - 1);
        let b = edge_walls(sides, resident, e - 1, n_bands);
        let ab = a + b;
        if ab.contains(w) {
            let t = ab.index_of(w);
            if t < a.len() {
                assert(a[t] == w);
            } else {
                assert(b[t - a.len()] == w);
            }
        }
        if a.contains(w) {
            let t = a.index_of(w);
            assert(ab[t] == w);
        }
        if b.contains(w) {
            let t = b.index_of(w);
            assert(ab[t + a.len()] == w);
        }
    }
}

proof fn lemma_cell_interfaces(resident: Seq<Seq<bool>>, n_bands: int, c: int, k: int, w: VoxelFace)
    requires
        0 <= c <= usize::MAX,
        k <= usize::MAX + 1,
    ensures
        cell_interfaces(resident, n_bands, c, k).contains(w) <==> (w matches VoxelFace::Interface { cell, level, up }
            && cell == c && level < k && interface_at(resident, n_bands, c, level as int) && up == (level > 0
            && resident[c][level - 1])),
    decreases k,
{
    if k > 0 {
        lemma_cell_interfaces(resident, n_bands, c, k - 1, w);
        let a = cell_interfaces(resident, n_bands, c, k - 1);
        let b = level_interface(resident, n_bands, c, k - 1);
        let ab = a + b;
        assert(ab == cell_interfaces(resident, n_bands, c, k));
        let x = VoxelFace::Interface {
            cell: c as usize,
            level: (k - 1) as usize,
            up: (k - 1 > 0 && resident[c][k - 2]),
        };
        if interface_at(resident, n_bands, c, k - 1) {
            assert(b == seq![x]);
            assert(b.len() == 1 && b[0] == x);
        } else {
            assert(b.len() == 0);
        }
        if ab.contains(w) {
            let t = ab.index_of(w);
            if t < a.len() {
                assert(a[t] == w);
            } else {
                assert(b[t - a.len()] == w);
            }
        }
        if a.contains(w) {
            let t = a.index_of(w);
            assert(ab[t] == w);
        }
        if b.contains(w) {
            let t = b.index_of(w);
            assert(ab[t + a.len()] == w);
        }
    }
}

proof fn lemma_interfaces_upto(resident: Seq<Seq<bool>>, n_bands: int, c: int, w: VoxelFace)
    requires
        c <= usize::MAX + 1,
        0 <= n_bands <= usize::MAX,
    ensures
        interfaces_upto(resident, n_bands, c).contains(w) <==> (w matches VoxelFace::Interface { cell, level, up }
            && cell < c && level <= n_bands && interface_at(resident, n_bands, cell as int, level as int) && up == (
            level > 0 && resident[cell as int][level - 1])),
    decreases c,
{
    if c > 0 {
        lemma_interfaces_upto(resident, n_bands, c - 1, w);
        lemma_cell_interfaces(resident, n_bands, c - 1, n_bands + 1, w);
        let a = interfaces_upto(resident, n_bands, c - 1);
        let b = cell_interfaces(resident, n_bands, c - 1, n_bands + 1);
        let ab = a + b;
        if ab.contains(w) {
            let t = ab.index_of(w);
            if t < a.len() {
                assert(a[t] == w);
            } else {
                assert(b[t - a.len()] == w);
            }
        }
        if a.contains(w) {
            let t = a.index_of(w);
            assert(ab[t] == w);
        }
        if b.contains(w) {
            let t = b.index_of(w);
            assert(ab[t + a.len()] == w);
        }
    }
}

/// The face law of the voxel boundary: a wall stands for edge `e` and band
/// `k` exactly when the cells across the edge differ in residency there, with
/// the material on the resident side; an interface stands for cell `c` at
/// level `k` exactly when residency differs between the band below and the
/// band above, looking up when the material is below.
pub proof fn lemma_voxel_face_law(
    sides: Seq<(Option<usize>, Option<usize>)>,
    resident: Seq<Seq<bool>>,
    n_bands: int,
)
    requires
        sides.len() <= usize::MAX,
        resident.len() <= usize::MAX,
        0 <= n_bands < usize::MAX,
    ensures
        forall|e: usize, k: usize, m: bool|
            #[trigger] (walls_upto(sides, resident, n_bands, sides.len() as int) + interfaces_upto(
                resident,
                n_bands,
                resident.len() as int,
            )).contains(VoxelFace::Wall { edge: e, band: k, material_on_left: m }) <==> (e < sides.len() && k < n_bands
                && wall_at(sides, resident, e as int, k as int) && m == side_resident(resident, sides[e as int].0, k as int)),
        forall|c: usize, k: usize, up: bool|
            #[trigger] (walls_upto(sides, resident, n_bands, sides.len() as int) + interfaces_upto(
                resident,
                n_bands,
                resident.len() as int,
            )).contains(VoxelFace::Interface { cell: c, level: k, up }) <==> (c < resident.len() && k <= n_bands
                && interface_at(resident, n_bands, c as int, k as int) && up == (k > 0 && resident[c as int][k - 1])),
{
    let a = walls_upto(sides, resident, n_bands, sides.len() as int);
    let b = interfaces_upto(resident, n_bands, resident.len() as int);
    let ab = a + b;
    assert forall|w: VoxelFace| ab.contains(w) <==> (a.contains(w) || b.contains(w)) by {
        if ab.contains(w) {
            let t = ab.index_of(w);
            if t < a.len() {
                assert(a[t] == w);
            } else {
                assert(b[t - a.len()] == w);
            }
        }
        if a.contains(w) {
            let t = a.index_of(w);
            assert(ab[t] == w);
        }
        if b.contains(w) {
            let t = b.index_of(w);
            assert(ab[t + a.len()] == w);
        }
    }
    assert forall|e: usize, k: usize, m: bool|
        #[trigger] ab.contains(VoxelFace::Wall { edge: e, band: k, material_on_left: m }) <==> (e < sides.len() && k
            < n_bands && wall_at(sides, resident, e as int, k as int) && m == side_resident(resident, sides[e as int].0, k as int)) by {
        let w = VoxelFace::Wall { edge: e, band: k, material_on_left: m };
        lemma_walls_upto(sides, resident, n_bands, sides.len() as int, w);
        lemma_interfaces_upto(resident, n_bands, resident.len() as int, w);
    }
    assert forall|c: usize, k: usize, up: bool|
        #[trigger] ab.contains(VoxelFace::Interface { cell: c, level: k, up }) <==> (c < resident.len() && k <= n_bands
            && interface_at(resident, n_bands, c as int, k as int) && up == (k > 0 && resident[c as int][k - 1])) by {
        let w = VoxelFace::Interface { cell: c, level: k, up };
        lemma_walls_upto(sides, resident, n_bands, sides.len() as int, w);
        lemma_interfaces_upto(resident, n_bands, resident.len() as int, w);
    }
}

} // verus!
