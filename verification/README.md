# archi_kernel

The combinatorial core of a B-rep kernel for building models (walls, slabs,
beams with openings), verified with Verus.

Everything that decides *which* piece of geometry survives, and in what
order members are built, is a verified function with a contract over
mathematical models; the floating-point geometry that feeds those decisions
(orientation signs, angles, areas, quantised coordinates) is computed around
the library and handed to it as plain values.

## Layout

- `src/boolean/` — the boolean machinery:
  - `poly2d/` — the 2-D engine: keep tables (`classify`), orientation flags,
    segment splitting and the arrangement's edge windings (`arrangement`),
    the half-edge structure and face-loop tracing (`dcel`), and the
    cancellation of internal edges (`reconstruct`);
  - `half_space.rs`, `cut_actions.rs`, `kept_loops.rs`, `caps.rs` — the
    half-space cut: vertex side rules, kept fragments of a loop, the fast
    paths and per-face actions, the assembly of kept fragments and section
    connectors into loops, and the cap boundary (edge cancellation and cycle
    chaining);
  - `coplanar_rules.rs`, `components.rs`, `nesting.rs`, `support.rs` — the
    coplanar residency tables, connected components by shared edges, grouping
    of nested loops, and union-find;
  - `prismatic/` — the plans of the prismatic boolean path, the assembly
    of traced loops into cells, and the voxel build: the residency of each
    cell in each axial band, the complexity budget, and the wall and
    interface faces of the resident voxels with their face law.
- `src/csg/` — CSG trees, members with their evaluation cache, and
  evaluation plans.
- `src/model/` — the member dependency graph: reachability, strongly
  connected components, topological order, dirty propagation, evaluation
  plans and the evaluation schedule of every member.
- `src/clash/` — clip relations, the pairwise clash plan and its split into
  compared pairs and errors.
- `src/curved/` — the faces a thick panel's tessellation emits from its grid
  of material cells.
- `src/geom/`, `src/topo.rs`, `src/tolerance.rs`, `src/mass.rs` — identifiers,
  surface kinds, orientation senses, three-way signs, and error vocabularies.
- `app/` — the unverified shell: exact orientation through `robust`,
  angular sorting, area-based nesting, coordinate quantisation, area signs,
  and serialisable copies of the data types.
- `tests/` — executable tests of the library.
