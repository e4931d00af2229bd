//! Surface-nets mesh topology over a chunk of inside/outside flags.
//!
//! A voxel is inside the surface when its density is at most zero; the
//! caller turns densities into these flags. A cell `(x, y, z)` has the eight
//! corner voxels `(x + dx, y + dy, z + dz)`, `dx, dy, dz` in `{0, 1}`; it
//! carries a mesh vertex when some but not all of them are inside.

use vstd::prelude::*;
use crate::voxels::{OrionVoxelGrid, VoxelConfig, lex_before};
use crate::shape::{
    coords_le, in_shape, linear_index, plain_index, shape_size, shape_fits, ndshape_linearize, ndshape_size,
    lemma_index_below, lemma_index_in_shape, lemma_index_injective,
};
use crate::lex::{
    lemma_lex_congruent, lemma_lex_swap_winding, lemma_lex_triangles, lemma_swap_winding_add, lemma_triangles_add,
    swap_winding, triangles_satisfy,
};
use crate::lex::{groups_satisfy, lemma_groups_add, lemma_lex_groups};
use crate::lex::{is_block, lemma_lex_block, lemma_is_block_trans, lemma_block_of_three};
use crate::lex::{lemma_lex_all, lemma_lex_len_bound, lemma_lex_len_mod, lex_concat, lex_prefix, lemma_lex_step, lemma_lex_next_row, lemma_lex_next_plane, lemma_lex_whole};

verus! {

/// An edge of a cell whose two corners lie on opposite sides of the surface.
/// `axis` is the direction of the edge (0: x, 1: y, 2: z); `u` and `v` are the
/// offsets, 0 or 1, of the edge along the two other axes in increasing order.
#[derive(Clone, Copy, Debug, PartialEq, Eq)]
pub struct EdgeCrossing {
    pub axis: u8,
    pub u: u8,
    pub v: u8,
}

/// The position of corner `i` (`i == dx * 4 + dy * 2 + dz`) of cell `(x, y, z)`.
pub open spec fn corner_pos(x: u32, y: u32, z: u32, i: int) -> [u32; 3] {
    [(x + i / 4) as u32, (y + (i / 2) % 2) as u32, (z + i % 2) as u32]
}

/// The inside flags of the eight corners of cell `(x, y, z)`, corner
/// `dx * 4 + dy * 2 + dz` at that index.
pub open spec fn corner_flags(grid: OrionVoxelGrid<bool>, x: u32, y: u32, z: u32) -> Seq<bool> {
    Seq::new(8, |i: int| grid.density_at(corner_pos(x, y, z, i)))
}

/// The number of `true` flags among the first `n` of `flags`.
pub open spec fn count_inside(flags: Seq<bool>, n: int) -> int
    decreases n,
{
    if n <= 0 {
        0
    } else {
        count_inside(flags, n - 1) + if flags[n - 1] { 1int } else { 0int }
    }
}

/// Some but not all of the eight corners are inside.
pub open spec fn straddles(flags: Seq<bool>) -> bool {
    count_inside(flags, 8) != 0 && count_inside(flags, 8) != 8
}

/// The `k`-th of the twelve cell edges in the order in which they are tested:
/// the four x edges, then the four y edges, then the four z edges, each
/// group ordered by its first, then its second offset.
pub open spec fn candidate_edge(k: int) -> EdgeCrossing {
    EdgeCrossing { axis: (k / 4) as u8, u: ((k / 2) % 2) as u8, v: (k % 2) as u8 }
}

/// The corner index at which `edge` starts.
pub open spec fn edge_start(edge: EdgeCrossing) -> int {
    if edge.axis == 0 {
        edge.u * 2 + edge.v
    } else if edge.axis == 1 {
        edge.u * 4 + edge.v
    } else {
        edge.u * 4 + edge.v * 2
    }
}

/// The corner index at which `edge` ends.
pub open spec fn edge_end(edge: EdgeCrossing) -> int {
    if edge.axis == 0 {
        4 + edge.u * 2 + edge.v
    } else if edge.axis == 1 {
        edge.u * 4 + 2 + edge.v
    } else {
        edge.u * 4 + edge.v * 2 + 1
    }
}

/// The two corners of `edge` lie on opposite sides of the surface.
pub open spec fn edge_crosses(flags: Seq<bool>, edge: EdgeCrossing) -> bool {
    flags[edge_start(edge)] != flags[edge_end(edge)]
}

/// The crossing edges among the first `k` candidate edges, in order.
pub open spec fn crossings_upto(flags: Seq<bool>, k: int) -> Seq<EdgeCrossing>
    decreases k,
{
    if k <= 0 {
        Seq::empty()
    } else if edge_crosses(flags, candidate_edge(k - 1)) {
        crossings_upto(flags, k - 1).push(candidate_edge(k - 1))
    } else {
        crossings_upto(flags, k - 1)
    }
}

/// All crossing edges of a cell with corner flags `flags`, in test order.
pub open spec fn cell_crossings(flags: Seq<bool>) -> Seq<EdgeCrossing> {
    crossings_upto(flags, 12)
}

/// All eight corners of cell `(x, y, z)` can be read from the grid.
pub open spec fn corners_readable(grid: OrionVoxelGrid<bool>, x: u32, y: u32, z: u32) -> bool {
    &&& x < u32::MAX && y < u32::MAX && z < u32::MAX
    &&& forall|i: int| 0 <= i < 8 ==> #[trigger] grid.readable(corner_pos(x, y, z, i))
}

/// Reads the inside flags of the eight corners of cell `(x, y, z)`.
fn read_corners(grid: &OrionVoxelGrid<bool>, x: u32, y: u32, z: u32) -> (flags: Vec<bool>)
    requires
        shape_fits(grid.shape),
        corners_readable(*grid, x, y, z),
    ensures
        flags@ == corner_flags(*grid, x, y, z),
{
    let mut flags: Vec<bool> = Vec::new();
    let mut i: u32 = 0;
    while i < 8
        invariant
            i <= 8,
            shape_fits(grid.shape),
            corners_readable(*grid, x, y, z),
            flags@ == corner_flags(*grid, x, y, z).take(i as int),
        decreases 8 - i,
    {
        let pos = [x + i / 4, y + (i / 2) % 2, z + i % 2];
        assert(pos == corner_pos(x, y, z, i as int));
        assert(grid.readable(corner_pos(x, y, z, i as int)));
        let inside = grid.get_density(pos);
        flags.push(inside);
        assert(flags@ =~= corner_flags(*grid, x, y, z).take(i + 1));
        i = i + 1;
    }
    assert(flags@ =~= corner_flags(*grid, x, y, z));
    flags
}

/// Decides whether cell `(x, y, z)` carries a mesh vertex, and if so lists
/// the edges along which the surface crosses the cell, in test order.
///
/// The vertex is placed at the average of the points where these edges meet
/// the surface; those points depend on the densities themselves, so the
/// caller computes them from this list.
pub fn calculate_smooth_vertex(grid: &OrionVoxelGrid<bool>, x: u32, y: u32, z: u32) -> (crossings: Option<Vec<EdgeCrossing>>)
    requires
        shape_fits(grid.shape),
        corners_readable(*grid, x, y, z),
    ensures
        crossings is None <==> !straddles(corner_flags(*grid, x, y, z)),
        crossings matches Some(c) ==> c@ == cell_crossings(corner_flags(*grid, x, y, z)),
        crossings matches Some(c) ==> c.len() > 0,
{
    let flags = read_corners(grid, x, y, z);
    let ghost f = flags@;
    let mut corners_inside: u32 = 0;
    let mut i: usize = 0;
    while i < 8
        invariant
            i <= 8,
            flags@ == f,
            f.len() == 8,
            corners_inside == count_inside(f, i as int),
            corners_inside <= i,
        decreases 8 - i,
    {
        if flags[i] {
            corners_inside = corners_inside + 1;
        }
        i = i + 1;
    }
    if corners_inside == 0 || corners_inside == 8 {
        return None;
    }
    let mut crossings: Vec<EdgeCrossing> = Vec::new();
    let mut k: u8 = 0;
    while k < 12
        invariant
            k <= 12,
            flags@ == f,
            f.len() == 8,
            crossings@ == crossings_upto(f, k as int),
        decreases 12 - k,
    {
        let edge = EdgeCrossing { axis: k / 4, u: (k / 2) % 2, v: k % 2 };
        assert(edge == candidate_edge(k as int));
        let start: usize = if edge.axis == 0 {
            (edge.u * 2 + edge.v) as usize
        } else if edge.axis == 1 {
            (edge.u * 4 + edge.v) as usize
        } else {
            (edge.u * 4 + edge.v * 2) as usize
        };
        let end: usize = if edge.axis == 0 {
            (4 + edge.u * 2 + edge.v) as usize
        } else if edge.axis == 1 {
            (edge.u * 4 + 2 + edge.v) as usize
        } else {
            (edge.u * 4 + edge.v * 2 + 1) as usize
        };
        assert(start == edge_start(edge) && end == edge_end(edge));
        if flags[start] != flags[end] {
            crossings.push(edge);
        }
        k = k + 1;
    }
    proof {
        lemma_vertex_cell_has_crossing(f);
    }
    Some(crossings)
}

/// The voxel `(x, y, z)`.
pub open spec fn voxel(x: u32, y: u32, z: u32) -> [u32; 3] {
    [x, y, z]
}

/// The voxel `(x + dx, y + dy, z + dz)`.
pub open spec fn offset_voxel(x: u32, y: u32, z: u32, dx: u32, dy: u32, dz: u32) -> [u32; 3] {
    [(x + dx) as u32, (y + dy) as u32, (z + dz) as u32]
}

/// The voxel at which `edge` of cell `(x, y, z)` starts: offset 0 along the
/// edge's axis, and `u` and `v` along the two other axes in increasing order.
pub open spec fn edge_start_voxel(x: u32, y: u32, z: u32, edge: EdgeCrossing) -> [u32; 3] {
    if edge.axis == 0 {
        [x, (y + edge.u) as u32, (z + edge.v) as u32]
    } else if edge.axis == 1 {
        [(x + edge.u) as u32, y, (z + edge.v) as u32]
    } else {
        [(x + edge.u) as u32, (y + edge.v) as u32, z]
    }
}

/// The voxel at which `edge` of cell `(x, y, z)` ends: one step further
/// along the edge's axis.
pub open spec fn edge_end_voxel(x: u32, y: u32, z: u32, edge: EdgeCrossing) -> [u32; 3] {
    if edge.axis == 0 {
        [(x + 1) as u32, (y + edge.u) as u32, (z + edge.v) as u32]
    } else if edge.axis == 1 {
        [(x + edge.u) as u32, (y + 1) as u32, (z + edge.v) as u32]
    } else {
        [(x + edge.u) as u32, (y + edge.v) as u32, (z + 1) as u32]
    }
}

/// The place of an edge in the test order.
pub open spec fn edge_rank(edge: EdgeCrossing) -> int {
    edge.axis * 4 + edge.u * 2 + edge.v
}

proof fn lemma_crossings_upto_facts(flags: Seq<bool>, k: int)
    requires
        0 <= k <= 12,
    ensures
        forall|j: int| 0 <= j < crossings_upto(flags, k).len() ==> {
            let e = #[trigger] crossings_upto(flags, k)[j];
            &&& 0 <= edge_rank(e) < k
            &&& e == candidate_edge(edge_rank(e))
            &&& edge_crosses(flags, e)
        },
        forall|i: int, j: int| 0 <= i < j < crossings_upto(flags, k).len()
            ==> edge_rank(#[trigger] crossings_upto(flags, k)[i]) < edge_rank(#[trigger] crossings_upto(flags, k)[j]),
        forall|r: int| 0 <= r < k && edge_crosses(flags, #[trigger] candidate_edge(r))
            ==> crossings_upto(flags, k).contains(candidate_edge(r)),
    decreases k,
{
    if k > 0 {
        lemma_crossings_upto_facts(flags, k - 1);
        let e = candidate_edge(k - 1);
        assert(edge_rank(e) == k - 1);
        let prev = crossings_upto(flags, k - 1);
        let cur = crossings_upto(flags, k);
        if edge_crosses(flags, e) {
            assert(cur == prev.push(e));
            assert forall|r: int| 0 <= r < k && edge_crosses(flags, #[trigger] candidate_edge(r))
                implies cur.contains(candidate_edge(r)) by {
                if r < k - 1 {
                    let j = choose|j: int| 0 <= j < prev.len() && prev[j] == candidate_edge(r);
                    assert(cur[j] == prev[j]);
                } else {
                    assert(cur[prev.len() as int] == e);
                }
            }
        }
    }
}

proof fn lemma_candidate_geometry(x: u32, y: u32, z: u32, r: int)
    requires
        0 <= r < 12,
    ensures
        0 <= edge_start(candidate_edge(r)) < 8,
        0 <= edge_end(candidate_edge(r)) < 8,
        corner_pos(x, y, z, edge_start(candidate_edge(r))) == edge_start_voxel(x, y, z, candidate_edge(r)),
        corner_pos(x, y, z, edge_end(candidate_edge(r))) == edge_end_voxel(x, y, z, candidate_edge(r)),
        edge_rank(candidate_edge(r)) == r,
{
    assert(r == 0 || r == 1 || r == 2 || r == 3 || r == 4 || r == 5 || r == 6 || r == 7 || r == 8
        || r == 9 || r == 10 || r == 11);
}

/// Law: a cell carries a vertex exactly when two of its eight corner voxels
/// lie on opposite sides of the surface.
pub proof fn lemma_vertex_decision(grid: OrionVoxelGrid<bool>, x: u32, y: u32, z: u32)
    ensures
        !straddles(corner_flags(grid, x, y, z)) <==> forall|dx: u32, dy: u32, dz: u32| dx < 2 && dy < 2 && dz < 2
            ==> #[trigger] grid.density_at(offset_voxel(x, y, z, dx, dy, dz)) == grid.density_at([x, y, z]),
{
    let f = corner_flags(grid, x, y, z);
    assert forall|dx: u32, dy: u32, dz: u32| dx < 2 && dy < 2 && dz < 2 implies
        #[trigger] grid.density_at(offset_voxel(x, y, z, dx, dy, dz)) == f[(dx * 4 + dy * 2 + dz) as int] by {
        assert(corner_pos(x, y, z, (dx * 4 + dy * 2 + dz) as int) == offset_voxel(x, y, z, dx, dy, dz));
    }
    assert(offset_voxel(x, y, z, 0, 0, 0) == [x, y, z]);
    let d = |dx: u32, dy: u32, dz: u32| grid.density_at(offset_voxel(x, y, z, dx, dy, dz));
    assert(d(0, 0, 0) == f[0] && d(0, 0, 1) == f[1] && d(0, 1, 0) == f[2] && d(0, 1, 1) == f[3]);
    assert(d(1, 0, 0) == f[4] && d(1, 0, 1) == f[5] && d(1, 1, 0) == f[6] && d(1, 1, 1) == f[7]);
    reveal_with_fuel(count_inside, 9);
}

/// Law: the crossing edges of a cell are listed in test order, each once.
/// Every listed edge joins two corners on opposite sides of the surface, at
/// offsets `u` and `v` along the two other axes, and every edge of the cell
/// that joins two such corners is listed.
pub proof fn lemma_smooth_vertex_edges(grid: OrionVoxelGrid<bool>, x: u32, y: u32, z: u32)
    ensures
        forall|j: int| 0 <= j < cell_crossings(corner_flags(grid, x, y, z)).len() ==> {
            let e = #[trigger] cell_crossings(corner_flags(grid, x, y, z))[j];
            &&& e.axis < 3 && e.u < 2 && e.v < 2
            &&& grid.density_at(edge_start_voxel(x, y, z, e)) != grid.density_at(edge_end_voxel(x, y, z, e))
        },
        forall|i: int, j: int| 0 <= i < j < cell_crossings(corner_flags(grid, x, y, z)).len()
            ==> edge_rank(#[trigger] cell_crossings(corner_flags(grid, x, y, z))[i])
                < edge_rank(#[trigger] cell_crossings(corner_flags(grid, x, y, z))[j]),
        forall|axis: u8, u: u8, v: u8| axis < 3 && u < 2 && v < 2
            && grid.density_at(edge_start_voxel(x, y, z, EdgeCrossing { axis, u, v }))
                != grid.density_at(edge_end_voxel(x, y, z, EdgeCrossing { axis, u, v }))
            ==> #[trigger] cell_crossings(corner_flags(grid, x, y, z)).contains(EdgeCrossing { axis, u, v }),
{
    let f = corner_flags(grid, x, y, z);
    let c = cell_crossings(f);
    lemma_crossings_upto_facts(f, 12);
    assert forall|j: int| 0 <= j < c.len() implies {
        let e = #[trigger] c[j];
        &&& e.axis < 3 && e.u < 2 && e.v < 2
        &&& grid.density_at(edge_start_voxel(x, y, z, e)) != grid.density_at(edge_end_voxel(x, y, z, e))
    } by {
        lemma_listed_edge_crosses(grid, x, y, z, c[j]);
    }
    assert forall|axis: u8, u: u8, v: u8| axis < 3 && u < 2 && v < 2
        && grid.density_at(edge_start_voxel(x, y, z, EdgeCrossing { axis, u, v }))
            != grid.density_at(edge_end_voxel(x, y, z, EdgeCrossing { axis, u, v }))
        implies #[trigger] c.contains(EdgeCrossing { axis, u, v }) by {
        lemma_crossing_edge_is_candidate(grid, x, y, z, axis, u, v);
    }
}

#[verifier::spinoff_prover]
proof fn lemma_listed_edge_crosses(grid: OrionVoxelGrid<bool>, x: u32, y: u32, z: u32, e: EdgeCrossing)
    requires
        0 <= edge_rank(e) < 12,
        e == candidate_edge(edge_rank(e)),
        edge_crosses(corner_flags(grid, x, y, z), e),
    ensures
        e.axis < 3 && e.u < 2 && e.v < 2,
        grid.density_at(edge_start_voxel(x, y, z, e)) != grid.density_at(edge_end_voxel(x, y, z, e)),
{
    lemma_candidate_geometry(x, y, z, edge_rank(e));
}

#[verifier::spinoff_prover]
proof fn lemma_crossing_edge_is_candidate(grid: OrionVoxelGrid<bool>, x: u32, y: u32, z: u32, axis: u8, u: u8, v: u8)
    requires
        axis < 3 && u < 2 && v < 2,
        grid.density_at(edge_start_voxel(x, y, z, EdgeCrossing { axis, u, v }))
            != grid.density_at(edge_end_voxel(x, y, z, EdgeCrossing { axis, u, v })),
    ensures
        candidate_edge(axis * 4 + u * 2 + v) == (EdgeCrossing { axis, u, v }),
        0 <= axis * 4 + u * 2 + v < 12,
        edge_crosses(corner_flags(grid, x, y, z), candidate_edge(axis * 4 + u * 2 + v)),
{
    let r = axis * 4 + u * 2 + v;
    assert(candidate_edge(r) == EdgeCrossing { axis, u, v });
    lemma_candidate_geometry(x, y, z, r);
}

/// A cell that carries a vertex has at least one crossing edge: the average
/// that places its vertex is never taken over no points.
pub proof fn lemma_vertex_cell_has_crossing(flags: Seq<bool>)
    requires
        flags.len() == 8,
        straddles(flags),
    ensures
        cell_crossings(flags).len() > 0,
{
    reveal_with_fuel(crossings_upto, 13);
    reveal_with_fuel(count_inside, 9);
}

/// A mesh vertex: the cell that carries it and the edges of that cell along
/// which the surface crosses it.
#[derive(Debug)]
pub struct SurfaceVertex {
    pub cell: [u32; 3],
    pub crossings: Vec<EdgeCrossing>,
}

/// The shape of a cube with `m` cells along each side.
pub open spec fn cube(m: u32) -> [u32; 3] {
    [m, m, m]
}

/// For each cell, the cell itself when it carries a vertex.
pub open spec fn vertex_cells(grid: OrionVoxelGrid<bool>) -> spec_fn(u32, u32, u32) -> Seq<[u32; 3]> {
    |a: u32, b: u32, c: u32|
        if straddles(corner_flags(grid, a, b, c)) {
            seq![[a, b, c]]
        } else {
            Seq::empty()
        }
}

/// The cells of `[0, m)^3` that carry a vertex, with `x` outermost and `z`
/// innermost: the order in which their vertices are numbered.
pub open spec fn surface_cells(grid: OrionVoxelGrid<bool>, m: nat) -> Seq<[u32; 3]> {
    lex_concat(vertex_cells(grid), m)
}

/// Every voxel with all coordinates at most `m` can be read from the grid.
pub open spec fn readable_upto(grid: OrionVoxelGrid<bool>, m: u32) -> bool {
    forall|p: [u32; 3]| coords_le(p, cube(m)) ==> #[trigger] grid.readable(p)
}

/// Law: the cells that carry vertices are exactly the cells of `[0, m)^3`
/// two of whose eight corner voxels lie on opposite sides of the surface.
pub proof fn lemma_surface_cells_are_mixed_cells(grid: OrionVoxelGrid<bool>, m: u32)
    ensures
        forall|k: int| 0 <= k < surface_cells(grid, m as nat).len() ==> {
            let cell = #[trigger] surface_cells(grid, m as nat)[k];
            cell[0] < m && cell[1] < m && cell[2] < m
        },
        forall|a: u32, b: u32, c: u32| a < m && b < m && c < m ==> (
            #[trigger] surface_cells(grid, m as nat).contains(voxel(a, b, c))
                <==> !(forall|dx: u32, dy: u32, dz: u32| dx < 2 && dy < 2 && dz < 2
                    ==> #[trigger] grid.density_at(offset_voxel(a, b, c, dx, dy, dz)) == grid.density_at(voxel(a, b, c)))),
{
    let f = vertex_cells(grid);
    let cells = surface_cells(grid, m as nat);
    let p = |v: [u32; 3]| v[0] < m && v[1] < m && v[2] < m && straddles(corner_flags(grid, v[0], v[1], v[2]));
    assert forall|a: u32, b: u32, c: u32, i: int| a < m && b < m && c < m && 0 <= i < f(a, b, c).len()
        implies p(#[trigger] f(a, b, c)[i]) by {}
    lemma_lex_all(f, p, m as nat);
    assert forall|a: u32, b: u32, c: u32| a < m && b < m && c < m implies (
        #[trigger] cells.contains(voxel(a, b, c))
            <==> !(forall|dx: u32, dy: u32, dz: u32| dx < 2 && dy < 2 && dz < 2
                ==> #[trigger] grid.density_at(offset_voxel(a, b, c, dx, dy, dz)) == grid.density_at(voxel(a, b, c)))) by {
        lemma_vertex_decision(grid, a, b, c);
        assert(voxel(a, b, c) == [a, b, c]);
        if cells.contains(voxel(a, b, c)) {
            let k = choose|k: int| 0 <= k < cells.len() && cells[k] == voxel(a, b, c);
            assert(p(cells[k]));
        }
        if straddles(corner_flags(grid, a, b, c)) {
            lemma_lex_block(f, m as nat, a, b, c);
            let s1 = f(a, b, c);
            assert(s1 == seq![[a, b, c]]);
            let k = choose|k: int| 0 <= k && k + s1.len() <= cells.len() && #[trigger] cells.subrange(k, k + s1.len()) == s1;
            assert(cells.subrange(k, k + 1)[0] == cells[k]);
        }
    }
}

/// `j` is the index, in a table of shape `cell_shape`, of one of the cells
/// of `vertices`.
pub open spec fn is_vertex_slot(cell_shape: [u32; 3], vertices: Seq<SurfaceVertex>, j: int) -> bool {
    exists|i: int| 0 <= i < vertices.len() && plain_index(cell_shape, #[trigger] vertices[i].cell) == j
}

proof fn lemma_corners_readable(grid: OrionVoxelGrid<bool>, m: u32, x: u32, y: u32, z: u32)
    requires
        readable_upto(grid, m),
        x < m, y < m, z < m,
    ensures
        corners_readable(grid, x, y, z),
{
    assert forall|i: int| 0 <= i < 8 implies #[trigger] grid.readable(corner_pos(x, y, z, i)) by {
        assert(coords_le(corner_pos(x, y, z, i), cube(m)));
    }
}

/// The facts that hold throughout the numbering of the vertices.
pub open spec fn numbering_frame(
    grid: OrionVoxelGrid<bool>,
    size: u32,
    cell_shape: [u32; 3],
    m: u32,
    old_vi: Seq<i32>,
) -> bool {
    &&& m == size + 1
    &&& shape_fits(grid.shape)
    &&& readable_upto(grid, m)
    &&& cell_shape == cube(m)
    &&& shape_size(cell_shape) <= u32::MAX
    &&& shape_fits(cell_shape)
    &&& old_vi.len() == shape_size(cell_shape)
}

/// The numbering after visiting the cells before `(x, y, z)`: `vertices`
/// lists, in order, the visited cells that carry a vertex with their
/// crossing edges; each such cell's slot of `vi` holds its number, and every
/// other slot still holds its value from `old_vi`.
pub open spec fn numbered_before(
    grid: OrionVoxelGrid<bool>,
    cell_shape: [u32; 3],
    m: u32,
    old_vi: Seq<i32>,
    vi: Seq<i32>,
    vertices: Seq<SurfaceVertex>,
    x: nat,
    y: nat,
    z: nat,
) -> bool {
    let prefix = lex_prefix(vertex_cells(grid), m as nat, x, y, z);
    &&& vi.len() == old_vi.len()
    &&& vertices.len() == prefix.len()
    &&& forall|i: int| 0 <= i < vertices.len() ==> #[trigger] vertices[i].cell == prefix[i]
    &&& forall|i: int| 0 <= i < vertices.len() ==> (#[trigger] vertices[i]).crossings@
        == cell_crossings(corner_flags(grid, vertices[i].cell[0], vertices[i].cell[1], vertices[i].cell[2]))
    &&& forall|i: int| 0 <= i < vertices.len() ==> in_shape(cell_shape, #[trigger] vertices[i].cell)
        && lex_before(vertices[i].cell[0] as int, vertices[i].cell[1] as int, vertices[i].cell[2] as int, x as int, y as int, z as int)
    &&& forall|i: int, k: int| 0 <= i < k < vertices.len() ==> lex_before(
        vertices[i].cell[0] as int, vertices[i].cell[1] as int, vertices[i].cell[2] as int,
        vertices[k].cell[0] as int, vertices[k].cell[1] as int, vertices[k].cell[2] as int,
    )
    &&& forall|i: int| 0 <= i < vertices.len() ==> vi[plain_index(cell_shape, #[trigger] vertices[i].cell)] == i as i32
    &&& forall|j: int| 0 <= j < old_vi.len() && !is_vertex_slot(cell_shape, vertices, j) ==> #[trigger] vi[j] == old_vi[j]
}

/// Numbers the vertices of the cells of `[0, size]^3`: each cell that
/// carries a vertex gets the next number, in the order `x` outermost, `z`
/// innermost, and that number is written at the cell's index in
/// `vertex_indices`. Nothing else of `vertex_indices` changes.
pub fn generate_vertices(
    grid: &OrionVoxelGrid<bool>,
    size: u32,
    cell_shape: [u32; 3],
    vertex_indices: &mut Vec<i32>,
) -> (vertices: Vec<SurfaceVertex>)
    requires
        shape_fits(grid.shape),
        size < u32::MAX,
        readable_upto(*grid, (size + 1) as u32),
        cell_shape == cube((size + 1) as u32),
        shape_size(cell_shape) <= u32::MAX,
        old(vertex_indices).len() == shape_size(cell_shape),
    ensures
        final(vertex_indices).len() == old(vertex_indices).len(),
        vertices.len() == surface_cells(*grid, (size + 1) as nat).len(),
        forall|i: int| 0 <= i < vertices.len() ==> #[trigger] vertices@[i].cell == surface_cells(*grid, (size + 1) as nat)[i],
        forall|i: int| 0 <= i < vertices.len() ==> (#[trigger] vertices@[i]).crossings@
            == cell_crossings(corner_flags(*grid, vertices@[i].cell[0], vertices@[i].cell[1], vertices@[i].cell[2])),
        forall|i: int, k: int| 0 <= i < k < vertices.len() ==> lex_before(
            vertices@[i].cell[0] as int, vertices@[i].cell[1] as int, vertices@[i].cell[2] as int,
            vertices@[k].cell[0] as int, vertices@[k].cell[1] as int, vertices@[k].cell[2] as int,
        ),
        forall|i: int| 0 <= i < vertices.len() ==> in_shape(cell_shape, #[trigger] vertices@[i].cell),
        forall|i: int| 0 <= i < vertices.len()
            ==> final(vertex_indices)@[plain_index(cell_shape, #[trigger] vertices@[i].cell)] == i as i32,
        forall|j: int| 0 <= j < old(vertex_indices).len() && !is_vertex_slot(cell_shape, vertices@, j)
            ==> #[trigger] final(vertex_indices)@[j] == old(vertex_indices)@[j],
{
    let ghost old_vi = vertex_indices@;
    let ghost f = vertex_cells(*grid);
    let m: u32 = size + 1;
    assert(shape_fits(cell_shape)) by {
        assert(m * m <= m * m * m) by (nonlinear_arith)
            requires m >= 1;
    }
    let mut vertices: Vec<SurfaceVertex> = Vec::new();
    let mut x: u32 = 0;
    while x < m
        invariant
            x <= m,
            numbering_frame(*grid, size, cell_shape, m, old_vi),
            f == vertex_cells(*grid),
            numbered_before(*grid, cell_shape, m, old_vi, vertex_indices@, vertices@, x as nat, 0, 0),
        decreases m - x,
    {
        let mut y: u32 = 0;
        while y < m
            invariant
                x < m,
                y <= m,
                numbering_frame(*grid, size, cell_shape, m, old_vi),
                f == vertex_cells(*grid),
                numbered_before(*grid, cell_shape, m, old_vi, vertex_indices@, vertices@, x as nat, y as nat, 0),
            decreases m - y,
        {
            let mut z: u32 = 0;
            while z < m
                invariant
                    x < m,
                    y < m,
                    z <= m,
                    numbering_frame(*grid, size, cell_shape, m, old_vi),
                    f == vertex_cells(*grid),
                    numbered_before(*grid, cell_shape, m, old_vi, vertex_indices@, vertices@, x as nat, y as nat, z as nat),
                decreases m - z,
            {
                proof {
                    lemma_corners_readable(*grid, m, x, y, z);
                    lemma_lex_step(f, m as nat, x as nat, y as nat, z as nat);
                }
                let ghost prev = vertices@;
                let ghost prev_vi = vertex_indices@;
                if let Some(crossings) = calculate_smooth_vertex(grid, x, y, z) {
                    let cell = [x, y, z];
                    proof {
                        lemma_index_in_shape(cell_shape, cell);
                        lemma_index_below(cell_shape, cell, cell);
                    }
                    let cell_idx = ndshape_linearize(cell_shape, cell);
                    let number = vertices.len() as i32;
                    vertex_indices.set(cell_idx as usize, number);
                    vertices.push(SurfaceVertex { cell, crossings });
                    proof {
                        assert(number == (prev.len() as int) as i32);
                        assert(vertex_indices@ == prev_vi.update(plain_index(cell_shape, cell), number));
                        assert(f(x, y, z) == seq![cell]);
                        let n = prev.len() as int;
                        assert forall|i: int| 0 <= i < vertices.len()
                            implies vertex_indices@[plain_index(cell_shape, #[trigger] vertices@[i].cell)] == i as i32 by {
                            if i < n {
                                assert(vertices@[i] == prev[i]);
                                lemma_index_in_shape(cell_shape, prev[i].cell);
                                if plain_index(cell_shape, prev[i].cell) == plain_index(cell_shape, cell) {
                                    lemma_index_injective(cell_shape, prev[i].cell, cell);
                                }
                            }
                        }
                        assert forall|j: int| 0 <= j < old_vi.len() && !is_vertex_slot(cell_shape, vertices@, j)
                            implies #[trigger] vertex_indices@[j] == old_vi[j] by {
                            if is_vertex_slot(cell_shape, prev, j) {
                                let i = choose|i: int| 0 <= i < prev.len() && plain_index(cell_shape, #[trigger] prev[i].cell) == j;
                                assert(vertices@[i] == prev[i]);
                            }
                            assert(j != plain_index(cell_shape, vertices@[n].cell));
                        }
                    }
                } else {
                    assert(f(x, y, z) =~= Seq::<[u32; 3]>::empty());
                    assert(lex_prefix(f, m as nat, x as nat, y as nat, z as nat)
                        =~= lex_prefix(f, m as nat, x as nat, y as nat, (z + 1) as nat));
                }
                z = z + 1;
            }
            proof {
                lemma_lex_next_row(f, m as nat, x as nat, y as nat);
            }
            y = y + 1;
        }
        proof {
            lemma_lex_next_plane(f, m as nat, x as nat);
        }
        x = x + 1;
    }
    proof {
        lemma_lex_whole(f, m as nat);
    }
    vertices
}

/// The `i`-th of the four cells around the edge that leaves voxel `(x, y, z)`
/// along `axis` (0: x, 1: y, anything else: z), in signed coordinates; the
/// quad of the edge joins their vertices in this order.
pub open spec fn quad_cell(x: u32, y: u32, z: u32, axis: usize, i: int) -> (int, int, int) {
    let cx = (x as i32) as int;
    let cy = (y as i32) as int;
    let cz = (z as i32) as int;
    if axis == 0 {
        if i == 0 { (cx, cy, cz) } else if i == 1 { (cx, cy, cz - 1) } else if i == 2 { (cx, cy - 1, cz - 1) } else { (cx, cy - 1, cz) }
    } else if axis == 1 {
        if i == 0 { (cx, cy, cz) } else if i == 1 { (cx - 1, cy, cz) } else if i == 2 { (cx - 1, cy, cz - 1) } else { (cx, cy, cz - 1) }
    } else {
        if i == 0 { (cx, cy, cz) } else if i == 1 { (cx, cy - 1, cz) } else if i == 2 { (cx - 1, cy - 1, cz) } else { (cx - 1, cy, cz) }
    }
}

/// The number of coordinates in which two cells differ.
pub open spec fn cells_apart(p: (int, int, int), q: (int, int, int)) -> int {
    (if p.0 != q.0 { 1int } else { 0 }) + (if p.1 != q.1 { 1int } else { 0 }) + (if p.2 != q.2 { 1int } else { 0 })
}

/// Law: the four cells of a quad are the four cells that share the edge
/// from voxel `(x, y, z)` along `axis`: they agree with the voxel along the
/// axis and sit at the voxel or one below it along the two other axes. They
/// are pairwise different, start at the voxel's own cell, and go round the
/// edge, each sharing a face with the next and the last with the first.
pub proof fn lemma_quad_cells_surround_edge(x: u32, y: u32, z: u32, axis: usize)
    ensures
        forall|i: int| 0 <= i < 4 ==> {
            let q = #[trigger] quad_cell(x, y, z, axis, i);
            let c = ((x as i32) as int, (y as i32) as int, (z as i32) as int);
            &&& axis == 0 ==> q.0 == c.0 && c.1 - 1 <= q.1 <= c.1 && c.2 - 1 <= q.2 <= c.2
            &&& axis == 1 ==> q.1 == c.1 && c.0 - 1 <= q.0 <= c.0 && c.2 - 1 <= q.2 <= c.2
            &&& axis >= 2 ==> q.2 == c.2 && c.0 - 1 <= q.0 <= c.0 && c.1 - 1 <= q.1 <= c.1
        },
        quad_cell(x, y, z, axis, 0) == ((x as i32) as int, (y as i32) as int, (z as i32) as int),
        forall|i: int, j: int| 0 <= i < j < 4 ==> #[trigger] quad_cell(x, y, z, axis, i) != #[trigger] quad_cell(x, y, z, axis, j),
        forall|i: int| 0 <= i < 4 ==> cells_apart(#[trigger] quad_cell(x, y, z, axis, i), quad_cell(x, y, z, axis, (i + 1) % 4)) == 1,
{
}

/// The signed coordinates of the voxel can be decremented along the two
/// axes across the edge without leaving `i32`.
pub open spec fn quad_decrements_ok(x: u32, y: u32, z: u32, axis: usize) -> bool {
    let cx = (x as i32) as int;
    let cy = (y as i32) as int;
    let cz = (z as i32) as int;
    if axis == 0 {
        cy > i32::MIN && cz > i32::MIN
    } else if axis == 1 {
        cx > i32::MIN && cz > i32::MIN
    } else {
        cx > i32::MIN && cy > i32::MIN
    }
}

/// The unsigned position of a cell given in signed coordinates.
pub open spec fn cell_pos(c: (int, int, int)) -> [u32; 3] {
    [c.0 as u32, c.1 as u32, c.2 as u32]
}

/// The cell lies inside the cell shape (its sizes read as `i32`) and has a
/// vertex number in `vertex_indices`.
pub open spec fn quad_cell_ok(cell_shape: [u32; 3], vertex_indices: Seq<i32>, c: (int, int, int)) -> bool {
    &&& 0 <= c.0 < (cell_shape[0] as i32) as int
    &&& 0 <= c.1 < (cell_shape[1] as i32) as int
    &&& 0 <= c.2 < (cell_shape[2] as i32) as int
    &&& vertex_indices[plain_index(cell_shape, cell_pos(c))] >= 0
}

/// All four cells around the edge have vertices.
pub open spec fn quad_complete(cell_shape: [u32; 3], vertex_indices: Seq<i32>, x: u32, y: u32, z: u32, axis: usize) -> bool {
    forall|i: int| 0 <= i < 4 ==> quad_cell_ok(cell_shape, vertex_indices, #[trigger] quad_cell(x, y, z, axis, i))
}

/// The vertex number of the `i`-th cell around the edge.
pub open spec fn quad_vertex(cell_shape: [u32; 3], vertex_indices: Seq<i32>, x: u32, y: u32, z: u32, axis: usize, i: int) -> u32 {
    vertex_indices[plain_index(cell_shape, cell_pos(quad_cell(x, y, z, axis, i)))] as u32
}

/// The two triangles of the quad around the edge. When the voxel at the
/// edge's start is inside, they are wound the other way round.
pub open spec fn quad_triangles(
    cell_shape: [u32; 3],
    vertex_indices: Seq<i32>,
    x: u32,
    y: u32,
    z: u32,
    axis: usize,
    start_inside: bool,
) -> Seq<u32> {
    let q0 = quad_vertex(cell_shape, vertex_indices, x, y, z, axis, 0);
    let q1 = quad_vertex(cell_shape, vertex_indices, x, y, z, axis, 1);
    let q2 = quad_vertex(cell_shape, vertex_indices, x, y, z, axis, 2);
    let q3 = quad_vertex(cell_shape, vertex_indices, x, y, z, axis, 3);
    if start_inside {
        seq![q0, q2, q1, q0, q3, q2]
    } else {
        seq![q0, q1, q2, q0, q2, q3]
    }
}

/// What the edge adds to the index list: its two triangles when all four
/// cells around it have vertices, nothing otherwise.
pub open spec fn quad_indices(
    cell_shape: [u32; 3],
    vertex_indices: Seq<i32>,
    x: u32,
    y: u32,
    z: u32,
    axis: usize,
    start_inside: bool,
) -> Seq<u32> {
    if quad_complete(cell_shape, vertex_indices, x, y, z, axis) {
        quad_triangles(cell_shape, vertex_indices, x, y, z, axis, start_inside)
    } else {
        Seq::empty()
    }
}

proof fn lemma_cast_bound(c: i32, limit: u32)
    requires
        0 <= c < (limit as i32) as int,
    ensures
        c < limit,
{
    if limit <= i32::MAX {
        assert((limit as i32) as int == limit as int);
    }
}

/// Appends to `indices` the two triangles of the quad around the edge that
/// leaves voxel `(x, y, z)` along `axis`, when all four cells around the edge
/// lie inside `cell_shape` and have vertices; otherwise appends nothing.
pub fn collect_quad_indices(
    x: u32,
    y: u32,
    z: u32,
    axis_idx: usize,
    start_inside: bool,
    cell_shape: [u32; 3],
    vertex_indices: &Vec<i32>,
    indices: &mut Vec<u32>,
)
    requires
        shape_fits(cell_shape),
        vertex_indices.len() == shape_size(cell_shape),
        quad_decrements_ok(x, y, z, axis_idx),
    ensures
        final(indices)@ == old(indices)@ + quad_indices(cell_shape, vertex_indices@, x, y, z, axis_idx, start_inside),
{
    let cx = x as i32;
    let cy = y as i32;
    let cz = z as i32;
    let cells: [(i32, i32, i32); 4] = if axis_idx == 0 {
        [(cx, cy, cz), (cx, cy, cz - 1), (cx, cy - 1, cz - 1), (cx, cy - 1, cz)]
    } else if axis_idx == 1 {
        [(cx, cy, cz), (cx - 1, cy, cz), (cx - 1, cy, cz - 1), (cx, cy, cz - 1)]
    } else {
        [(cx, cy, cz), (cx, cy - 1, cz), (cx - 1, cy - 1, cz), (cx - 1, cy, cz)]
    };
    let cell_limits = cell_shape;
    let mut quad: Vec<u32> = Vec::new();
    let mut i: usize = 0;
    while i < 4
        invariant
            i <= 4,
            shape_fits(cell_shape),
            vertex_indices.len() == shape_size(cell_shape),
            cell_limits == cell_shape,
            indices@ == old(indices)@,
            forall|k: int| 0 <= k < 4 ==> (#[trigger] cells[k]).0 as int == quad_cell(x, y, z, axis_idx, k).0
                && cells[k].1 as int == quad_cell(x, y, z, axis_idx, k).1
                && cells[k].2 as int == quad_cell(x, y, z, axis_idx, k).2,
            quad.len() == i,
            forall|k: int| 0 <= k < i ==> quad_cell_ok(cell_shape, vertex_indices@, #[trigger] quad_cell(x, y, z, axis_idx, k)),
            forall|k: int| 0 <= k < i ==> #[trigger] quad@[k] == quad_vertex(cell_shape, vertex_indices@, x, y, z, axis_idx, k),
        decreases 4 - i,
    {
        let (ccx, ccy, ccz) = cells[i];
        let ghost c = quad_cell(x, y, z, axis_idx, i as int);
        assert(ccx as int == c.0 && ccy as int == c.1 && ccz as int == c.2) by {
            assert(cells[i as int] == (ccx, ccy, ccz));
        }
        if ccx < 0 || ccx >= cell_limits[0] as i32 || ccy < 0 || ccy >= cell_limits[1] as i32 || ccz < 0
            || ccz >= cell_limits[2] as i32 {
            assert(!quad_cell_ok(cell_shape, vertex_indices@, c));
            return;
        }
        let pos = [ccx as u32, ccy as u32, ccz as u32];
        proof {
            lemma_cast_bound(ccx, cell_shape[0]);
            lemma_cast_bound(ccy, cell_shape[1]);
            lemma_cast_bound(ccz, cell_shape[2]);
            assert(pos == cell_pos(c));
            lemma_index_in_shape(cell_shape, pos);
            lemma_index_below(cell_shape, pos, pos);
        }
        let cell_idx = ndshape_linearize(cell_shape, pos);
        let v_idx = vertex_indices[cell_idx as usize];
        if v_idx < 0 {
            assert(!quad_cell_ok(cell_shape, vertex_indices@, c));
            return;
        }
        quad.push(v_idx as u32);
        i = i + 1;
    }
    let i0 = quad[0];
    let i1 = quad[1];
    let i2 = quad[2];
    let i3 = quad[3];
    assert(quad_complete(cell_shape, vertex_indices@, x, y, z, axis_idx));
    if start_inside {
        indices.push(i0);
        indices.push(i2);
        indices.push(i1);
        indices.push(i0);
        indices.push(i3);
        indices.push(i2);
    } else {
        indices.push(i0);
        indices.push(i1);
        indices.push(i2);
        indices.push(i0);
        indices.push(i2);
        indices.push(i3);
    }
    assert(indices@ =~= old(indices)@ + quad_indices(cell_shape, vertex_indices@, x, y, z, axis_idx, start_inside));
}

/// The voxel one step from `p` along `axis` (0: x, 1: y, 2: z).
pub open spec fn step(p: [u32; 3], axis: int) -> [u32; 3] {
    if axis == 0 {
        [(p[0] + 1) as u32, p[1], p[2]]
    } else if axis == 1 {
        [p[0], (p[1] + 1) as u32, p[2]]
    } else {
        [p[0], p[1], (p[2] + 1) as u32]
    }
}

/// What the edge from voxel `(x, y, z)` along `axis` adds to the index list:
/// when the voxels at its two ends lie on opposite sides of the surface, the
/// quad around it; otherwise nothing.
pub open spec fn edge_indices(
    grid: OrionVoxelGrid<bool>,
    cell_shape: [u32; 3],
    vertex_indices: Seq<i32>,
    x: u32,
    y: u32,
    z: u32,
    axis: int,
) -> Seq<u32> {
    let start = grid.density_at([x, y, z]);
    let end = grid.density_at(step([x, y, z], axis));
    if start != end {
        quad_indices(cell_shape, vertex_indices, x, y, z, axis as usize, start)
    } else {
        Seq::empty()
    }
}

/// What the edges from voxel `(x, y, z)` along the first `k` axes add.
pub open spec fn edges_upto(
    grid: OrionVoxelGrid<bool>,
    cell_shape: [u32; 3],
    vertex_indices: Seq<i32>,
    x: u32,
    y: u32,
    z: u32,
    k: int,
) -> Seq<u32>
    decreases k,
{
    if k <= 0 {
        Seq::empty()
    } else {
        edges_upto(grid, cell_shape, vertex_indices, x, y, z, k - 1)
            + edge_indices(grid, cell_shape, vertex_indices, x, y, z, k - 1)
    }
}

/// For each voxel, what its three edges add to the index list.
pub open spec fn voxel_indices(
    grid: OrionVoxelGrid<bool>,
    cell_shape: [u32; 3],
    vertex_indices: Seq<i32>,
) -> spec_fn(u32, u32, u32) -> Seq<u32> {
    |a: u32, b: u32, c: u32| edges_upto(grid, cell_shape, vertex_indices, a, b, c, 3)
}

proof fn lemma_edge_quad_listed(
    grid: OrionVoxelGrid<bool>,
    cell_shape: [u32; 3],
    vertex_indices: Seq<i32>,
    m: u32,
    x: u32,
    y: u32,
    z: u32,
    axis: int,
)
    requires
        x < m, y < m, z < m,
        0 <= axis < 3,
        grid.density_at(voxel(x, y, z)) != grid.density_at(step([x, y, z], axis)),
    ensures
        is_block(
            lex_concat(voxel_indices(grid, cell_shape, vertex_indices), m as nat),
            quad_indices(cell_shape, vertex_indices, x, y, z, axis as usize, grid.density_at(voxel(x, y, z))),
        ),
{
    let f = voxel_indices(grid, cell_shape, vertex_indices);
    lemma_edges_upto_three(grid, cell_shape, vertex_indices, x, y, z);
    let e0 = edge_indices(grid, cell_shape, vertex_indices, x, y, z, 0);
    let e1 = edge_indices(grid, cell_shape, vertex_indices, x, y, z, 1);
    let e2 = edge_indices(grid, cell_shape, vertex_indices, x, y, z, 2);
    lemma_block_of_three(e0, e1, e2);
    lemma_lex_block(f, m as nat, x, y, z);
    assert(voxel(x, y, z) == [x, y, z]);
    let e = edge_indices(grid, cell_shape, vertex_indices, x, y, z, axis);
    assert(e == quad_indices(cell_shape, vertex_indices, x, y, z, axis as usize, grid.density_at(voxel(x, y, z))));
    lemma_is_block_trans(lex_concat(f, m as nat), f(x, y, z), e);
}

/// Law: every edge from a voxel of `[0, m)^3` whose two end voxels lie on
/// opposite sides of the surface adds its quad to the index list: when the
/// four cells around the edge carry vertices, the edge's two triangles occur
/// together in the list, wound by the side of the edge's start voxel.
pub proof fn lemma_crossing_edges_listed(
    grid: OrionVoxelGrid<bool>,
    cell_shape: [u32; 3],
    vertex_indices: Seq<i32>,
    m: u32,
)
    ensures
        forall|x: u32, y: u32, z: u32| x < m && y < m && z < m
            && grid.density_at(voxel(x, y, z)) != grid.density_at(offset_voxel(x, y, z, 1, 0, 0))
            ==> is_block(
                lex_concat(voxel_indices(grid, cell_shape, vertex_indices), m as nat),
                #[trigger] quad_indices(cell_shape, vertex_indices, x, y, z, 0, grid.density_at(voxel(x, y, z))),
            ),
        forall|x: u32, y: u32, z: u32| x < m && y < m && z < m
            && grid.density_at(voxel(x, y, z)) != grid.density_at(offset_voxel(x, y, z, 0, 1, 0))
            ==> is_block(
                lex_concat(voxel_indices(grid, cell_shape, vertex_indices), m as nat),
                #[trigger] quad_indices(cell_shape, vertex_indices, x, y, z, 1, grid.density_at(voxel(x, y, z))),
            ),
        forall|x: u32, y: u32, z: u32| x < m && y < m && z < m
            && grid.density_at(voxel(x, y, z)) != grid.density_at(offset_voxel(x, y, z, 0, 0, 1))
            ==> is_block(
                lex_concat(voxel_indices(grid, cell_shape, vertex_indices), m as nat),
                #[trigger] quad_indices(cell_shape, vertex_indices, x, y, z, 2, grid.density_at(voxel(x, y, z))),
            ),
{
    assert forall|x: u32, y: u32, z: u32| x < m && y < m && z < m
        && grid.density_at(voxel(x, y, z)) != grid.density_at(offset_voxel(x, y, z, 1, 0, 0))
        implies is_block(
            lex_concat(voxel_indices(grid, cell_shape, vertex_indices), m as nat),
            #[trigger] quad_indices(cell_shape, vertex_indices, x, y, z, 0, grid.density_at(voxel(x, y, z))),
        ) by {
        assert(step([x, y, z], 0) == offset_voxel(x, y, z, 1, 0, 0));
        lemma_edge_quad_listed(grid, cell_shape, vertex_indices, m, x, y, z, 0);
    }
    assert forall|x: u32, y: u32, z: u32| x < m && y < m && z < m
        && grid.density_at(voxel(x, y, z)) != grid.density_at(offset_voxel(x, y, z, 0, 1, 0))
        implies is_block(
            lex_concat(voxel_indices(grid, cell_shape, vertex_indices), m as nat),
            #[trigger] quad_indices(cell_shape, vertex_indices, x, y, z, 1, grid.density_at(voxel(x, y, z))),
        ) by {
        assert(step([x, y, z], 1) == offset_voxel(x, y, z, 0, 1, 0));
        lemma_edge_quad_listed(grid, cell_shape, vertex_indices, m, x, y, z, 1);
    }
    assert forall|x: u32, y: u32, z: u32| x < m && y < m && z < m
        && grid.density_at(voxel(x, y, z)) != grid.density_at(offset_voxel(x, y, z, 0, 0, 1))
        implies is_block(
            lex_concat(voxel_indices(grid, cell_shape, vertex_indices), m as nat),
            #[trigger] quad_indices(cell_shape, vertex_indices, x, y, z, 2, grid.density_at(voxel(x, y, z))),
        ) by {
        assert(step([x, y, z], 2) == offset_voxel(x, y, z, 0, 0, 1));
        lemma_edge_quad_listed(grid, cell_shape, vertex_indices, m, x, y, z, 2);
    }
}

/// The voxel one step from `(x, y, z)` along `axis`.
pub open spec fn neighbor_voxel(x: u32, y: u32, z: u32, axis: int) -> [u32; 3] {
    offset_voxel(
        x,
        y,
        z,
        if axis == 0 { 1 } else { 0 },
        if axis == 1 { 1 } else { 0 },
        if axis == 2 { 1 } else { 0 },
    )
}

/// `block` is the pair of triangles of an edge from a voxel of `[0, m)^3`
/// whose two end voxels lie on opposite sides of the surface and whose four
/// surrounding cells carry vertices.
pub open spec fn is_crossing_quad(
    grid: OrionVoxelGrid<bool>,
    cell_shape: [u32; 3],
    vertex_indices: Seq<i32>,
    m: u32,
) -> spec_fn(Seq<u32>) -> bool {
    |block: Seq<u32>| exists|x: u32, y: u32, z: u32, axis: int|
        x < m && y < m && z < m && 0 <= axis < 3
            && grid.density_at(voxel(x, y, z)) != grid.density_at(neighbor_voxel(x, y, z, axis))
            && quad_complete(cell_shape, vertex_indices, x, y, z, axis as usize)
            && block == #[trigger] quad_triangles(cell_shape, vertex_indices, x, y, z, axis as usize, grid.density_at(voxel(x, y, z)))
}

proof fn lemma_edge_group(
    grid: OrionVoxelGrid<bool>,
    cell_shape: [u32; 3],
    vertex_indices: Seq<i32>,
    m: u32,
    x: u32,
    y: u32,
    z: u32,
    axis: int,
)
    requires
        x < m, y < m, z < m,
        0 <= axis < 3,
    ensures
        groups_satisfy(edge_indices(grid, cell_shape, vertex_indices, x, y, z, axis), 6, is_crossing_quad(grid, cell_shape, vertex_indices, m)),
        edge_indices(grid, cell_shape, vertex_indices, x, y, z, axis).len() % 6 == 0,
{
    let e = edge_indices(grid, cell_shape, vertex_indices, x, y, z, axis);
    let p = is_crossing_quad(grid, cell_shape, vertex_indices, m);
    assert(step([x, y, z], axis) == neighbor_voxel(x, y, z, axis));
    assert(voxel(x, y, z) == [x, y, z]);
    if e.len() > 0 {
        assert(e.len() == 6);
        assert(e.subrange(0, 6) =~= e);
        let start = grid.density_at(voxel(x, y, z));
        assert(e == quad_triangles(cell_shape, vertex_indices, x, y, z, axis as usize, start));
        assert(p(e));
        assert forall|t: int| 0 <= t && 6 * t + 6 <= e.len() implies #[trigger] p(e.subrange(6 * t, 6 * t + 6)) by {
            assert(t == 0);
        }
    }
}

/// Law: the index list is made of whole quads, each the pair of triangles
/// of an edge from a voxel of `[0, m)^3` whose two end voxels lie on opposite
/// sides of the surface and whose four surrounding cells carry vertices;
/// nothing else is listed.
pub proof fn lemma_index_list_holds_only_crossing_quads(
    grid: OrionVoxelGrid<bool>,
    cell_shape: [u32; 3],
    vertex_indices: Seq<i32>,
    m: u32,
)
    ensures
        lex_concat(voxel_indices(grid, cell_shape, vertex_indices), m as nat).len() % 6 == 0,
        groups_satisfy(
            lex_concat(voxel_indices(grid, cell_shape, vertex_indices), m as nat),
            6,
            is_crossing_quad(grid, cell_shape, vertex_indices, m),
        ),
{
    let f = voxel_indices(grid, cell_shape, vertex_indices);
    let p = is_crossing_quad(grid, cell_shape, vertex_indices, m);
    assert forall|a: u32, b: u32, c: u32| a < m && b < m && c < m implies #[trigger] f(a, b, c).len() % 6 == 0
        && groups_satisfy(f(a, b, c), 6, p) by {
        lemma_edges_upto_three(grid, cell_shape, vertex_indices, a, b, c);
        lemma_edge_group(grid, cell_shape, vertex_indices, m, a, b, c, 0);
        lemma_edge_group(grid, cell_shape, vertex_indices, m, a, b, c, 1);
        lemma_edge_group(grid, cell_shape, vertex_indices, m, a, b, c, 2);
        let e0 = edge_indices(grid, cell_shape, vertex_indices, a, b, c, 0);
        let e1 = edge_indices(grid, cell_shape, vertex_indices, a, b, c, 1);
        let e2 = edge_indices(grid, cell_shape, vertex_indices, a, b, c, 2);
        lemma_groups_add(e0, e1, 6, p);
        lemma_groups_add(e0 + e1, e2, 6, p);
    }
    lemma_lex_len_mod(f, 6, m as nat);
    lemma_lex_groups(f, 6, p, m as nat);
}

/// A cube whose cell count fits in `u32` has fewer than 1626 cells a side.
pub proof fn lemma_cube_side(m: int)
    requires
        0 <= m,
        m * m * m <= u32::MAX,
    ensures
        m < 1626,
{
    if m >= 1626 {
        assert(m * m >= 1626 * 1626) by (nonlinear_arith)
            requires m >= 1626;
        assert(m * m * m >= 1626 * 1626 * 1626) by (nonlinear_arith)
            requires m >= 1626, m * m >= 1626 * 1626;
    }
}

/// The facts that hold throughout the listing of the triangles.
pub open spec fn indexing_frame(
    grid: OrionVoxelGrid<bool>,
    size: u32,
    cell_shape: [u32; 3],
    vertex_indices: Seq<i32>,
    m: u32,
) -> bool {
    &&& m == size + 1
    &&& m < 1626
    &&& shape_fits(grid.shape)
    &&& readable_upto(grid, m)
    &&& cell_shape == cube(m)
    &&& shape_fits(cell_shape)
    &&& vertex_indices.len() == shape_size(cell_shape)
}

/// Lists the triangles of the mesh: for each voxel of `[0, size]^3`, with `x`
/// outermost and `z` innermost, and for each of its edges along x, y and z
/// in that order, the quad around the edge when the edge crosses the
/// surface and the four cells around it have vertices.
pub fn generate_indices(
    grid: &OrionVoxelGrid<bool>,
    size: u32,
    cell_shape: [u32; 3],
    vertex_indices: &Vec<i32>,
) -> (indices: Vec<u32>)
    requires
        shape_fits(grid.shape),
        size < u32::MAX,
        readable_upto(*grid, (size + 1) as u32),
        cell_shape == cube((size + 1) as u32),
        shape_size(cell_shape) <= u32::MAX,
        vertex_indices.len() == shape_size(cell_shape),
    ensures
        indices@ == lex_concat(voxel_indices(*grid, cell_shape, vertex_indices@), (size + 1) as nat),
{
    let ghost f = voxel_indices(*grid, cell_shape, vertex_indices@);
    let m: u32 = size + 1;
    proof {
        lemma_cube_side(m as int);
    }
    assert(shape_fits(cell_shape)) by {
        assert(m * m <= m * m * m) by (nonlinear_arith)
            requires m >= 1;
    }
    let mut indices: Vec<u32> = Vec::new();
    let mut x: u32 = 0;
    while x < m
        invariant
            x <= m,
            indexing_frame(*grid, size, cell_shape, vertex_indices@, m),
            f == voxel_indices(*grid, cell_shape, vertex_indices@),
            indices@ == lex_prefix(f, m as nat, x as nat, 0, 0),
        decreases m - x,
    {
        let mut y: u32 = 0;
        while y < m
            invariant
                x < m,
                y <= m,
                indexing_frame(*grid, size, cell_shape, vertex_indices@, m),
                f == voxel_indices(*grid, cell_shape, vertex_indices@),
                indices@ == lex_prefix(f, m as nat, x as nat, y as nat, 0),
            decreases m - y,
        {
            let mut z: u32 = 0;
            while z < m
                invariant
                    x < m,
                    y < m,
                    z <= m,
                    indexing_frame(*grid, size, cell_shape, vertex_indices@, m),
                    f == voxel_indices(*grid, cell_shape, vertex_indices@),
                    indices@ == lex_prefix(f, m as nat, x as nat, y as nat, z as nat),
                decreases m - z,
            {
                let ghost before = indices@;
                let local_pos = [x, y, z];
                assert(grid.readable(local_pos)) by {
                    assert(coords_le(local_pos, cube(m)));
                }
                let current_density = grid.get_density(local_pos);
                let mut axis_idx: usize = 0;
                while axis_idx < 3
                    invariant
                        axis_idx <= 3,
                        x < m,
                        y < m,
                        z < m,
                        indexing_frame(*grid, size, cell_shape, vertex_indices@, m),
                        current_density == grid.density_at(local_pos),
                        local_pos == [x, y, z],
                        indices@ == before + edges_upto(*grid, cell_shape, vertex_indices@, x, y, z, axis_idx as int),
                    decreases 3 - axis_idx,
                {
                    let neighbor_pos = if axis_idx == 0 {
                        [x + 1, y, z]
                    } else if axis_idx == 1 {
                        [x, y + 1, z]
                    } else {
                        [x, y, z + 1]
                    };
                    assert(neighbor_pos == step(local_pos, axis_idx as int));
                    assert(grid.readable(neighbor_pos)) by {
                        assert(coords_le(neighbor_pos, cube(m)));
                    }
                    let neighbor_density = grid.get_density(neighbor_pos);
                    let ghost mid = indices@;
                    if current_density != neighbor_density {
                        collect_quad_indices(
                            x,
                            y,
                            z,
                            axis_idx,
                            current_density,
                            cell_shape,
                            vertex_indices,
                            &mut indices,
                        );
                    } else {
                        assert(edge_indices(*grid, cell_shape, vertex_indices@, x, y, z, axis_idx as int)
                            =~= Seq::<u32>::empty());
                    }
                    assert(indices@ =~= before + edges_upto(*grid, cell_shape, vertex_indices@, x, y, z, axis_idx + 1));
                    axis_idx = axis_idx + 1;
                }
                proof {
                    lemma_lex_step(f, m as nat, x as nat, y as nat, z as nat);
                }
                z = z + 1;
            }
            proof {
                lemma_lex_next_row(f, m as nat, x as nat, y as nat);
            }
            y = y + 1;
        }
        proof {
            lemma_lex_next_plane(f, m as nat, x as nat);
        }
        x = x + 1;
    }
    proof {
        lemma_lex_whole(f, m as nat);
    }
    indices
}

proof fn lemma_edges_upto_three(
    grid: OrionVoxelGrid<bool>,
    cell_shape: [u32; 3],
    vertex_indices: Seq<i32>,
    x: u32,
    y: u32,
    z: u32,
)
    ensures
        edges_upto(grid, cell_shape, vertex_indices, x, y, z, 3)
            == edge_indices(grid, cell_shape, vertex_indices, x, y, z, 0)
            + edge_indices(grid, cell_shape, vertex_indices, x, y, z, 1)
            + edge_indices(grid, cell_shape, vertex_indices, x, y, z, 2),
{
    reveal_with_fuel(edges_upto, 4);
    assert(edges_upto(grid, cell_shape, vertex_indices, x, y, z, 1)
        =~= edge_indices(grid, cell_shape, vertex_indices, x, y, z, 0));
}

/// The vertex numbers that `extract_surface_nets` hands to
/// `generate_indices`: at the index of each cell of `[0, m)^3` that carries a
/// vertex, that vertex's number (as `i32`); `-1` everywhere else.
pub open spec fn vertex_table(grid: OrionVoxelGrid<bool>, m: u32) -> Seq<i32> {
    let cells = surface_cells(grid, m as nat);
    Seq::new(
        shape_size(cube(m)) as nat,
        |j: int|
            if exists|i: int| 0 <= i < cells.len() && plain_index(cube(m), #[trigger] cells[i]) == j {
                (choose|i: int| 0 <= i < cells.len() && plain_index(cube(m), #[trigger] cells[i]) == j) as i32
            } else {
                -1i32
            },
    )
}

proof fn lemma_nonnegative_number(v: u32)
    ensures
        (v as i32) >= 0 ==> v <= 0x7fff_ffff,
{
    assert((v as i32) >= 0 ==> v <= 0x7fff_ffff) by (bit_vector);
}

/// After numbering the vertices into a table filled with `-1`, the table is
/// `vertex_table`.
proof fn lemma_vertex_table(
    grid: OrionVoxelGrid<bool>,
    m: u32,
    initial: Seq<i32>,
    table: Seq<i32>,
    vertices: Seq<SurfaceVertex>,
)
    requires
        initial.len() == shape_size(cube(m)),
        forall|j: int| 0 <= j < initial.len() ==> #[trigger] initial[j] == -1i32,
        table.len() == initial.len(),
        vertices.len() == surface_cells(grid, m as nat).len(),
        forall|i: int| 0 <= i < vertices.len() ==> #[trigger] vertices[i].cell == surface_cells(grid, m as nat)[i],
        forall|i: int, k: int| 0 <= i < k < vertices.len() ==> lex_before(
            vertices[i].cell[0] as int, vertices[i].cell[1] as int, vertices[i].cell[2] as int,
            vertices[k].cell[0] as int, vertices[k].cell[1] as int, vertices[k].cell[2] as int,
        ),
        forall|i: int| 0 <= i < vertices.len() ==> in_shape(cube(m), #[trigger] vertices[i].cell),
        forall|i: int| 0 <= i < vertices.len()
            ==> table[plain_index(cube(m), #[trigger] vertices[i].cell)] == i as i32,
        forall|j: int| 0 <= j < initial.len() && !is_vertex_slot(cube(m), vertices, j)
            ==> #[trigger] table[j] == initial[j],
    ensures
        table == vertex_table(grid, m),
{
    let cells = surface_cells(grid, m as nat);
    let expected = vertex_table(grid, m);
    let cell_shape = cube(m);
    assert forall|j: int| 0 <= j < table.len() implies #[trigger] table[j] == expected[j] by {
        if is_vertex_slot(cell_shape, vertices, j) {
            let i = choose|i: int| 0 <= i < vertices.len() && plain_index(cell_shape, #[trigger] vertices[i].cell) == j;
            assert(cells[i] == vertices[i].cell);
            assert(exists|i: int| 0 <= i < cells.len() && plain_index(cube(m), #[trigger] cells[i]) == j);
            let i2 = choose|i: int| 0 <= i < cells.len() && plain_index(cube(m), #[trigger] cells[i]) == j;
            assert(cells[i2] == vertices[i2].cell);
            if i != i2 {
                if i < i2 {
                    assert(lex_before(
                        vertices[i].cell[0] as int, vertices[i].cell[1] as int, vertices[i].cell[2] as int,
                        vertices[i2].cell[0] as int, vertices[i2].cell[1] as int, vertices[i2].cell[2] as int,
                    ));
                } else {
                    assert(lex_before(
                        vertices[i2].cell[0] as int, vertices[i2].cell[1] as int, vertices[i2].cell[2] as int,
                        vertices[i].cell[0] as int, vertices[i].cell[1] as int, vertices[i].cell[2] as int,
                    ));
                }
                lemma_index_injective(cell_shape, vertices[i].cell, vertices[i2].cell);
            }
            assert(expected[j] == i as i32);
        } else {
            if exists|i: int| 0 <= i < cells.len() && plain_index(cube(m), #[trigger] cells[i]) == j {
                let i2 = choose|i: int| 0 <= i < cells.len() && plain_index(cube(m), #[trigger] cells[i]) == j;
                assert(cells[i2] == vertices[i2].cell);
                assert(is_vertex_slot(cell_shape, vertices, j));
            }
            assert(expected[j] == -1i32);
        }
    }
    assert(table =~= expected);
}

/// The index list built from `vertex_table` is a list of whole triangles, and
/// each of its indices is the number of a vertex.
proof fn lemma_index_list_laws(grid: OrionVoxelGrid<bool>, m: u32)
    requires
        1 <= m,
        m * m * m <= u32::MAX,
    ensures
        lex_concat(voxel_indices(grid, cube(m), vertex_table(grid, m)), m as nat).len() % 3 == 0,
        forall|k: int| 0 <= k < lex_concat(voxel_indices(grid, cube(m), vertex_table(grid, m)), m as nat).len()
            ==> #[trigger] lex_concat(voxel_indices(grid, cube(m), vertex_table(grid, m)), m as nat)[k]
                < surface_cells(grid, m as nat).len(),
{
    let cell_shape = cube(m);
    let table = vertex_table(grid, m);
    let n = surface_cells(grid, m as nat).len();
    let f = voxel_indices(grid, cell_shape, table);
    assert forall|a: u32, b: u32, c: u32| a < m && b < m && c < m implies #[trigger] f(a, b, c).len() % 3 == 0 by {
        lemma_edges_upto_three(grid, cell_shape, table, a, b, c);
    }
    lemma_lex_len_mod(f, 3, m as nat);
    let p = |v: u32| v < n;
    assert forall|a: u32, b: u32, c: u32, k: int| a < m && b < m && c < m && 0 <= k < f(a, b, c).len()
        implies p(#[trigger] f(a, b, c)[k]) by {
        lemma_voxel_indices_bounded(grid, m, a, b, c);
    }
    lemma_lex_all(f, p, m as nat);
}

/// Each index that a voxel's edges add is the number of a vertex.
proof fn lemma_voxel_indices_bounded(grid: OrionVoxelGrid<bool>, m: u32, a: u32, b: u32, c: u32)
    requires
        1 <= m,
        m * m * m <= u32::MAX,
    ensures
        forall|k: int| 0 <= k < edges_upto(grid, cube(m), vertex_table(grid, m), a, b, c, 3).len()
            ==> #[trigger] edges_upto(grid, cube(m), vertex_table(grid, m), a, b, c, 3)[k]
                < surface_cells(grid, m as nat).len(),
{
    let table = vertex_table(grid, m);
    lemma_edges_upto_three(grid, cube(m), table, a, b, c);
    lemma_edge_indices_bounded(grid, m, a, b, c, 0);
    lemma_edge_indices_bounded(grid, m, a, b, c, 1);
    lemma_edge_indices_bounded(grid, m, a, b, c, 2);
    let e0 = edge_indices(grid, cube(m), table, a, b, c, 0);
    let e1 = edge_indices(grid, cube(m), table, a, b, c, 1);
    let e2 = edge_indices(grid, cube(m), table, a, b, c, 2);
    let all = edges_upto(grid, cube(m), table, a, b, c, 3);
    assert forall|k: int| 0 <= k < all.len() implies #[trigger] all[k] < surface_cells(grid, m as nat).len() by {
        if k < e0.len() {
            assert(all[k] == e0[k]);
        } else if k < e0.len() + e1.len() {
            assert(all[k] == e1[k - e0.len()]);
        } else {
            assert(all[k] == e2[k - e0.len() - e1.len()]);
        }
    }
}

/// Each index that one edge adds is the number of a vertex.
proof fn lemma_edge_indices_bounded(grid: OrionVoxelGrid<bool>, m: u32, a: u32, b: u32, c: u32, axis: int)
    requires
        1 <= m,
        m * m * m <= u32::MAX,
        0 <= axis < 3,
    ensures
        forall|k: int| 0 <= k < edge_indices(grid, cube(m), vertex_table(grid, m), a, b, c, axis).len()
            ==> #[trigger] edge_indices(grid, cube(m), vertex_table(grid, m), a, b, c, axis)[k]
                < surface_cells(grid, m as nat).len(),
{
    let table = vertex_table(grid, m);
    let ax = axis as usize;
    if quad_complete(cube(m), table, a, b, c, ax) {
        assert(quad_cell_ok(cube(m), table, quad_cell(a, b, c, ax, 0)));
        assert(quad_cell_ok(cube(m), table, quad_cell(a, b, c, ax, 1)));
        assert(quad_cell_ok(cube(m), table, quad_cell(a, b, c, ax, 2)));
        assert(quad_cell_ok(cube(m), table, quad_cell(a, b, c, ax, 3)));
        lemma_table_entry(grid, m, quad_cell(a, b, c, ax, 0));
        lemma_table_entry(grid, m, quad_cell(a, b, c, ax, 1));
        lemma_table_entry(grid, m, quad_cell(a, b, c, ax, 2));
        lemma_table_entry(grid, m, quad_cell(a, b, c, ax, 3));
    }
}

/// A non-negative entry of `vertex_table` at a cell is the number of a vertex.
proof fn lemma_table_entry(grid: OrionVoxelGrid<bool>, m: u32, cell: (int, int, int)) -> (i: int)
    requires
        1 <= m,
        m * m * m <= u32::MAX,
        quad_cell_ok(cube(m), vertex_table(grid, m), cell),
    ensures
        0 <= i < surface_cells(grid, m as nat).len(),
        plain_index(cube(m), surface_cells(grid, m as nat)[i]) == plain_index(cube(m), cell_pos(cell)),
        (vertex_table(grid, m)[plain_index(cube(m), cell_pos(cell))] as u32) as int == i,
        in_shape(cube(m), cell_pos(cell)),
{
    let cell_shape = cube(m);
    let table = vertex_table(grid, m);
    let cells = surface_cells(grid, m as nat);
    let j = plain_index(cell_shape, cell_pos(cell));
    lemma_cast_bound(cell.0 as i32, m);
    lemma_cast_bound(cell.1 as i32, m);
    lemma_cast_bound(cell.2 as i32, m);
    lemma_index_in_shape(cell_shape, cell_pos(cell));
    assert(table[j] >= 0);
    assert(exists|i: int| 0 <= i < cells.len() && plain_index(cube(m), #[trigger] cells[i]) == j);
    let i = choose|i: int| 0 <= i < cells.len() && plain_index(cube(m), #[trigger] cells[i]) == j;
    assert(table[j] == i as i32);
    lemma_lex_len_bound(vertex_cells(grid), m as nat);
    let v = i as u32;
    lemma_nonnegative_number(v);
    assert(i <= 0x7fff_ffff);
    i
}

/// Two different cells around an edge whose quad is complete have
/// different vertex numbers.
proof fn lemma_quad_vertices_differ(grid: OrionVoxelGrid<bool>, m: u32, a: u32, b: u32, c: u32, axis: usize, q: int, r: int)
    requires
        1 <= m,
        m * m * m <= u32::MAX,
        0 <= q < 4,
        0 <= r < 4,
        q != r,
        quad_complete(cube(m), vertex_table(grid, m), a, b, c, axis),
    ensures
        quad_vertex(cube(m), vertex_table(grid, m), a, b, c, axis, q)
            != quad_vertex(cube(m), vertex_table(grid, m), a, b, c, axis, r),
{
    let table = vertex_table(grid, m);
    let cq = quad_cell(a, b, c, axis, q);
    let cr = quad_cell(a, b, c, axis, r);
    assert(quad_cell_ok(cube(m), table, cq));
    assert(quad_cell_ok(cube(m), table, cr));
    let iq = lemma_table_entry(grid, m, cq);
    let ir = lemma_table_entry(grid, m, cr);
    assert(cell_pos(cq) != cell_pos(cr)) by {
        assert(cq != cr);
        if cell_pos(cq) == cell_pos(cr) {
            assert(cell_pos(cq)[0] == cell_pos(cr)[0]);
            assert(cell_pos(cq)[1] == cell_pos(cr)[1]);
            assert(cell_pos(cq)[2] == cell_pos(cr)[2]);
        }
    }
    if plain_index(cube(m), cell_pos(cq)) == plain_index(cube(m), cell_pos(cr)) {
        lemma_index_injective(cube(m), cell_pos(cq), cell_pos(cr));
    }
}

/// Three pairwise different vertex numbers.
pub open spec fn distinct_corners() -> spec_fn(u32, u32, u32) -> bool {
    |p: u32, q: u32, r: u32| p != q && p != r && q != r
}

/// The two triangles that an edge adds each join three different vertices.
proof fn lemma_edge_triangles_distinct(grid: OrionVoxelGrid<bool>, m: u32, a: u32, b: u32, c: u32, axis: int)
    requires
        1 <= m,
        m * m * m <= u32::MAX,
        0 <= axis < 3,
    ensures
        triangles_satisfy(edge_indices(grid, cube(m), vertex_table(grid, m), a, b, c, axis), distinct_corners()),
        edge_indices(grid, cube(m), vertex_table(grid, m), a, b, c, axis).len() == 0
            || edge_indices(grid, cube(m), vertex_table(grid, m), a, b, c, axis).len() == 6,
{
    let table = vertex_table(grid, m);
    let ax = axis as usize;
    if quad_complete(cube(m), table, a, b, c, ax) {
        lemma_quad_vertices_differ(grid, m, a, b, c, ax, 0, 1);
        lemma_quad_vertices_differ(grid, m, a, b, c, ax, 0, 2);
        lemma_quad_vertices_differ(grid, m, a, b, c, ax, 0, 3);
        lemma_quad_vertices_differ(grid, m, a, b, c, ax, 1, 2);
        lemma_quad_vertices_differ(grid, m, a, b, c, ax, 2, 3);
        let e = edge_indices(grid, cube(m), table, a, b, c, axis);
        assert forall|t: int| 0 <= t && 3 * t + 2 < e.len() implies #[trigger] distinct_corners()(e[3 * t], e[3 * t + 1], e[3 * t + 2]) by {
            assert(t == 0 || t == 1);
        }
    }
}

/// The triangles that a voxel's edges add each join three different
/// vertices, and they come as whole quads.
proof fn lemma_voxel_triangles_distinct(grid: OrionVoxelGrid<bool>, m: u32, a: u32, b: u32, c: u32)
    requires
        1 <= m,
        m * m * m <= u32::MAX,
    ensures
        triangles_satisfy(edges_upto(grid, cube(m), vertex_table(grid, m), a, b, c, 3), distinct_corners()),
        edges_upto(grid, cube(m), vertex_table(grid, m), a, b, c, 3).len() % 6 == 0,
        edges_upto(grid, cube(m), vertex_table(grid, m), a, b, c, 3).len() % 3 == 0,
{
    let table = vertex_table(grid, m);
    lemma_edges_upto_three(grid, cube(m), table, a, b, c);
    lemma_edge_triangles_distinct(grid, m, a, b, c, 0);
    lemma_edge_triangles_distinct(grid, m, a, b, c, 1);
    lemma_edge_triangles_distinct(grid, m, a, b, c, 2);
    let e0 = edge_indices(grid, cube(m), table, a, b, c, 0);
    let e1 = edge_indices(grid, cube(m), table, a, b, c, 1);
    let e2 = edge_indices(grid, cube(m), table, a, b, c, 2);
    lemma_triangles_add(e0, e1, distinct_corners());
    lemma_triangles_add(e0 + e1, e2, distinct_corners());
}

/// The index list built from `vertex_table` comes as whole quads, and each
/// of its triangles joins three different vertices.
proof fn lemma_index_list_quads(grid: OrionVoxelGrid<bool>, m: u32)
    requires
        1 <= m,
        m * m * m <= u32::MAX,
    ensures
        lex_concat(voxel_indices(grid, cube(m), vertex_table(grid, m)), m as nat).len() % 6 == 0,
        triangles_satisfy(lex_concat(voxel_indices(grid, cube(m), vertex_table(grid, m)), m as nat), distinct_corners()),
{
    let f = voxel_indices(grid, cube(m), vertex_table(grid, m));
    assert forall|a: u32, b: u32, c: u32| a < m && b < m && c < m implies #[trigger] f(a, b, c).len() % 6 == 0
        && f(a, b, c).len() % 3 == 0 && triangles_satisfy(f(a, b, c), distinct_corners()) by {
        lemma_voxel_triangles_distinct(grid, m, a, b, c);
    }
    lemma_lex_len_mod(f, 6, m as nat);
    lemma_lex_triangles(f, distinct_corners(), m as nat);
}

/// `flipped` is `grid` with every inside flag flipped: the flags of the
/// chunk whose densities are those of `grid` negated.
pub open spec fn flipped_flags(flipped: OrionVoxelGrid<bool>, grid: OrionVoxelGrid<bool>) -> bool {
    &&& flipped.shape == grid.shape
    &&& flipped.data.len() == grid.data.len()
    &&& forall|i: int| 0 <= i < grid.data.len() ==> #[trigger] flipped.data@[i] == !grid.data@[i]
}

proof fn lemma_count_flipped(flags: Seq<bool>, flipped: Seq<bool>, n: int)
    requires
        0 <= n <= flags.len(),
        flipped.len() == flags.len(),
        forall|i: int| 0 <= i < flags.len() ==> #[trigger] flipped[i] == !flags[i],
    ensures
        count_inside(flipped, n) == n - count_inside(flags, n),
    decreases n,
{
    if n > 0 {
        lemma_count_flipped(flags, flipped, n - 1);
    }
}

proof fn lemma_crossings_flipped(flags: Seq<bool>, flipped: Seq<bool>, k: int)
    requires
        0 <= k <= 12,
        flags.len() == 8,
        flipped.len() == 8,
        forall|i: int| 0 <= i < 8 ==> #[trigger] flipped[i] == !flags[i],
    ensures
        crossings_upto(flipped, k) == crossings_upto(flags, k),
    decreases k,
{
    if k > 0 {
        lemma_crossings_flipped(flags, flipped, k - 1);
        let e = candidate_edge(k - 1);
        assert(0 <= edge_start(e) < 8 && 0 <= edge_end(e) < 8);
        assert(flipped[edge_start(e)] == !flags[edge_start(e)]);
        assert(flipped[edge_end(e)] == !flags[edge_end(e)]);
    }
}

/// Flipping every flag flips every corner of a cell, which keeps the cell's
/// vertex and its crossing edges.
proof fn lemma_cell_flipped(grid: OrionVoxelGrid<bool>, flipped: OrionVoxelGrid<bool>, m: u32, a: u32, b: u32, c: u32)
    requires
        flipped_flags(flipped, grid),
        readable_upto(grid, m),
        a < m, b < m, c < m,
    ensures
        straddles(corner_flags(flipped, a, b, c)) == straddles(corner_flags(grid, a, b, c)),
        cell_crossings(corner_flags(flipped, a, b, c)) == cell_crossings(corner_flags(grid, a, b, c)),
{
    let f = corner_flags(grid, a, b, c);
    let g = corner_flags(flipped, a, b, c);
    assert forall|i: int| 0 <= i < 8 implies #[trigger] g[i] == !f[i] by {
        let p = corner_pos(a, b, c, i);
        assert(coords_le(p, cube(m)));
        assert(grid.readable(p));
    }
    lemma_count_flipped(f, g, 8);
    lemma_crossings_flipped(f, g, 12);
}

proof fn lemma_edge_flipped(grid: OrionVoxelGrid<bool>, flipped: OrionVoxelGrid<bool>, m: u32, a: u32, b: u32, c: u32, axis: int)
    requires
        flipped_flags(flipped, grid),
        readable_upto(grid, m),
        a < m, b < m, c < m,
        0 <= axis < 3,
    ensures
        edge_indices(flipped, cube(m), vertex_table(grid, m), a, b, c, axis)
            == swap_winding(edge_indices(grid, cube(m), vertex_table(grid, m), a, b, c, axis)),
{
    let table = vertex_table(grid, m);
    let p = [a, b, c];
    let q = step(p, axis);
    assert(coords_le(p, cube(m)));
    assert(coords_le(q, cube(m)));
    assert(grid.readable(p) && grid.readable(q));
    assert(flipped.density_at(p) == !grid.density_at(p));
    assert(flipped.density_at(q) == !grid.density_at(q));
    let e = edge_indices(grid, cube(m), table, a, b, c, axis);
    let e2 = edge_indices(flipped, cube(m), table, a, b, c, axis);
    assert(e2 =~= swap_winding(e));
}

/// Law: flipping every inside flag, which is what negating every density
/// does to the flags, keeps the mesh's vertices, each with the same crossing
/// edges, and winds every triangle the other way round.
///
/// For the chunk `grid` and its flipped `flipped`, meshed over the cells of
/// `[0, m)^3` (that is, with `config.array_size == m - 1`), the terms below
/// are those of the `ensures` of `extract_surface_nets`.
pub proof fn lemma_flipped_flags_reverse_winding(grid: OrionVoxelGrid<bool>, flipped: OrionVoxelGrid<bool>, m: u32)
    requires
        flipped_flags(flipped, grid),
        1 <= m,
        m * m * m <= u32::MAX,
        readable_upto(grid, m),
    ensures
        readable_upto(flipped, m),
        surface_cells(flipped, m as nat) == surface_cells(grid, m as nat),
        forall|a: u32, b: u32, c: u32| a < m && b < m && c < m ==> #[trigger] cell_crossings(corner_flags(flipped, a, b, c))
            == cell_crossings(corner_flags(grid, a, b, c)),
        vertex_table(flipped, m) == vertex_table(grid, m),
        lex_concat(voxel_indices(flipped, cube(m), vertex_table(flipped, m)), m as nat)
            == swap_winding(lex_concat(voxel_indices(grid, cube(m), vertex_table(grid, m)), m as nat)),
{
    assert forall|p: [u32; 3]| coords_le(p, cube(m)) implies #[trigger] flipped.readable(p) by {
        assert(grid.readable(p));
    }
    assert forall|a: u32, b: u32, c: u32| a < m && b < m && c < m implies #[trigger] cell_crossings(corner_flags(flipped, a, b, c))
        == cell_crossings(corner_flags(grid, a, b, c)) by {
        lemma_cell_flipped(grid, flipped, m, a, b, c);
    }
    let vf = vertex_cells(flipped);
    let vg = vertex_cells(grid);
    assert forall|a: u32, b: u32, c: u32| a < m && b < m && c < m implies #[trigger] vf(a, b, c) == vg(a, b, c) by {
        lemma_cell_flipped(grid, flipped, m, a, b, c);
    }
    lemma_lex_congruent(vf, vg, m as nat);
    assert(vertex_table(flipped, m) =~= vertex_table(grid, m));
    let table = vertex_table(grid, m);
    let f = voxel_indices(grid, cube(m), table);
    let g = voxel_indices(flipped, cube(m), table);
    assert forall|a: u32, b: u32, c: u32| a < m && b < m && c < m implies #[trigger] f(a, b, c).len() % 3 == 0
        && g(a, b, c) == swap_winding(f(a, b, c)) by {
        lemma_voxel_triangles_distinct(grid, m, a, b, c);
        lemma_edges_upto_three(grid, cube(m), table, a, b, c);
        lemma_edges_upto_three(flipped, cube(m), table, a, b, c);
        lemma_edge_flipped(grid, flipped, m, a, b, c, 0);
        lemma_edge_flipped(grid, flipped, m, a, b, c, 1);
        lemma_edge_flipped(grid, flipped, m, a, b, c, 2);
        lemma_edge_triangles_distinct(grid, m, a, b, c, 0);
        lemma_edge_triangles_distinct(grid, m, a, b, c, 1);
        let e0 = edge_indices(grid, cube(m), table, a, b, c, 0);
        let e1 = edge_indices(grid, cube(m), table, a, b, c, 1);
        let e2 = edge_indices(grid, cube(m), table, a, b, c, 2);
        lemma_swap_winding_add(e0, e1);
        lemma_swap_winding_add(e0 + e1, e2);
    }
    lemma_lex_swap_winding(f, g, m as nat);
}

/// Builds the mesh topology of the chunk for the cells of
/// `[0, config.array_size]^3`: the vertices, numbered in the order `x`
/// outermost and `z` innermost, and the index list of the triangles that join
/// them.
///
/// Every index names a vertex of the returned list, and the index list is a
/// list of whole triangles.
pub fn extract_surface_nets<S>(grid: &OrionVoxelGrid<bool>, config: &VoxelConfig<S>) -> (mesh: (Vec<SurfaceVertex>, Vec<u32>))
    requires
        shape_fits(grid.shape),
        config.array_size < u32::MAX,
        (config.array_size + 1) * (config.array_size + 1) * (config.array_size + 1) <= u32::MAX,
        readable_upto(*grid, (config.array_size + 1) as u32),
    ensures
        mesh.0.len() == surface_cells(*grid, (config.array_size + 1) as nat).len(),
        forall|i: int| 0 <= i < mesh.0.len()
            ==> #[trigger] mesh.0@[i].cell == surface_cells(*grid, (config.array_size + 1) as nat)[i],
        forall|i: int| 0 <= i < mesh.0.len() ==> (#[trigger] mesh.0@[i]).crossings@
            == cell_crossings(corner_flags(*grid, mesh.0@[i].cell[0], mesh.0@[i].cell[1], mesh.0@[i].cell[2])),
        mesh.1@ == lex_concat(
            voxel_indices(*grid, cube((config.array_size + 1) as u32), vertex_table(*grid, (config.array_size + 1) as u32)),
            (config.array_size + 1) as nat,
        ),
        mesh.1.len() % 3 == 0,
        mesh.1.len() % 6 == 0,
        forall|k: int| 0 <= k < mesh.1.len() ==> #[trigger] mesh.1@[k] < mesh.0.len(),
        forall|t: int| 0 <= t && 3 * t + 2 < mesh.1.len() ==> {
            &&& #[trigger] mesh.1@[3 * t] != mesh.1@[3 * t + 1]
            &&& mesh.1@[3 * t] != mesh.1@[3 * t + 2]
            &&& mesh.1@[3 * t + 1] != mesh.1@[3 * t + 2]
        },
{
    let size = config.array_size;
    let cell_count = size + 1;
    let cell_shape = [cell_count, cell_count, cell_count];
    assert(shape_fits(cell_shape)) by {
        assert(cell_count * cell_count <= cell_count * cell_count * cell_count) by (nonlinear_arith)
            requires cell_count >= 1;
    }
    let cells_total = ndshape_size(cell_shape);
    let mut vertex_indices = vec![-1i32; cells_total as usize];
    let ghost initial = vertex_indices@;
    let vertices = generate_vertices(grid, size, cell_shape, &mut vertex_indices);
    proof {
        lemma_vertex_table(*grid, cell_count, initial, vertex_indices@, vertices@);
    }
    let indices = generate_indices(grid, size, cell_shape, &vertex_indices);
    proof {
        lemma_index_list_laws(*grid, cell_count);
        lemma_index_list_quads(*grid, cell_count);
        let idx = indices@;
        assert forall|t: int| 0 <= t && 3 * t + 2 < idx.len() implies {
            &&& #[trigger] idx[3 * t] != idx[3 * t + 1]
            &&& idx[3 * t] != idx[3 * t + 2]
            &&& idx[3 * t + 1] != idx[3 * t + 2]
        } by {
            assert(distinct_corners()(idx[3 * t], idx[3 * t + 1], idx[3 * t + 2]));
        }
    }
    (vertices, indices)
}

} // verus!
