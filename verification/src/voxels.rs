//! Chunk grids of voxel samples.

use vstd::prelude::*;
use crate::shape::{linear_index, ndshape_linearize, shape_fits, shape_size};

verus! {

/// Integer coordinates of a chunk in the world, in units of chunks.
#[derive(Clone, Copy, Debug, PartialEq, Eq)]
pub struct ChunkCoord {
    pub x: i32,
    pub y: i32,
    pub z: i32,
}

/// Settings shared by all chunks: the number of voxels along each side of a
/// chunk, and the chunk's side length in world units (of the caller's scalar
/// type).
#[derive(Debug)]
pub struct VoxelConfig<S> {
    pub array_size: u32,
    pub grid_size: S,
}

/// A chunk of voxel samples: `data` holds one sample per voxel of an array of
/// shape `shape`.
pub struct OrionVoxelGrid<D> {
    pub coord: ChunkCoord,
    pub shape: [u32; 3],
    pub data: Vec<D>,
}

/// Where `new` stores the sample taken at `(x, y, z)` of an `n`-sided chunk:
/// samples are taken with `x` outermost and `z` innermost.
pub open spec fn sample_slot(n: int, x: int, y: int, z: int) -> int {
    x * n * n + y * n + z
}

/// `(a, b, c)` comes strictly before `(x, y, z)` with `x` most significant.
pub open spec fn lex_before(a: int, b: int, c: int, x: int, y: int, z: int) -> bool {
    a < x || (a == x && (b < y || (b == y && c < z)))
}

proof fn lemma_slot_before(n: int, a: int, b: int, c: int, x: int, y: int, z: int)
    requires
        0 <= a, 0 <= b < n, 0 <= c < n, 0 <= x, 0 <= y <= n, 0 <= z <= n,
        lex_before(a, b, c, x, y, z),
    ensures
        0 <= sample_slot(n, a, b, c) < sample_slot(n, x, y, z),
{
    assert(0 <= sample_slot(n, a, b, c)) by (nonlinear_arith)
        requires 0 <= a, 0 <= b, 0 <= c, 0 < n;
    if a < x {
        assert(sample_slot(n, a, b, c) < sample_slot(n, x, y, z)) by (nonlinear_arith)
            requires 0 <= a < x, 0 <= b < n, 0 <= c < n, 0 <= y, 0 <= z;
    } else if b < y {
        assert(sample_slot(n, a, b, c) < sample_slot(n, x, y, z)) by (nonlinear_arith)
            requires a == x, 0 <= b < y, 0 <= c < n, 0 <= z;
    }
}

/// `sample` can be called at every voxel of an `n`-sided chunk.
pub open spec fn sample_callable<D, F: Fn(u32, u32, u32) -> D>(sample: F, n: u32) -> bool {
    forall|x: u32, y: u32, z: u32| x < n && y < n && z < n ==> #[trigger] sample.requires((x, y, z))
}

/// `data` holds, each at its slot, the samples of the voxels before
/// `(x, y, z)` in the order `x` outermost, `z` innermost.
pub open spec fn sampled_before<D, F: Fn(u32, u32, u32) -> D>(sample: F, n: u32, data: Seq<D>, x: int, y: int, z: int) -> bool {
    &&& data.len() == sample_slot(n as int, x, y, z)
    &&& forall|a: u32, b: u32, c: u32|
        a < n && b < n && c < n && lex_before(a as int, b as int, c as int, x, y, z)
            ==> sample.ensures((a, b, c), #[trigger] data[sample_slot(n as int, a as int, b as int, c as int)])
}

impl<D> OrionVoxelGrid<D> {
    /// The grid's data has one sample per voxel of its shape, and the shape
    /// can be built by `ndshape`.
    pub open spec fn wf(&self) -> bool {
        &&& shape_fits(self.shape)
        &&& self.data.len() == shape_size(self.shape)
    }

    /// `get_density` can read at `local_pos` without an overflow or an
    /// out-of-bounds index.
    pub open spec fn readable(&self, local_pos: [u32; 3]) -> bool {
        &&& linear_index(self.shape, local_pos) <= u32::MAX
        &&& linear_index(self.shape, local_pos) < self.data.len()
    }

    /// The sample that `get_density` returns at `local_pos`.
    pub open spec fn density_at(&self, local_pos: [u32; 3]) -> D {
        self.data@[linear_index(self.shape, local_pos)]
    }

    /// Builds an `n`-sided chunk at `coord`, taking one sample per voxel by
    /// calling `sample(x, y, z)` for each voxel, with `x` outermost and `z`
    /// innermost, and storing the samples in that order.
    pub fn new<F: Fn(u32, u32, u32) -> D>(voxel_array_size: u32, coord: ChunkCoord, sample: F) -> (grid: Self)
        requires
            voxel_array_size * voxel_array_size * voxel_array_size <= u32::MAX,
            forall|x: u32, y: u32, z: u32|
                x < voxel_array_size && y < voxel_array_size && z < voxel_array_size
                    ==> #[trigger] sample.requires((x, y, z)),
        ensures
            grid.wf(),
            grid.coord == coord,
            grid.shape == [voxel_array_size, voxel_array_size, voxel_array_size],
            forall|x: u32, y: u32, z: u32|
                x < voxel_array_size && y < voxel_array_size && z < voxel_array_size
                    ==> sample.ensures(
                    (x, y, z),
                    #[trigger] grid.data@[sample_slot(voxel_array_size as int, x as int, y as int, z as int)],
                ),
    {
        let n = voxel_array_size;
        assert(n * n <= u32::MAX) by (nonlinear_arith)
            requires n * n * n <= u32::MAX, n >= 0;
        let mut data: Vec<D> = Vec::with_capacity((n * n * n) as usize);
        let mut x: u32 = 0;
        while x < n
            invariant
                x <= n,
                n * n * n <= u32::MAX,
                sample_callable(sample, n),
                sampled_before(sample, n, data@, x as int, 0, 0),
            decreases n - x,
        {
            let mut y: u32 = 0;
            while y < n
                invariant
                    x < n,
                    y <= n,
                    n * n * n <= u32::MAX,
                    sample_callable(sample, n),
                    sampled_before(sample, n, data@, x as int, y as int, 0),
                decreases n - y,
            {
                let mut z: u32 = 0;
                while z < n
                    invariant
                        x < n,
                        y < n,
                        z <= n,
                        n * n * n <= u32::MAX,
                        sample_callable(sample, n),
                        sampled_before(sample, n, data@, x as int, y as int, z as int),
                    decreases n - z,
                {
                    let value = sample(x, y, z);
                    let ghost old_data = data@;
                    data.push(value);
                    proof {
                        assert forall|a: u32, b: u32, c: u32|
                            a < n && b < n && c < n && lex_before(a as int, b as int, c as int, x as int, y as int, z + 1)
                                implies sample.ensures((a, b, c), #[trigger] data@[sample_slot(n as int, a as int, b as int, c as int)]) by {
                            if lex_before(a as int, b as int, c as int, x as int, y as int, z as int) {
                                lemma_slot_before(n as int, a as int, b as int, c as int, x as int, y as int, z as int);
                                assert(data@[sample_slot(n as int, a as int, b as int, c as int)]
                                    == old_data[sample_slot(n as int, a as int, b as int, c as int)]);
                            } else {
                                assert(a == x && b == y && c == z);
                            }
                        }
                    }
                    z = z + 1;
                }
                proof {
                    assert(sample_slot(n as int, x as int, y as int, n as int)
                        == sample_slot(n as int, x as int, y + 1, 0)) by (nonlinear_arith);
                    assert forall|a: u32, b: u32, c: u32|
                        a < n && b < n && c < n && lex_before(a as int, b as int, c as int, x as int, y + 1, 0)
                            implies sample.ensures((a, b, c), #[trigger] data@[sample_slot(n as int, a as int, b as int, c as int)]) by {
                        assert(lex_before(a as int, b as int, c as int, x as int, y as int, n as int));
                    }
                }
                y = y + 1;
            }
            proof {
                assert(sample_slot(n as int, x as int, n as int, 0)
                    == sample_slot(n as int, x + 1, 0, 0)) by (nonlinear_arith);
                assert forall|a: u32, b: u32, c: u32|
                    a < n && b < n && c < n && lex_before(a as int, b as int, c as int, x + 1, 0, 0)
                        implies sample.ensures((a, b, c), #[trigger] data@[sample_slot(n as int, a as int, b as int, c as int)]) by {
                    assert(lex_before(a as int, b as int, c as int, x as int, n as int, 0));
                }
            }
            x = x + 1;
        }
        proof {
            assert(sample_slot(n as int, n as int, 0, 0) == n * n * n) by (nonlinear_arith);
            assert forall|a: u32, b: u32, c: u32|
                a < n && b < n && c < n
                    implies sample.ensures((a, b, c), #[trigger] data@[sample_slot(n as int, a as int, b as int, c as int)]) by {
                assert(lex_before(a as int, b as int, c as int, n as int, 0, 0));
            }
        }
        OrionVoxelGrid { coord, shape: [n, n, n], data }
    }

    /// The sample at `local_pos`, found through `ndshape`'s linear index of
    /// the grid's shape (`x + X * y + X * Y * z`).
    pub fn get_density(&self, local_pos: [u32; 3]) -> (density: D)
        where D: Copy
        requires
            shape_fits(self.shape),
            self.readable(local_pos),
        ensures
            density == self.density_at(local_pos),
    {
        let linear_index = ndshape_linearize(self.shape, local_pos);
        self.data[linear_index as usize]
    }
}

/// Law: reading a cubic chunk at `(x, y, z)` gives the sample that `new`
/// took at `(z, y, x)`: `new` stores samples with `x` outermost while the
/// linear index of `get_density` steps fastest along `x`.
pub proof fn lemma_density_is_transposed_sample<D>(grid: OrionVoxelGrid<D>, n: u32, x: u32, y: u32, z: u32)
    requires
        grid.wf(),
        grid.shape == [n, n, n],
        x < n, y < n, z < n,
    ensures
        grid.readable([x, y, z]),
        grid.density_at([x, y, z]) == grid.data@[sample_slot(n as int, z as int, y as int, x as int)],
{
    let p = [x, y, z];
    crate::shape::lemma_index_in_shape(grid.shape, p);
    crate::shape::lemma_index_below(grid.shape, p, p);
    assert(sample_slot(n as int, z as int, y as int, x as int) == x + n * y + n * n * z) by (nonlinear_arith);
}

} // verus!
