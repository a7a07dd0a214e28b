use vstd::prelude::*;

verus! {

/// Side length of a cubic chunk, in voxels.
pub const CHUNK_SIZE: usize = 16;

/// Number of voxels in one chunk.
pub const CHUNK_VOLUME: usize = 4096;

/// The material of one voxel.
#[derive(Clone, Copy, Debug, PartialEq, Eq, Structural)]
pub enum Block {
    Air,
    Solid,
}

/// Position of voxel `(x, y, z)` in a chunk's flat voxel array.
pub open spec fn grid_index(x: int, y: int, z: int) -> int {
    x * 256 + y * 16 + z
}

/// Flat index of voxel `(x, y, z)` of a chunk.
pub fn block_index(x: usize, y: usize, z: usize) -> (r: usize)
    requires
        x < CHUNK_SIZE,
        y < CHUNK_SIZE,
        z < CHUNK_SIZE,
    ensures
        r == grid_index(x as int, y as int, z as int),
        r < CHUNK_VOLUME,
{
    x * 256 + y * 16 + z
}

} // verus!
