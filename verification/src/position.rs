use vstd::prelude::*;

use crate::chunk::CHUNK_SIZE;

verus! {

/// Signed world-space coordinate of a single voxel.
#[derive(Debug, Clone, Copy, PartialEq, Eq, Hash, Structural)]
pub struct BlockPos {
    pub x: i32,
    pub y: i32,
    pub z: i32,
}

/// Signed coordinate of a chunk; one chunk covers a cube of
/// `CHUNK_SIZE` blocks along each axis.
#[derive(Debug, Clone, Copy, PartialEq, Eq, Hash, Structural)]
pub struct ChunkPos {
    pub x: i32,
    pub y: i32,
    pub z: i32,
}

/// Floored division: rounds toward negative infinity, so that block
/// coordinates of either sign map to the correct chunk.
pub fn div_floor(a: i32, b: i32) -> (r: i32)
    requires
        b > 0,
    ensures
        r == a as int / b as int,
{
    proof {
        let q = a as int / b as int;
        let m = a as int % b as int;
        vstd::arithmetic::div_mod::lemma_fundamental_div_mod(a as int, b as int);
        assert(i32::MIN <= q <= i32::MAX) by (nonlinear_arith)
            requires
                a as int == b as int * q + m,
                0 <= m < b as int,
                b as int >= 1,
                i32::MIN <= a as int <= i32::MAX,
        ;
    }
    a.checked_div_euclid(b).unwrap()
}

impl BlockPos {
    pub fn new(x: i32, y: i32, z: i32) -> (r: Self)
        ensures
            r == (BlockPos { x, y, z }),
    {
        Self { x, y, z }
    }

    /// Local offset of this block within its chunk.  Uses the floored
    /// remainder, so negative world coordinates map correctly.
    pub fn block_in_chunk(self) -> (r: (usize, usize, usize))
        ensures
            r.0 == self.x as int % (CHUNK_SIZE as int),
            r.1 == self.y as int % (CHUNK_SIZE as int),
            r.2 == self.z as int % (CHUNK_SIZE as int),
            r.0 < CHUNK_SIZE && r.1 < CHUNK_SIZE && r.2 < CHUNK_SIZE,
    {
        (
            self.x.checked_rem_euclid(CHUNK_SIZE as i32).unwrap() as usize,
            self.y.checked_rem_euclid(CHUNK_SIZE as i32).unwrap() as usize,
            self.z.checked_rem_euclid(CHUNK_SIZE as i32).unwrap() as usize,
        )
    }
}

/// True when `b` is one of the six face-adjacent neighbors of `a`.
pub open spec fn adjacent_spec(a: ChunkPos, b: ChunkPos) -> bool {
    ||| b.x == a.x - 1 && b.y == a.y && b.z == a.z
    ||| b.x == a.x + 1 && b.y == a.y && b.z == a.z
    ||| b.x == a.x && b.y == a.y - 1 && b.z == a.z
    ||| b.x == a.x && b.y == a.y + 1 && b.z == a.z
    ||| b.x == a.x && b.y == a.y && b.z == a.z - 1
    ||| b.x == a.x && b.y == a.y && b.z == a.z + 1
}

impl ChunkPos {
    pub fn new(x: i32, y: i32, z: i32) -> (r: Self)
        ensures
            r == (ChunkPos { x, y, z }),
    {
        Self { x, y, z }
    }

    /// The center of this chunk in world units, used for distance-based
    /// visibility tests.
    pub fn center(self) -> (r: (i64, i64, i64))
        ensures
            r.0 == self.x as int * CHUNK_SIZE as int + CHUNK_SIZE as int / 2,
            r.1 == self.y as int * CHUNK_SIZE as int + CHUNK_SIZE as int / 2,
            r.2 == self.z as int * CHUNK_SIZE as int + CHUNK_SIZE as int / 2,
    {
        let half = (CHUNK_SIZE / 2) as i64;
        (
            self.x as i64 * CHUNK_SIZE as i64 + half,
            self.y as i64 * CHUNK_SIZE as i64 + half,
            self.z as i64 * CHUNK_SIZE as i64 + half,
        )
    }

    /// True when `pos` shares a face with this chunk.
    pub fn is_adjacent(self, pos: ChunkPos) -> (r: bool)
        ensures
            r == adjacent_spec(self, pos),
    {
        let is_left = pos.x as i64 == self.x as i64 - 1 && pos.y == self.y && pos.z == self.z;
        let is_right = pos.x as i64 == self.x as i64 + 1 && pos.y == self.y && pos.z == self.z;
        let is_bottom = pos.y as i64 == self.y as i64 - 1 && pos.x == self.x && pos.z == self.z;
        let is_top = pos.y as i64 == self.y as i64 + 1 && pos.x == self.x && pos.z == self.z;
        let is_back = pos.z as i64 == self.z as i64 - 1 && pos.x == self.x && pos.y == self.y;
        let is_front = pos.z as i64 == self.z as i64 + 1 && pos.x == self.x && pos.y == self.y;
        is_left || is_right || is_bottom || is_top || is_back || is_front
    }
}

impl From<BlockPos> for ChunkPos {
    /// The chunk that contains a block, by floored division on each axis.
    fn from(value: BlockPos) -> (r: ChunkPos) {
        ChunkPos {
            x: div_floor(value.x, CHUNK_SIZE as i32),
            y: div_floor(value.y, CHUNK_SIZE as i32),
            z: div_floor(value.z, CHUNK_SIZE as i32),
        }
    }
}

impl vstd::std_specs::convert::FromSpecImpl<BlockPos> for ChunkPos {
    open spec fn obeys_from_spec() -> bool {
        true
    }

    open spec fn from_spec(v: BlockPos) -> ChunkPos {
        ChunkPos {
            x: (v.x as int / CHUNK_SIZE as int) as i32,
            y: (v.y as int / CHUNK_SIZE as int) as i32,
            z: (v.z as int / CHUNK_SIZE as int) as i32,
        }
    }
}

} // verus!
