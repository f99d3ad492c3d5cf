use vstd::prelude::*;

use crate::block_registry::BlockId;

verus! {

/// Edge length of a cubic chunk, in blocks.
pub const CHUNK_SIZE: usize = 32;

/// Number of blocks in one chunk.
pub const CHUNK_VOLUME: usize = CHUNK_SIZE * CHUNK_SIZE * CHUNK_SIZE;

/// Index of local coordinates (x, y, z) in the dense cell array: x varies
/// fastest, then y, then z.  This is also the fixed linear order in which
/// the persistence codec scans the cells.
pub open spec fn spec_cell_index(x: int, y: int, z: int) -> int {
    x + y * (CHUNK_SIZE as int) + z * (CHUNK_SIZE as int) * (CHUNK_SIZE as int)
}

/// Distinct local coordinates have distinct cell indices.
pub proof fn lemma_cell_index_injective(x1: int, y1: int, z1: int, x2: int, y2: int, z2: int)
    requires
        0 <= x1 < CHUNK_SIZE,
        0 <= y1 < CHUNK_SIZE,
        0 <= z1 < CHUNK_SIZE,
        0 <= x2 < CHUNK_SIZE,
        0 <= y2 < CHUNK_SIZE,
        0 <= z2 < CHUNK_SIZE,
        spec_cell_index(x1, y1, z1) == spec_cell_index(x2, y2, z2),
    ensures
        x1 == x2 && y1 == y2 && z1 == z2,
{
}

/// A dense cube of `CHUNK_VOLUME` cells, each either air (`None`) or a
/// typed block, addressed by local coordinates in `[0, CHUNK_SIZE)`.
#[derive(Debug, PartialEq)]
pub struct Chunk {
    blocks: Vec<Option<BlockId>>,
}

impl View for Chunk {
    type V = Seq<Option<BlockId>>;

    closed spec fn view(&self) -> Seq<Option<BlockId>> {
        self.blocks@
    }
}

impl Chunk {
    /// Well-formed: exactly one cell for every local coordinate.
    pub open spec fn wf(self) -> bool {
        self@.len() == CHUNK_VOLUME
    }

    /// The cell at local coordinates (x, y, z).
    pub open spec fn spec_block(self, x: int, y: int, z: int) -> Option<BlockId> {
        self@[spec_cell_index(x, y, z)]
    }

    /// A chunk of pure air.
    pub fn new() -> (r: Chunk)
        ensures
            r.wf(),
            forall|i: int| 0 <= i < CHUNK_VOLUME ==> r@[i] is None,
    {
        let blocks: Vec<Option<BlockId>> = vec![None; CHUNK_VOLUME];
        Chunk { blocks }
    }

    fn index(x: usize, y: usize, z: usize) -> (r: usize)
        requires
            x < CHUNK_SIZE,
            y < CHUNK_SIZE,
            z < CHUNK_SIZE,
        ensures
            r == spec_cell_index(x as int, y as int, z as int),
            r < CHUNK_VOLUME,
    {
        x + y * CHUNK_SIZE + z * CHUNK_SIZE * CHUNK_SIZE
    }

    /// The block at local coordinates (x, y, z), or `None` for air.
    pub fn block(&self, x: usize, y: usize, z: usize) -> (r: Option<BlockId>)
        requires
            self.wf(),
            x < CHUNK_SIZE,
            y < CHUNK_SIZE,
            z < CHUNK_SIZE,
        ensures
            r == self.spec_block(x as int, y as int, z as int),
    {
        self.blocks[Self::index(x, y, z)]
    }

    /// Replace the block at local coordinates (x, y, z).
    pub fn set_block(&mut self, x: usize, y: usize, z: usize, b: Option<BlockId>)
        requires
            old(self).wf(),
            x < CHUNK_SIZE,
            y < CHUNK_SIZE,
            z < CHUNK_SIZE,
        ensures
            final(self).wf(),
            final(self)@ == old(self)@.update(spec_cell_index(x as int, y as int, z as int), b),
    {
        let i = Self::index(x, y, z);
        self.blocks.set(i, b);
    }

    /// The cell at a linear index in scan order.
    pub fn cell(&self, i: usize) -> (r: Option<BlockId>)
        requires
            self.wf(),
            i < CHUNK_VOLUME,
        ensures
            r == self@[i as int],
    {
        self.blocks[i]
    }

    /// Append a cell; used when a chunk is rebuilt from its persisted form.
    pub fn push_cell(&mut self, b: Option<BlockId>)
        requires
            old(self)@.len() < CHUNK_VOLUME,
        ensures
            final(self)@ == old(self)@.push(b),
    {
        self.blocks.push(b);
    }

    /// An empty cell array, to be filled by `push_cell`.
    pub fn empty() -> (r: Chunk)
        ensures
            r@ == Seq::<Option<BlockId>>::empty(),
    {
        Chunk { blocks: Vec::new() }
    }
}

impl Clone for Chunk {
    /// An independent copy with the same cells.
    fn clone(&self) -> (r: Self)
        ensures
            r@ == self@,
    {
        let n = self.blocks.len();
        let mut blocks: Vec<Option<BlockId>> = Vec::new();
        let mut i: usize = 0;
        while i < n
            invariant
                i <= n,
                n == self.blocks@.len(),
                blocks@ == self.blocks@.take(i as int),
            decreases n - i,
        {
            blocks.push(self.blocks[i]);
            i += 1;
        }
        proof {
            assert(blocks@ =~= self.blocks@);
        }
        Chunk { blocks }
    }
}

impl Default for Chunk {
    /// A chunk of pure air.
    fn default() -> (r: Self)
        ensures
            r.wf(),
            forall|i: int| 0 <= i < CHUNK_VOLUME ==> r@[i] is None,
    {
        Chunk::new()
    }
}

} // verus!
