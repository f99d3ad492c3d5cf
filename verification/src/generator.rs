use vstd::prelude::*;

use crate::block_registry::BlockId;
use crate::chunk::{spec_cell_index, Chunk, CHUNK_SIZE};
use crate::position::ChunkPos;

verus! {

/// The terrain height threshold for the column at local (x, z): cells
/// whose world y lies at or below it are filled.  Columns are indexed
/// x * CHUNK_SIZE + z.
pub open spec fn spec_height(heights: Seq<i64>, x: int, z: int) -> i64 {
    heights[x * CHUNK_SIZE + z]
}

/// What terrain generation puts at local cell (x, y, z) of the chunk at
/// `pos`: the filler block wherever the cell's world y is at or below the
/// column's height threshold, air above.
pub open spec fn spec_generated_cell(
    pos: ChunkPos,
    heights: Seq<i64>,
    filler: BlockId,
    x: int,
    y: int,
    z: int,
) -> Option<BlockId> {
    if pos.y * (CHUNK_SIZE as int) + y <= spec_height(heights, x, z) {
        Some(filler)
    } else {
        None
    }
}

/// Produce a chunk's initial content, deterministically from its
/// coordinate, a per-column height field sampled by the caller from the
/// injected noise function, and the block type to fill with.  Pure: no
/// hidden state, so it can run on any worker.
#[verifier::loop_isolation(false)]
pub fn generate_chunk(pos: ChunkPos, heights: &Vec<i64>, filler: BlockId) -> (r: Chunk)
    requires
        heights@.len() == CHUNK_SIZE * CHUNK_SIZE,
    ensures
        r.wf(),
        forall|x: int, y: int, z: int|
            0 <= x < CHUNK_SIZE && 0 <= y < CHUNK_SIZE && 0 <= z < CHUNK_SIZE
                ==> r.spec_block(x, y, z) == spec_generated_cell(pos, heights@, filler, x, y, z),
{
    let mut chunk = Chunk::new();
    let mut x: usize = 0;
    while x < CHUNK_SIZE
        invariant
            x <= CHUNK_SIZE,
            chunk.wf(),
            forall|cx: int, cy: int, cz: int|
                0 <= cx < CHUNK_SIZE && 0 <= cy < CHUNK_SIZE && 0 <= cz < CHUNK_SIZE ==> (if cx
                    < x {
                    chunk.spec_block(cx, cy, cz) == spec_generated_cell(
                        pos,
                        heights@,
                        filler,
                        cx,
                        cy,
                        cz,
                    )
                } else {
                    chunk.spec_block(cx, cy, cz) is None
                }),
        decreases CHUNK_SIZE - x,
    {
        let mut z: usize = 0;
        while z < CHUNK_SIZE
            invariant
                z <= CHUNK_SIZE,
                chunk.wf(),
                forall|cx: int, cy: int, cz: int|
                    0 <= cx < CHUNK_SIZE && 0 <= cy < CHUNK_SIZE && 0 <= cz < CHUNK_SIZE ==> (if cx
                        < x || (cx == x && cz < z) {
                        chunk.spec_block(cx, cy, cz) == spec_generated_cell(
                            pos,
                            heights@,
                            filler,
                            cx,
                            cy,
                            cz,
                        )
                    } else {
                        chunk.spec_block(cx, cy, cz) is None
                    }),
            decreases CHUNK_SIZE - z,
        {
            let h = heights[x * CHUNK_SIZE + z];
            let mut y: usize = 0;
            while y < CHUNK_SIZE
                invariant
                    y <= CHUNK_SIZE,
                    chunk.wf(),
                    h == spec_height(heights@, x as int, z as int),
                    forall|cx: int, cy: int, cz: int|
                        0 <= cx < CHUNK_SIZE && 0 <= cy < CHUNK_SIZE && 0 <= cz < CHUNK_SIZE ==> (
                        if cx < x || (cx == x && cz < z) || (cx == x && cz == z && cy < y) {
                            chunk.spec_block(cx, cy, cz) == spec_generated_cell(
                                pos,
                                heights@,
                                filler,
                                cx,
                                cy,
                                cz,
                            )
                        } else {
                            chunk.spec_block(cx, cy, cz) is None
                        }),
                decreases CHUNK_SIZE - y,
            {
                let world_y: i64 = (pos.y as i64) * (CHUNK_SIZE as i64) + (y as i64);
                let ghost pre = chunk;
                if world_y <= h {
                    chunk.set_block(x, y, z, Some(filler));
                }
                proof {
                    assert forall|cx: int, cy: int, cz: int|
                        0 <= cx < CHUNK_SIZE && 0 <= cy < CHUNK_SIZE && 0 <= cz < CHUNK_SIZE && !(cx
                            == x && cy == y && cz == z) implies chunk.spec_block(cx, cy, cz)
                        == pre.spec_block(cx, cy, cz) by {
                        if spec_cell_index(cx, cy, cz) == spec_cell_index(
                            x as int,
                            y as int,
                            z as int,
                        ) {
                            crate::chunk::lemma_cell_index_injective(
                                cx,
                                cy,
                                cz,
                                x as int,
                                y as int,
                                z as int,
                            );
                        }
                    }
                }
                y += 1;
            }
            z += 1;
        }
        x += 1;
    }
    chunk
}

} // verus!
