use voxel_core::block::{Block, BlockModel};
use voxel_core::block_registry::BlockRegistry;
use voxel_core::chunk::CHUNK_SIZE;
use voxel_core::generator::generate_chunk;
use voxel_core::position::ChunkPos;

#[test]
fn columns_fill_up_to_their_height() {
    let mut reg = BlockRegistry::new();
    let dirt = reg.register(String::from("dirt"), Block { model: BlockModel::Cube }).unwrap();
    let mut heights = vec![-1i64; CHUNK_SIZE * CHUNK_SIZE];
    // Column (3, 4) is solid up to world y = 2.
    heights[3 * CHUNK_SIZE + 4] = 2;
    let chunk = generate_chunk(ChunkPos::new(0, 0, 0), &heights, dirt);
    assert_eq!(chunk.block(3, 0, 4), Some(dirt));
    assert_eq!(chunk.block(3, 2, 4), Some(dirt));
    assert_eq!(chunk.block(3, 3, 4), None);
    // Every other column has its threshold below this chunk: pure air.
    assert_eq!(chunk.block(0, 0, 0), None);
    assert_eq!(chunk.block(31, 0, 31), None);
}

#[test]
fn generation_uses_world_y() {
    let mut reg = BlockRegistry::new();
    let dirt = reg.register(String::from("dirt"), Block { model: BlockModel::Cube }).unwrap();
    let heights = vec![0i64; CHUNK_SIZE * CHUNK_SIZE];
    // The chunk below the origin spans world y in [-32, -1]: fully solid.
    let below = generate_chunk(ChunkPos::new(0, -1, 0), &heights, dirt);
    assert_eq!(below.block(0, 0, 0), Some(dirt));
    assert_eq!(below.block(31, 31, 31), Some(dirt));
    // The chunk above spans [32, 63]: pure air.
    let above = generate_chunk(ChunkPos::new(0, 1, 0), &heights, dirt);
    assert_eq!(above.block(0, 0, 0), None);
    // Generation is deterministic in its inputs.
    let again = generate_chunk(ChunkPos::new(0, -1, 0), &heights, dirt);
    assert_eq!(again, below);
}
