use voxel_core::position::{div_floor, BlockPos, ChunkPos};

#[test]
fn test_chunk_pos() {
    let block_pos = BlockPos::new(0, 0, 0);
    let chunk_pos = ChunkPos::from(block_pos);
    let remainder = block_pos.block_in_chunk();
    assert_eq!(chunk_pos, ChunkPos::new(0, 0, 0));
    assert_eq!(remainder, (0, 0, 0));

    let block_pos = BlockPos::new(5, 0, 0);
    let chunk_pos = ChunkPos::from(block_pos);
    let remainder = block_pos.block_in_chunk();
    assert_eq!(chunk_pos, ChunkPos::new(0, 0, 0));
    assert_eq!(remainder, (5, 0, 0));

    let block_pos = BlockPos::new(31, 0, 0);
    let chunk_pos = ChunkPos::from(block_pos);
    let remainder = block_pos.block_in_chunk();
    assert_eq!(chunk_pos, ChunkPos::new(0, 0, 0));
    assert_eq!(remainder, (31, 0, 0));

    let block_pos = BlockPos::new(32, 0, 0);
    let chunk_pos = ChunkPos::from(block_pos);
    let remainder = block_pos.block_in_chunk();
    assert_eq!(chunk_pos, ChunkPos::new(1, 0, 0));
    assert_eq!(remainder, (0, 0, 0));

    let block_pos = BlockPos::new(-1, 0, 0);
    let chunk_pos = ChunkPos::from(block_pos);
    let remainder = block_pos.block_in_chunk();
    assert_eq!(chunk_pos, ChunkPos::new(-1, 0, 0));
    assert_eq!(remainder, (31, 0, 0));
}

#[test]
fn div_floor_rounds_toward_negative_infinity() {
    assert_eq!(div_floor(0, 32), 0);
    assert_eq!(div_floor(31, 32), 0);
    assert_eq!(div_floor(32, 32), 1);
    assert_eq!(div_floor(-1, 32), -1);
    assert_eq!(div_floor(-32, 32), -1);
    assert_eq!(div_floor(-33, 32), -2);
}

#[test]
fn chunk_center_in_world_units() {
    assert_eq!(ChunkPos::new(0, 0, 0).center(), (16, 16, 16));
    assert_eq!(ChunkPos::new(-1, 0, 2).center(), (-16, 16, 80));
}

#[test]
fn face_adjacency() {
    let c = ChunkPos::new(3, -4, 5);
    assert!(c.is_adjacent(ChunkPos::new(2, -4, 5)));
    assert!(c.is_adjacent(ChunkPos::new(4, -4, 5)));
    assert!(c.is_adjacent(ChunkPos::new(3, -5, 5)));
    assert!(c.is_adjacent(ChunkPos::new(3, -3, 5)));
    assert!(c.is_adjacent(ChunkPos::new(3, -4, 4)));
    assert!(c.is_adjacent(ChunkPos::new(3, -4, 6)));
    assert!(!c.is_adjacent(c));
    assert!(!c.is_adjacent(ChunkPos::new(2, -5, 5)));
    assert!(!c.is_adjacent(ChunkPos::new(3, -4, 7)));
}
