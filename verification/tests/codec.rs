use voxel_core::block::{Block, BlockModel};
use voxel_core::block_registry::{BlockRegistry, RegistryError};
use voxel_core::chunk::{Chunk, CHUNK_SIZE};
use voxel_core::codec::CodecError;

fn registry_with_dirt() -> BlockRegistry {
    let mut reg = BlockRegistry::new();
    reg.register(String::from("dirt"), Block { model: BlockModel::Cube }).unwrap();
    reg
}

#[test]
fn registry_lookup() {
    let mut reg = BlockRegistry::new();
    let dirt = reg.register(String::from("dirt"), Block { model: BlockModel::Cube }).unwrap();
    let stone = reg.register(String::from("stone"), Block { model: BlockModel::Cube }).unwrap();
    assert_eq!(reg.block_id("dirt").unwrap(), dirt);
    assert_eq!(reg.block_id("stone").unwrap(), stone);
    assert_eq!(reg.block_id("air"), Err(RegistryError::UnknownBlock));
    assert_eq!(reg.name(dirt), String::from("dirt"));
    assert_eq!(reg.name(stone), String::from("stone"));
    assert_eq!(
        reg.register(String::from("dirt"), Block { model: BlockModel::Cube }),
        Err(RegistryError::DuplicateName)
    );
    assert_eq!(reg.block_count(), 2);
}

#[test]
fn empty_chunk_serializes_to_one_air_run() {
    let reg = registry_with_dirt();
    let chunk = Chunk::new();
    let bytes = chunk.serialize(&reg);
    // Empty name table (count 0), then a single run of 32768 (0x8000
    // little-endian) cells of local index 0 (air).
    assert_eq!(bytes, vec![0, 0, 0x00, 0x80, 0x00, 0x00]);
}

#[test]
fn round_trip_preserves_every_cell() {
    let mut reg = BlockRegistry::new();
    let dirt = reg.register(String::from("dirt"), Block { model: BlockModel::Cube }).unwrap();
    let stone = reg.register(String::from("stone"), Block { model: BlockModel::Cube }).unwrap();
    let mut chunk = Chunk::new();
    for x in 0..CHUNK_SIZE {
        for y in 0..CHUNK_SIZE {
            for z in 0..CHUNK_SIZE {
                let cell = match (x + 2 * y + 3 * z) % 4 {
                    0 => Some(dirt),
                    1 => Some(stone),
                    _ => None,
                };
                chunk.set_block(x, y, z, cell);
            }
        }
    }
    let bytes = chunk.serialize(&reg);
    let back = Chunk::deserialize(&bytes, &reg).unwrap();
    assert_eq!(back, chunk);
}

#[test]
fn unregistered_name_fails_the_load() {
    let reg = registry_with_dirt();
    let mut chunk = Chunk::new();
    let dirt = reg.block_id("dirt").unwrap();
    chunk.set_block(0, 0, 0, Some(dirt));
    let bytes = chunk.serialize(&reg);
    // A registry that never registered "dirt" cannot resolve the name.
    let other = BlockRegistry::new();
    assert_eq!(Chunk::deserialize(&bytes, &other), Err(CodecError::UnknownBlockName));
    // The registry that has the name can.
    assert_eq!(Chunk::deserialize(&bytes, &reg).unwrap(), chunk);
}

#[test]
fn malformed_bytes_fail_the_load() {
    let reg = registry_with_dirt();
    // Too short for the name-table count.
    assert_eq!(Chunk::deserialize(&[0], &reg), Err(CodecError::CorruptChunkData));
    // Truncated run stream.
    assert_eq!(Chunk::deserialize(&[0, 0, 0x00, 0x80], &reg), Err(CodecError::CorruptChunkData));
    // A zero-length run.
    assert_eq!(
        Chunk::deserialize(&[0, 0, 0, 0, 0, 0], &reg),
        Err(CodecError::CorruptChunkData)
    );
    // A run index past the name table.
    assert_eq!(
        Chunk::deserialize(&[0, 0, 0x00, 0x80, 0x01, 0x00], &reg),
        Err(CodecError::CorruptChunkData)
    );
    // Trailing bytes after all cells.
    assert_eq!(
        Chunk::deserialize(&[0, 0, 0x00, 0x80, 0x00, 0x00, 7], &reg),
        Err(CodecError::CorruptChunkData)
    );
    // A non-ASCII byte inside a name.
    assert_eq!(
        Chunk::deserialize(&[1, 0, 1, 0xC3, 0x00, 0x80, 0x00, 0x00], &reg),
        Err(CodecError::CorruptChunkData)
    );
    // Too many cells.
    assert_eq!(
        Chunk::deserialize(&[0, 0, 0x00, 0x80, 0x00, 0x00, 0x01, 0x00, 0x00, 0x00], &reg),
        Err(CodecError::CorruptChunkData)
    );
}

#[test]
fn split_runs_decode_like_one_run() {
    let reg = registry_with_dirt();
    // Two air runs of 0x4000 cells each cover the whole chunk.
    let bytes = [0, 0, 0x00, 0x40, 0x00, 0x00, 0x00, 0x40, 0x00, 0x00];
    let chunk = Chunk::deserialize(&bytes, &reg).unwrap();
    assert_eq!(chunk, Chunk::new());
}
