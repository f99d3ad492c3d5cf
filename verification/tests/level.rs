use voxel_core::block::{Block, BlockModel};
use voxel_core::block_registry::{BlockId, BlockRegistry};
use voxel_core::chunk::{Chunk, CHUNK_SIZE};
use voxel_core::level::{Level, LevelError};
use voxel_core::position::{BlockPos, ChunkPos};
use voxel_core::store::{load_chunk_data, save_chunk_data, Database};

fn registry_with_dirt() -> (BlockRegistry, BlockId) {
    let mut reg = BlockRegistry::new();
    let dirt = reg.register(String::from("dirt"), Block { model: BlockModel::Cube }).unwrap();
    (reg, dirt)
}

fn flat_heights(h: i64) -> Vec<i64> {
    vec![h; CHUNK_SIZE * CHUNK_SIZE]
}

#[test]
fn store_round_trips_raw_records() {
    let mut db = Database::open_in_memory().unwrap();
    let pos = ChunkPos::new(1, -2, 3);
    assert_eq!(load_chunk_data(&db, pos).unwrap(), None);
    save_chunk_data(&mut db, pos, vec![1, 2, 3]).unwrap();
    assert_eq!(load_chunk_data(&db, pos).unwrap(), Some(vec![1, 2, 3]));
    assert_eq!(load_chunk_data(&db, ChunkPos::new(0, 0, 0)).unwrap(), None);
    // Upsert by key: the newest record wins.
    save_chunk_data(&mut db, pos, vec![9]).unwrap();
    assert_eq!(load_chunk_data(&db, pos).unwrap(), Some(vec![9]));
}

#[test]
fn duplicate_load_requests_coalesce() {
    let db = Database::open_in_memory().unwrap();
    let mut level = Level::new(db);
    let pos = ChunkPos::new(0, 0, 0);
    assert!(level.begin_load(pos));
    // A simultaneous second request for the same coordinate is a no-op.
    assert!(!level.begin_load(pos));
    level.finish_load(pos, Chunk::new());
    // Loaded now: still no new task.
    assert!(!level.begin_load(pos));
    level.remove_chunk(&pos);
    assert!(level.begin_load(pos));
}

#[test]
fn eviction_and_reload_preserve_content() {
    let (reg, dirt) = registry_with_dirt();
    let db = Database::open_in_memory().unwrap();
    let mut level = Level::new(db);
    let pos = ChunkPos::new(0, 0, 0);

    assert!(level.begin_load(pos));
    let first = level.load_or_generate(pos, &flat_heights(5), dirt, &reg).unwrap();
    let first_copy = first.clone();
    level.finish_load(pos, first);
    assert!(level.chunk(pos).is_some());

    // Evict: nothing is visible any more.
    level.unload_chunks(&Vec::new());
    assert!(level.chunk(pos).is_none());

    // Re-request within the same session, with a different height field:
    // the persisted record wins over regeneration, so the content is
    // identical to what was first produced.
    assert!(level.begin_load(pos));
    let again = level.load_or_generate(pos, &flat_heights(30), dirt, &reg).unwrap();
    assert_eq!(again, first_copy);
}

#[test]
fn load_completion_marks_resident_neighbors_dirty() {
    let db = Database::open_in_memory().unwrap();
    let mut level = Level::new(db);
    let a = ChunkPos::new(0, 0, 0);
    let b = ChunkPos::new(1, 0, 0);
    let far = ChunkPos::new(5, 5, 5);

    assert!(level.begin_load(a));
    let marked = level.finish_load(a, Chunk::new());
    assert_eq!(marked, vec![a]);

    assert!(level.begin_load(far));
    level.finish_load(far, Chunk::new());

    assert!(level.begin_load(b));
    let marked = level.finish_load(b, Chunk::new());
    // The new chunk itself and its one resident face neighbor.
    assert!(marked.contains(&b));
    assert!(marked.contains(&a));
    assert!(!marked.contains(&far));
    assert_eq!(marked.len(), 2);
}

#[test]
fn pending_and_loaded_chunks_are_not_rerequested() {
    let db = Database::open_in_memory().unwrap();
    let mut level = Level::new(db);
    let a = ChunkPos::new(0, 0, 0);
    let b = ChunkPos::new(1, 0, 0);
    let c = ChunkPos::new(2, 0, 0);
    assert!(level.begin_load(a));
    level.finish_load(a, Chunk::new());
    assert!(level.begin_load(b));
    let visible = vec![a, b, c];
    assert_eq!(level.chunks_to_load(&visible), vec![c]);
}

fn install_solid(level: &mut Level, pos: ChunkPos, dirt: BlockId) {
    let mut chunk = Chunk::new();
    for x in 0..CHUNK_SIZE {
        for y in 0..CHUNK_SIZE {
            for z in 0..CHUNK_SIZE {
                chunk.set_block(x, y, z, Some(dirt));
            }
        }
    }
    assert!(level.begin_load(pos));
    level.finish_load(pos, chunk);
}

#[test]
fn removing_an_interior_block_dirties_only_its_chunk() {
    let (_, dirt) = registry_with_dirt();
    let db = Database::open_in_memory().unwrap();
    let mut level = Level::new(db);
    let home = ChunkPos::new(0, 0, 0);
    install_solid(&mut level, home, dirt);
    level.take_dirty();

    let marked = level.remove_block(BlockPos::new(5, 6, 7));
    assert_eq!(marked, vec![home]);
    let chunk = level.chunk(home).unwrap();
    assert_eq!(chunk.block(5, 6, 7), None);
    assert_eq!(chunk.block(5, 6, 8), Some(dirt));
    assert_eq!(chunk.block(4, 6, 7), Some(dirt));
    let dirty = level.take_dirty();
    assert_eq!(dirty, vec![home]);
}

#[test]
fn removing_a_boundary_block_dirties_the_face_neighbor() {
    let (_, dirt) = registry_with_dirt();
    let db = Database::open_in_memory().unwrap();
    let mut level = Level::new(db);
    let home = ChunkPos::new(0, 0, 0);
    let left = ChunkPos::new(-1, 0, 0);
    install_solid(&mut level, home, dirt);
    install_solid(&mut level, left, dirt);
    level.take_dirty();

    // (0, 5, 7) sits on the left boundary plane of its chunk only.
    let marked = level.remove_block(BlockPos::new(0, 5, 7));
    assert_eq!(marked.len(), 2);
    assert!(marked.contains(&home));
    assert!(marked.contains(&left));
    assert_eq!(level.chunk(home).unwrap().block(0, 5, 7), None);
    assert_eq!(level.chunk(left).unwrap().block(31, 5, 7), Some(dirt));
}

#[test]
fn removing_a_corner_block_dirties_up_to_three_neighbors() {
    let (_, dirt) = registry_with_dirt();
    let db = Database::open_in_memory().unwrap();
    let mut level = Level::new(db);
    let home = ChunkPos::new(0, 0, 0);
    install_solid(&mut level, home, dirt);
    install_solid(&mut level, ChunkPos::new(-1, 0, 0), dirt);
    install_solid(&mut level, ChunkPos::new(0, -1, 0), dirt);
    install_solid(&mut level, ChunkPos::new(0, 0, -1), dirt);
    install_solid(&mut level, ChunkPos::new(1, 0, 0), dirt);
    level.take_dirty();

    // (0, 0, 0) touches the left, bottom, and back boundary planes.
    let marked = level.remove_block(BlockPos::new(0, 0, 0));
    assert_eq!(marked.len(), 4);
    assert!(marked.contains(&home));
    assert!(marked.contains(&ChunkPos::new(-1, 0, 0)));
    assert!(marked.contains(&ChunkPos::new(0, -1, 0)));
    assert!(marked.contains(&ChunkPos::new(0, 0, -1)));
    assert!(!marked.contains(&ChunkPos::new(1, 0, 0)));
}

#[test]
fn removing_a_block_in_an_unloaded_chunk_changes_nothing() {
    let db = Database::open_in_memory().unwrap();
    let mut level = Level::new(db);
    let marked = level.remove_block(BlockPos::new(100, 100, 100));
    assert!(marked.is_empty());
}

#[test]
fn meshing_through_the_level_uses_neighbor_boundaries() {
    let (reg, dirt) = registry_with_dirt();
    let db = Database::open_in_memory().unwrap();
    let mut level = Level::new(db);
    let home = ChunkPos::new(0, 0, 0);
    install_solid(&mut level, home, dirt);

    // Alone, all six boundary planes are drawn.
    let m = level.mesh_chunk(home, &reg).unwrap();
    assert_eq!(m.positions.len(), 4 * 6 * CHUNK_SIZE * CHUNK_SIZE);

    // With an equally solid neighbor on the left, that plane is culled.
    install_solid(&mut level, ChunkPos::new(-1, 0, 0), dirt);
    let m = level.mesh_chunk(home, &reg).unwrap();
    assert_eq!(m.positions.len(), 4 * 5 * CHUNK_SIZE * CHUNK_SIZE);

    // No chunk, no mesh.
    assert!(level.mesh_chunk(ChunkPos::new(9, 9, 9), &reg).is_none());
}

#[test]
fn save_chunk_persists_and_meshes() {
    let (reg, dirt) = registry_with_dirt();
    let db = Database::open_in_memory().unwrap();
    let mut level = Level::new(db);
    let home = ChunkPos::new(0, 0, 0);
    install_solid(&mut level, home, dirt);

    let adj = level.adjacent_data(home);
    let mesh = level.save_chunk(home, &adj, &reg).unwrap();
    assert!(mesh.wants_collider());

    // The persisted record now wins over regeneration.
    let reloaded = level.load_or_generate(home, &vec![-100; CHUNK_SIZE * CHUNK_SIZE], dirt, &reg)
        .unwrap();
    assert_eq!(reloaded.block(0, 0, 0), Some(dirt));
    assert_eq!(reloaded.block(31, 31, 31), Some(dirt));
}

#[test]
fn corrupt_persisted_data_is_surfaced_not_regenerated() {
    let (reg, dirt) = registry_with_dirt();
    let mut db = Database::open_in_memory().unwrap();
    let pos = ChunkPos::new(0, 0, 0);
    save_chunk_data(&mut db, pos, vec![1, 2, 3]).unwrap();
    let mut level = Level::new(db);
    assert!(level.begin_load(pos));
    assert_eq!(
        level.load_or_generate(pos, &flat_heights(0), dirt, &reg),
        Err(LevelError::CorruptChunkData)
    );
    // The failed load is discarded; the coordinate can be requested again.
    level.cancel_load(pos);
    assert!(level.begin_load(pos));
}

#[test]
fn unknown_persisted_name_fails_the_load() {
    let mut other = BlockRegistry::new();
    let stone = other.register(String::from("stone"), Block { model: BlockModel::Cube }).unwrap();
    let mut chunk = Chunk::new();
    chunk.set_block(0, 0, 0, Some(stone));
    let bytes = chunk.serialize(&other);

    let (reg, dirt) = registry_with_dirt();
    let mut db = Database::open_in_memory().unwrap();
    let pos = ChunkPos::new(0, 0, 0);
    save_chunk_data(&mut db, pos, bytes).unwrap();
    let mut level = Level::new(db);
    assert!(level.begin_load(pos));
    assert_eq!(
        level.load_or_generate(pos, &flat_heights(0), dirt, &reg),
        Err(LevelError::UnknownBlockName)
    );
}
