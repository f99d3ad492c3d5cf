use voxel_core::block::{Block, BlockModel};
use voxel_core::block_registry::{BlockId, BlockRegistry};
use voxel_core::chunk::{Chunk, CHUNK_SIZE};
use voxel_core::mesher::{boundary_mask, build_chunk, AdjacentChunkData, FaceMask, Side};

fn registry_with_dirt() -> (BlockRegistry, BlockId) {
    let mut reg = BlockRegistry::new();
    let dirt = reg.register(String::from("dirt"), Block { model: BlockModel::Cube }).unwrap();
    (reg, dirt)
}

fn solid_chunk(dirt: BlockId) -> Chunk {
    let mut chunk = Chunk::new();
    for x in 0..CHUNK_SIZE {
        for y in 0..CHUNK_SIZE {
            for z in 0..CHUNK_SIZE {
                chunk.set_block(x, y, z, Some(dirt));
            }
        }
    }
    chunk
}

fn solid_mask() -> FaceMask {
    let mut m = FaceMask::new();
    for a in 0..CHUNK_SIZE {
        for b in 0..CHUNK_SIZE {
            m.set(a, b, true);
        }
    }
    m
}

#[test]
fn meshing_is_deterministic() {
    let (reg, dirt) = registry_with_dirt();
    let mut chunk = Chunk::new();
    chunk.set_block(4, 5, 6, Some(dirt));
    chunk.set_block(4, 6, 6, Some(dirt));
    let m1 = build_chunk(&AdjacentChunkData::none(), &chunk, &reg);
    let m2 = build_chunk(&AdjacentChunkData::none(), &chunk, &reg);
    assert_eq!(m1.positions, m2.positions);
    assert_eq!(m1.normals, m2.normals);
    assert_eq!(m1.texcoords, m2.texcoords);
    assert_eq!(m1.indices, m2.indices);
}

#[test]
fn single_block_emits_six_quads() {
    let (reg, dirt) = registry_with_dirt();
    let mut chunk = Chunk::new();
    chunk.set_block(1, 1, 1, Some(dirt));
    let m = build_chunk(&AdjacentChunkData::none(), &chunk, &reg);
    assert_eq!(m.positions.len(), 24);
    assert_eq!(m.normals.len(), 24);
    assert_eq!(m.texcoords.len(), 24);
    assert_eq!(m.indices.len(), 36);
    assert!(m.wants_collider());
    // The first quad is the left face of the unit cube at (1, 1, 1).
    assert_eq!(m.positions[0], (1, 1, 1));
    assert_eq!(m.positions[1], (1, 2, 1));
    assert_eq!(m.positions[2], (1, 2, 2));
    assert_eq!(m.positions[3], (1, 1, 2));
    assert_eq!(m.normals[0], (-1, 0, 0));
    assert_eq!(m.texcoords[0..4], [(0, 0), (0, 1), (1, 1), (1, 0)]);
    assert_eq!(m.indices[0..6], [0, 3, 2, 2, 1, 0]);
}

#[test]
fn two_stacked_blocks_cull_their_shared_face() {
    let (reg, dirt) = registry_with_dirt();
    let mut chunk = Chunk::new();
    chunk.set_block(4, 5, 6, Some(dirt));
    chunk.set_block(4, 6, 6, Some(dirt));
    let m = build_chunk(&AdjacentChunkData::none(), &chunk, &reg);
    // Five faces per block: the shared top/bottom pair is culled.
    assert_eq!(m.positions.len(), 2 * 5 * 4);
    assert_eq!(m.indices.len(), 2 * 5 * 6);
}

#[test]
fn unloaded_neighbors_draw_all_boundary_faces_of_a_solid_chunk() {
    let (reg, dirt) = registry_with_dirt();
    let chunk = solid_chunk(dirt);
    let m = build_chunk(&AdjacentChunkData::none(), &chunk, &reg);
    // Interior faces are all culled; each of the six boundary planes
    // shows all of its cells.
    let quads = 6 * CHUNK_SIZE * CHUNK_SIZE;
    assert_eq!(m.positions.len(), 4 * quads);
    assert_eq!(m.indices.len(), 6 * quads);
}

#[test]
fn solid_neighbors_cull_the_shared_boundary() {
    let (reg, dirt) = registry_with_dirt();
    let chunk = solid_chunk(dirt);
    let adj = AdjacentChunkData {
        left: Some(solid_mask()),
        right: Some(solid_mask()),
        top: Some(solid_mask()),
        bottom: Some(solid_mask()),
        front: Some(solid_mask()),
        back: Some(solid_mask()),
    };
    let m = build_chunk(&adj, &chunk, &reg);
    // Fully enclosed by equally solid neighbors: no face at all.
    assert_eq!(m.positions.len(), 0);
    assert_eq!(m.indices.len(), 0);
    assert!(!m.wants_collider());
}

#[test]
fn one_open_side_draws_exactly_that_plane() {
    let (reg, dirt) = registry_with_dirt();
    let chunk = solid_chunk(dirt);
    let adj = AdjacentChunkData {
        left: None,
        right: Some(solid_mask()),
        top: Some(solid_mask()),
        bottom: Some(solid_mask()),
        front: Some(solid_mask()),
        back: Some(solid_mask()),
    };
    let m = build_chunk(&adj, &chunk, &reg);
    let quads = CHUNK_SIZE * CHUNK_SIZE;
    assert_eq!(m.positions.len(), 4 * quads);
    assert_eq!(m.indices.len(), 6 * quads);
}

#[test]
fn boundary_mask_reads_the_facing_plane() {
    let (_, dirt) = registry_with_dirt();
    let mut neighbor = Chunk::new();
    // One block on the neighbor's rightmost plane, which faces a chunk
    // on its right across that chunk's left side.
    neighbor.set_block(CHUNK_SIZE - 1, 3, 7, Some(dirt));
    let m = boundary_mask(&neighbor, Side::Left);
    assert!(m.at(3, 7));
    assert!(!m.at(7, 3));
    assert!(!m.at(0, 0));
}
