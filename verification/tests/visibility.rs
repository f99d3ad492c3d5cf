use voxel_core::position::ChunkPos;
use voxel_core::visibility::visible_chunks;

fn dist2(a: ChunkPos, b: ChunkPos) -> i64 {
    let dx = (a.x - b.x) as i64;
    let dy = (a.y - b.y) as i64;
    let dz = (a.z - b.z) as i64;
    dx * dx + dy * dy + dz * dz
}

#[test]
fn radius_one_sees_exactly_the_face_neighbors() {
    let center = ChunkPos::new(0, 0, 0);
    let v = visible_chunks(center, 1);
    // Of the surrounding cube, only the chunks whose center lies within
    // 1 * CHUNK_SIZE world units qualify: the observer's own chunk and
    // its six face neighbors.  An edge or corner chunk such as (1, 1, 0)
    // has its center farther away and is filtered out.
    assert_eq!(v.len(), 7);
    assert!(v.contains(&center));
    assert!(v.contains(&ChunkPos::new(-1, 0, 0)));
    assert!(v.contains(&ChunkPos::new(1, 0, 0)));
    assert!(v.contains(&ChunkPos::new(0, -1, 0)));
    assert!(v.contains(&ChunkPos::new(0, 1, 0)));
    assert!(v.contains(&ChunkPos::new(0, 0, -1)));
    assert!(v.contains(&ChunkPos::new(0, 0, 1)));
    assert!(!v.contains(&ChunkPos::new(1, 1, 0)));
    assert!(!v.contains(&ChunkPos::new(1, 1, 1)));
    // Nearest first: the observer's own chunk leads.
    assert_eq!(v[0], center);
    for i in 1..v.len() {
        assert!(dist2(center, v[i - 1]) <= dist2(center, v[i]));
    }
}

#[test]
fn radius_zero_sees_only_the_observer_chunk() {
    let center = ChunkPos::new(7, -3, 2);
    let v = visible_chunks(center, 0);
    assert_eq!(v, vec![center]);
}

#[test]
fn radius_two_filters_by_center_distance() {
    let center = ChunkPos::new(0, 0, 0);
    let v = visible_chunks(center, 2);
    // All offsets with squared distance at most 4; the cube corners
    // (squared distance 12, 9, ...) beyond it are filtered out.
    assert!(v.contains(&ChunkPos::new(2, 0, 0)));
    assert!(v.contains(&ChunkPos::new(1, 1, 1)));
    assert!(!v.contains(&ChunkPos::new(2, 1, 0)));
    assert!(!v.contains(&ChunkPos::new(2, 2, 2)));
    for p in &v {
        assert!(dist2(center, *p) <= 4);
    }
    let mut seen = v.clone();
    seen.sort_by_key(|p| (p.x, p.y, p.z));
    seen.dedup();
    assert_eq!(seen.len(), v.len());
}
