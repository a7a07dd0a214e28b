use minecraft_rust::blocks::{block_index, Block, CHUNK_VOLUME};
use minecraft_rust::cache::ChunkCache;
use minecraft_rust::chunk::{Chunk, ChunkWaiter};
use minecraft_rust::instance::{FaceDirection, InstanceData};
use minecraft_rust::packet::ServerChunk;

fn empty_chunk(x: i32, y: i32, z: i32) -> Chunk {
    Chunk::from_server_chunk(ServerChunk { x, y, z, blocks: vec![Block::Air; CHUNK_VOLUME] })
}

fn faces(ch: &Chunk, cache: &ChunkCache) -> Vec<(u32, u32, u32, u32)> {
    ch.build_faces(cache)
        .iter()
        .map(|f| (f._direction().code(), f._x(), f._y(), f._z()))
        .collect()
}

#[test]
fn instance_data_packs_fields() {
    let d = InstanceData::new(FaceDirection::Left, 3, 15, 9);
    assert_eq!(d.data, 4 | (3 << 4) | (15 << 8) | (9 << 12));
    assert_eq!(d._direction(), FaceDirection::Left);
    assert_eq!((d._x(), d._y(), d._z()), (3, 15, 9));
}

#[test]
fn instance_data_setters_keep_other_fields() {
    let mut d = InstanceData::new(FaceDirection::Right, 1, 2, 3);
    d.set_x(14);
    d.set_direction(FaceDirection::Up);
    d.set_z(0);
    d.set_y(7);
    assert_eq!(d._direction(), FaceDirection::Up);
    assert_eq!((d._x(), d._y(), d._z()), (14, 7, 0));
}

#[test]
fn empty_chunk_has_no_faces() {
    let cache = ChunkCache { slots: vec![] };
    let ch = empty_chunk(0, 0, 0);
    assert!(ch.build_faces(&cache).is_empty());
}

#[test]
fn isolated_voxel_has_six_faces() {
    let cache = ChunkCache { slots: vec![] };
    let mut ch = empty_chunk(0, 0, 0);
    ch.blocks[block_index(5, 6, 7)] = Block::Solid;
    let f = faces(&ch, &cache);
    assert_eq!(f, vec![(0, 5, 6, 7), (1, 5, 6, 7), (2, 5, 6, 7), (3, 5, 6, 7), (4, 5, 6, 7), (5, 5, 6, 7)]);
}

#[test]
fn adjacent_voxels_have_ten_faces() {
    let cache = ChunkCache { slots: vec![] };
    let mut ch = empty_chunk(0, 0, 0);
    ch.blocks[block_index(5, 6, 7)] = Block::Solid;
    ch.blocks[block_index(6, 6, 7)] = Block::Solid;
    let f = faces(&ch, &cache);
    assert_eq!(f.len(), 10);
    assert!(!f.contains(&(2, 5, 6, 7)));
    assert!(!f.contains(&(3, 6, 6, 7)));
}

#[test]
fn absent_neighbor_reads_as_air() {
    let cache = ChunkCache { slots: vec![] };
    let mut ch = empty_chunk(0, 0, 0);
    ch.blocks[block_index(15, 0, 0)] = Block::Solid;
    assert_eq!(ch.get_block(&cache, 16, 0, 0), Block::Air);
    assert_eq!(ch.get_block(&cache, 15, 0, 0), Block::Solid);
    assert_eq!(ch.get_block(&cache, -1, 0, 0), Block::Air);
    assert!(faces(&ch, &cache).contains(&(2, 15, 0, 0)));
}

#[test]
fn pending_neighbor_reads_as_air() {
    let cache = ChunkCache::new((0, 0, 0), 1);
    let mut ch = empty_chunk(0, 0, 0);
    ch.blocks[block_index(0, 0, 0)] = Block::Solid;
    assert_eq!(ch.get_block(&cache, -1, 0, 0), Block::Air);
    assert_eq!(ch.build_faces(&cache).len(), 6);
}

#[test]
fn resident_neighbor_removes_boundary_face() {
    let mut cache = ChunkCache::new((0, 0, 0), 1);
    let mut ch = empty_chunk(0, 0, 0);
    ch.blocks[block_index(15, 4, 5)] = Block::Solid;
    cache.receive_chunk(ch);
    assert_eq!(cache.rebuild_meshes(10), 1);
    let mesh_before = match &cache.slots[cache.find((0, 0, 0)).unwrap()].state {
        ChunkWaiter::Chunk(c) => c.mesh.clone().unwrap(),
        ChunkWaiter::Timestamp(_) => panic!("chunk not resident"),
    };
    assert_eq!(mesh_before.len(), 6);

    let mut n = empty_chunk(1, 0, 0);
    n.blocks[block_index(0, 4, 5)] = Block::Solid;
    cache.receive_chunk(n);
    let i = cache.find((0, 0, 0)).unwrap();
    match &cache.slots[i].state {
        ChunkWaiter::Chunk(c) => assert!(c.mesh.is_none()),
        ChunkWaiter::Timestamp(_) => panic!("chunk not resident"),
    }
    assert_eq!(cache.rebuild_meshes(10), 2);
    match &cache.slots[i].state {
        ChunkWaiter::Chunk(c) => {
            assert_eq!(c.get_block(&cache, 16, 4, 5), Block::Solid);
            let m: Vec<(u32, u32, u32, u32)> = c
                .mesh
                .as_ref()
                .unwrap()
                .iter()
                .map(|f| (f._direction().code(), f._x(), f._y(), f._z()))
                .collect();
            assert_eq!(m.len(), 5);
            assert!(!m.contains(&(2, 15, 4, 5)));
        },
        ChunkWaiter::Timestamp(_) => panic!("chunk not resident"),
    }
}

#[test]
fn generate_mesh_twice_is_a_no_op() {
    let cache = ChunkCache { slots: vec![] };
    let mut ch = empty_chunk(0, 0, 0);
    ch.blocks[block_index(1, 1, 1)] = Block::Solid;
    assert!(ch.generate_mesh(&cache));
    let first: Vec<u32> = ch.mesh.as_ref().unwrap().iter().map(|f| f.data).collect();
    assert!(!ch.generate_mesh(&cache));
    let second: Vec<u32> = ch.mesh.as_ref().unwrap().iter().map(|f| f.data).collect();
    assert_eq!(first, second);
    assert_eq!(first.len(), 6);
    ch.invalidate_mesh();
    assert!(ch.mesh.is_none());
    assert!(ch.generate_mesh(&cache));
    let third: Vec<u32> = ch.mesh.as_ref().unwrap().iter().map(|f| f.data).collect();
    assert_eq!(first, third);
}

#[test]
fn full_chunk_shows_only_its_outer_faces() {
    let cache = ChunkCache { slots: vec![] };
    let mut ch = empty_chunk(0, 0, 0);
    for b in ch.blocks.iter_mut() {
        *b = Block::Solid;
    }
    assert_eq!(ch.build_faces(&cache).len(), 6 * 16 * 16);
}

#[test]
fn waiter_accessors() {
    let t = ChunkWaiter::Timestamp(42);
    assert_eq!(t.timestamp(), Some(42));
    assert!(t.chunk().is_none());
    let c = ChunkWaiter::Chunk(empty_chunk(1, 2, 3));
    assert_eq!(c.timestamp(), None);
    assert_eq!(c.chunk().unwrap().chunk_y, 2);
}

#[test]
fn chunk_at_coordinate_limit_has_no_outer_neighbor() {
    let cache = ChunkCache { slots: vec![] };
    let mut ch = empty_chunk(i32::MAX, i32::MIN, 0);
    ch.blocks[block_index(15, 0, 0)] = Block::Solid;
    assert_eq!(ch.get_block(&cache, 16, 0, 0), Block::Air);
    assert_eq!(ch.get_block(&cache, 15, -1, 0), Block::Air);
    assert_eq!(ch.build_faces(&cache).len(), 6);
}
