use minecraft_rust::blocks::{Block, CHUNK_VOLUME};
use minecraft_rust::cache::ChunkCache;
use minecraft_rust::chunk::{Chunk, ChunkWaiter};
use minecraft_rust::packet::ServerChunk;

fn chunk_at(x: i32, y: i32, z: i32) -> Chunk {
    Chunk::from_server_chunk(ServerChunk { x, y, z, blocks: vec![Block::Air; CHUNK_VOLUME] })
}

#[test]
fn startup_cube_is_pending_at_zero() {
    let cache = ChunkCache::new((10, -3, 0), 1);
    assert_eq!(cache.slots.len(), 27);
    for s in cache.slots.iter() {
        assert_eq!(s.state.timestamp(), Some(0));
        assert!((9..=11).contains(&s.coord.0));
        assert!((-4..=-2).contains(&s.coord.1));
        assert!((-1..=1).contains(&s.coord.2));
    }
    assert!(cache.find((10, -3, 0)).is_some());
    assert!(cache.find((12, -3, 0)).is_none());
}

#[test]
fn radius_zero_has_one_slot() {
    let cache = ChunkCache::new((i32::MAX, i32::MIN, 5), 0);
    assert_eq!(cache.slots.len(), 1);
    assert_eq!(cache.slots[0].coord, (i32::MAX, i32::MIN, 5));
}

#[test]
fn startup_requests_each_coordinate_once() {
    let mut cache = ChunkCache::new((0, 0, 0), 2);
    let interval: u128 = 1_000_000;
    let mut sent = cache.retry_requests(5_000_000, interval);
    assert_eq!(sent.len(), 125);
    sent.sort();
    sent.dedup();
    assert_eq!(sent.len(), 125);
    assert!(cache.retry_requests(5_500_000, interval).is_empty());
    assert!(cache.retry_requests(6_000_000, interval).is_empty());
    assert_eq!(cache.retry_requests(6_000_001, interval).len(), 125);
}

#[test]
fn retry_not_due_before_interval() {
    let mut cache = ChunkCache::new((0, 0, 0), 0);
    assert!(cache.retry_requests(100, 100).is_empty());
    assert_eq!(cache.retry_requests(101, 100), vec![(0, 0, 0)]);
    assert_eq!(cache.slots[0].state.timestamp(), Some(101));
    assert!(cache.retry_requests(50, 100).is_empty());
}

#[test]
fn retries_stop_once_chunk_arrives() {
    let mut cache = ChunkCache::new((0, 0, 0), 1);
    assert_eq!(cache.retry_requests(1000, 10).len(), 27);
    assert_eq!(cache.retry_requests(2000, 10).len(), 27);
    cache.receive_chunk(chunk_at(1, 0, -1));
    let later = cache.retry_requests(3000, 10);
    assert_eq!(later.len(), 26);
    assert!(!later.contains(&(1, 0, -1)));
    assert!(!cache.retry_requests(4000, 10).contains(&(1, 0, -1)));
}

#[test]
fn new_chunk_outside_cube_gets_a_slot() {
    let mut cache = ChunkCache::new((0, 0, 0), 0);
    cache.receive_chunk(chunk_at(7, 7, 7));
    assert_eq!(cache.slots.len(), 2);
    let i = cache.find((7, 7, 7)).unwrap();
    assert!(cache.slots[i].state.chunk().is_some());
}

#[test]
fn new_chunk_replaces_resident_data() {
    let mut cache = ChunkCache::new((0, 0, 0), 0);
    cache.receive_chunk(chunk_at(0, 0, 0));
    let mut second = chunk_at(0, 0, 0);
    second.blocks[0] = Block::Solid;
    cache.receive_chunk(second);
    assert_eq!(cache.slots.len(), 1);
    match &cache.slots[0].state {
        ChunkWaiter::Chunk(c) => assert_eq!(c.blocks[0], Block::Solid),
        ChunkWaiter::Timestamp(_) => panic!("chunk not resident"),
    }
}

#[test]
fn new_chunk_invalidates_only_resident_face_neighbors() {
    let mut cache = ChunkCache::new((0, 0, 0), 1);
    cache.receive_chunk(chunk_at(0, 0, 0));
    cache.receive_chunk(chunk_at(1, 1, 0));
    assert_eq!(cache.rebuild_meshes(100), 2);
    cache.receive_chunk(chunk_at(1, 0, 0));
    let mesh_of = |cache: &ChunkCache, c| match &cache.slots[cache.find(c).unwrap()].state {
        ChunkWaiter::Chunk(ch) => ch.mesh.is_some(),
        ChunkWaiter::Timestamp(_) => panic!("chunk not resident"),
    };
    assert!(!mesh_of(&cache, (0, 0, 0)));
    assert!(!mesh_of(&cache, (1, 1, 0)));
    assert!(!mesh_of(&cache, (1, 0, 0)));
    cache.receive_chunk(chunk_at(-1, -1, 0));
    assert_eq!(cache.rebuild_meshes(100), 4);
    cache.receive_chunk(chunk_at(-1, 1, 1));
    assert!(mesh_of(&cache, (0, 0, 0)));
    assert!(mesh_of(&cache, (-1, -1, 0)));
}

#[test]
fn rebuild_respects_cap() {
    let mut cache = ChunkCache::new((0, 0, 0), 1);
    for x in -1..=1 {
        cache.receive_chunk(chunk_at(x, 0, 0));
    }
    assert_eq!(cache.rebuild_meshes(2), 2);
    assert_eq!(cache.rebuild_meshes(2), 1);
    assert_eq!(cache.rebuild_meshes(2), 0);
    assert_eq!(cache.rebuild_meshes(0), 0);
}

#[test]
fn rebuild_builds_exactly_what_is_missing_up_to_cap() {
    let mut cache = ChunkCache::new((0, 0, 0), 1);
    for x in -1..=1 {
        for y in -1..=1 {
            cache.receive_chunk(chunk_at(x, y, 0));
        }
    }
    let missing = |cache: &ChunkCache| {
        cache
            .slots
            .iter()
            .filter(|s| matches!(&s.state, ChunkWaiter::Chunk(ch) if ch.mesh.is_none()))
            .count()
    };
    assert_eq!(missing(&cache), 9);
    assert_eq!(cache.rebuild_meshes(4), 4);
    assert_eq!(missing(&cache), 5);
    assert_eq!(cache.rebuild_meshes(10), 5);
    assert_eq!(missing(&cache), 0);
}
