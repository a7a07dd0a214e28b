use minecraft_rust::blocks::{Block, CHUNK_VOLUME};
use minecraft_rust::client::{ClientState, Reaction};
use minecraft_rust::packet::{Packet, Position, ServerChunk};
use minecraft_rust::players::{bytes_eq, Players};

fn position(x: u32) -> Position {
    Position { x, y: x + 1, z: x + 2 }
}

fn pos_of(players: &Players, name: &[u8]) -> Option<Position> {
    players.list.iter().find(|p| p.name == name).map(|p| p.pos)
}

#[test]
fn move_before_join_is_a_no_op() {
    let mut s = ClientState::new((0, 0, 0), 0);
    let alice = b"alice".to_vec();
    let r = s.apply_packet(Packet::MoveUser { name: alice.clone(), pos: position(10) }, 0);
    assert_eq!(r, Reaction::Nothing);
    assert!(s.players.list.is_empty());
    s.apply_packet(Packet::UserJoin { name: alice.clone(), pos: position(20) }, 0);
    assert_eq!(pos_of(&s.players, &alice), Some(position(20)));
}

#[test]
fn join_move_leave() {
    let mut p = Players::new();
    p.join(b"alice".to_vec(), position(1));
    p.join(b"bob".to_vec(), position(2));
    p.move_user(&b"alice".to_vec(), position(3));
    assert_eq!(pos_of(&p, b"alice"), Some(position(3)));
    p.join(b"alice".to_vec(), position(4));
    assert_eq!(p.list.len(), 2);
    assert_eq!(pos_of(&p, b"alice"), Some(position(4)));
    p.leave(&b"alice".to_vec());
    assert_eq!(pos_of(&p, b"alice"), None);
    assert_eq!(pos_of(&p, b"bob"), Some(position(2)));
    p.leave(&b"carol".to_vec());
    assert_eq!(p.list.len(), 1);
}

#[test]
fn bytes_eq_compares_contents() {
    assert!(bytes_eq(&b"abc".to_vec(), &b"abc".to_vec()));
    assert!(!bytes_eq(&b"abc".to_vec(), &b"abd".to_vec()));
    assert!(!bytes_eq(&b"ab".to_vec(), &b"abc".to_vec()));
    assert!(bytes_eq(&vec![], &vec![]));
}

#[test]
fn session_reactions() {
    let mut s = ClientState::new((0, 0, 0), 0);
    assert_eq!(s.apply_packet(Packet::ConnectionAccepted, 5), Reaction::StartProbe);
    assert_eq!(s.apply_packet(Packet::Pong { timestamp: 100 }, 350), Reaction::RoundTrip(250));
    assert_eq!(s.apply_packet(Packet::Pong { timestamp: 400 }, 350), Reaction::RoundTrip(0));
    assert_eq!(s.apply_packet(Packet::Disconnected { reason: vec![] }, 0), Reaction::Stop);
    assert_eq!(s.apply_packet(Packet::Ping { timestamp: 1 }, 0), Reaction::Nothing);
}

#[test]
fn frame_step_requests_then_stops_after_arrival() {
    let mut s = ClientState::new((0, 0, 0), 0);
    let out = s.frame_step(1_000, 10, 4);
    assert_eq!(out, vec![Packet::RequestChunk { x: 0, y: 0, z: 0 }]);
    assert!(s.frame_step(1_005, 10, 4).is_empty());
    assert_eq!(s.frame_step(1_011, 10, 4).len(), 1);
    let mut blocks = vec![Block::Air; CHUNK_VOLUME];
    blocks[0] = Block::Solid;
    s.apply_packet(Packet::NewChunk { chunk: ServerChunk { x: 0, y: 0, z: 0, blocks } }, 1_020);
    assert!(s.frame_step(2_000, 10, 4).is_empty());
    let ch = s.cache.slots[0].state.chunk().unwrap();
    assert_eq!(ch.mesh.as_ref().unwrap().len(), 6);
    assert!(s.frame_step(3_000, 10, 4).is_empty());
}
