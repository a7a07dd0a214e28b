use minecraft_rust::blocks::{Block, CHUNK_VOLUME};
use minecraft_rust::packet::{Packet, Position, ProtocolError, ServerChunk};

fn all_packets() -> Vec<Packet> {
    let pos = Position { x: 1.5f32.to_bits(), y: (-0.25f32).to_bits(), z: f32::MAX.to_bits() };
    let mut blocks = vec![Block::Air; CHUNK_VOLUME];
    blocks[0] = Block::Solid;
    blocks[CHUNK_VOLUME - 1] = Block::Solid;
    vec![
        Packet::ConnectionRequest { name: b"uwu".to_vec() },
        Packet::ConnectionRequest { name: vec![] },
        Packet::Ping { timestamp: 0 },
        Packet::Ping { timestamp: u128::MAX },
        Packet::MoveSelf { pos },
        Packet::RequestChunk { x: i32::MIN, y: i32::MAX, z: -1 },
        Packet::RequestChunk { x: 0, y: 0, z: 0 },
        Packet::Disconnect,
        Packet::ConnectionAccepted,
        Packet::Disconnected { reason: b"server closing".to_vec() },
        Packet::Disconnected { reason: vec![] },
        Packet::Pong { timestamp: 123_456_789_012_345_678_901_234_567 },
        Packet::UserJoin { name: b"alice".to_vec(), pos },
        Packet::UserJoin { name: vec![], pos: Position { x: 0, y: 0, z: 0 } },
        Packet::UserLeave { name: b"alice".to_vec() },
        Packet::UserLeave { name: vec![] },
        Packet::MoveUser { name: b"bob".to_vec(), pos },
        Packet::NewChunk { chunk: ServerChunk { x: i32::MAX, y: i32::MIN, z: 3, blocks } },
    ]
}

#[test]
fn round_trip_every_variant() {
    for p in all_packets() {
        let bytes = p.encode();
        assert_eq!(Packet::decode(&bytes), Ok(p));
    }
}

#[test]
fn request_chunk_layout() {
    let bytes = Packet::RequestChunk { x: 1, y: -1, z: 258 }.encode();
    assert_eq!(bytes, vec![3, 1, 0, 0, 0, 255, 255, 255, 255, 2, 1, 0, 0]);
}

#[test]
fn name_layout() {
    let bytes = Packet::ConnectionRequest { name: b"ab".to_vec() }.encode();
    assert_eq!(bytes, vec![0, 2, 0, 0, 0, b'a', b'b']);
    assert_eq!(Packet::Disconnect.encode(), vec![4]);
}

#[test]
fn ping_layout() {
    let bytes = Packet::Ping { timestamp: 0x0102 }.encode();
    let mut expected = vec![1, 2, 1];
    expected.extend(vec![0u8; 14]);
    assert_eq!(bytes, expected);
}

#[test]
fn new_chunk_layout() {
    let mut blocks = vec![Block::Air; CHUNK_VOLUME];
    blocks[1] = Block::Solid;
    let bytes = Packet::NewChunk { chunk: ServerChunk { x: 0, y: 0, z: 0, blocks } }.encode();
    assert_eq!(bytes.len(), 13 + CHUNK_VOLUME);
    assert_eq!(bytes[0], 11);
    assert_eq!(bytes[13], 0);
    assert_eq!(bytes[14], 1);
}

#[test]
fn empty_datagram_is_unknown_tag() {
    assert_eq!(Packet::decode(&vec![]), Err(ProtocolError::UnknownTag));
}

#[test]
fn unknown_tag_is_rejected() {
    assert_eq!(Packet::decode(&vec![12]), Err(ProtocolError::UnknownTag));
    assert_eq!(Packet::decode(&vec![255, 0, 0]), Err(ProtocolError::UnknownTag));
}

#[test]
fn truncated_datagrams_are_malformed() {
    for p in all_packets() {
        let bytes = p.encode();
        for cut in 1..bytes.len() {
            assert_eq!(Packet::decode(&bytes[..cut].to_vec()), Err(ProtocolError::Malformed));
        }
    }
}

#[test]
fn trailing_bytes_are_malformed() {
    for p in all_packets() {
        let mut bytes = p.encode();
        bytes.push(0);
        assert_eq!(Packet::decode(&bytes), Err(ProtocolError::Malformed));
    }
}

#[test]
fn overlong_name_length_is_malformed() {
    assert_eq!(Packet::decode(&vec![9, 5, 0, 0, 0, b'a']), Err(ProtocolError::Malformed));
}

#[test]
fn bad_block_byte_is_malformed() {
    let mut bytes = Packet::NewChunk {
        chunk: ServerChunk { x: 0, y: 0, z: 0, blocks: vec![Block::Air; CHUNK_VOLUME] },
    }
    .encode();
    bytes[100] = 2;
    assert_eq!(Packet::decode(&bytes), Err(ProtocolError::Malformed));
}

#[test]
fn well_formedness_check() {
    for p in all_packets() {
        assert!(p.is_wf());
    }
    let short = Packet::NewChunk { chunk: ServerChunk { x: 0, y: 0, z: 0, blocks: vec![Block::Air; 10] } };
    assert!(!short.is_wf());
}
