use vstd::prelude::*;

use crate::blocks::{Block, CHUNK_VOLUME};
use crate::bytes::{
    le_bytes, lemma_le_bytes_injective, lemma_le_bytes_len, lemma_le_bytes_of_value,
    lemma_le_round_trip, lemma_occurs_concat, lemma_occurs_whole, lemma_pow256_values, occurs_at,
    read_le, write_le,
};

verus! {

/// A position as the bit patterns of three IEEE-754 single-precision floats.
#[derive(Clone, Copy, Debug, PartialEq, Eq, Structural)]
pub struct Position {
    pub x: u32,
    pub y: u32,
    pub z: u32,
}

/// A chunk as the server sends it: its coordinate and its voxels.
#[derive(Debug, PartialEq, Eq)]
pub struct ServerChunk {
    pub x: i32,
    pub y: i32,
    pub z: i32,
    pub blocks: Vec<Block>,
}

/// A message between client and server; names and reasons are UTF-8 bytes.
#[derive(Debug, PartialEq, Eq)]
pub enum Packet {
    ConnectionRequest { name: Vec<u8> },
    Ping { timestamp: u128 },
    MoveSelf { pos: Position },
    RequestChunk { x: i32, y: i32, z: i32 },
    Disconnect,
    ConnectionAccepted,
    Disconnected { reason: Vec<u8> },
    Pong { timestamp: u128 },
    UserJoin { name: Vec<u8>, pos: Position },
    UserLeave { name: Vec<u8> },
    MoveUser { name: Vec<u8>, pos: Position },
    NewChunk { chunk: ServerChunk },
}

/// What a packet holds, with byte strings and voxel arrays as sequences.
pub enum PacketModel {
    ConnectionRequest { name: Seq<u8> },
    Ping { timestamp: u128 },
    MoveSelf { pos: Position },
    RequestChunk { x: i32, y: i32, z: i32 },
    Disconnect,
    ConnectionAccepted,
    Disconnected { reason: Seq<u8> },
    Pong { timestamp: u128 },
    UserJoin { name: Seq<u8>, pos: Position },
    UserLeave { name: Seq<u8> },
    MoveUser { name: Seq<u8>, pos: Position },
    NewChunk { x: i32, y: i32, z: i32, blocks: Seq<Block> },
}

/// Why a datagram could not be decoded.
#[derive(Clone, Copy, Debug, PartialEq, Eq, Structural)]
pub enum ProtocolError {
    /// The datagram is empty or its first byte names no packet kind.
    UnknownTag,
    /// The body does not encode a packet of the kind its first byte names.
    Malformed,
}

impl View for Packet {
    type V = PacketModel;

    open spec fn view(&self) -> PacketModel {
        match self {
            Packet::ConnectionRequest { name } => PacketModel::ConnectionRequest { name: name@ },
            Packet::Ping { timestamp } => PacketModel::Ping { timestamp: *timestamp },
            Packet::MoveSelf { pos } => PacketModel::MoveSelf { pos: *pos },
            Packet::RequestChunk { x, y, z } => PacketModel::RequestChunk { x: *x, y: *y, z: *z },
            Packet::Disconnect => PacketModel::Disconnect,
            Packet::ConnectionAccepted => PacketModel::ConnectionAccepted,
            Packet::Disconnected { reason } => PacketModel::Disconnected { reason: reason@ },
            Packet::Pong { timestamp } => PacketModel::Pong { timestamp: *timestamp },
            Packet::UserJoin { name, pos } => PacketModel::UserJoin { name: name@, pos: *pos },
            Packet::UserLeave { name } => PacketModel::UserLeave { name: name@ },
            Packet::MoveUser { name, pos } => PacketModel::MoveUser { name: name@, pos: *pos },
            Packet::NewChunk { chunk } => PacketModel::NewChunk {
                x: chunk.x,
                y: chunk.y,
                z: chunk.z,
                blocks: chunk.blocks@,
            },
        }
    }
}

/// Largest length of a byte string on the wire, plus one.
pub open spec fn name_limit() -> nat {
    0x1_0000_0000
}

/// Byte strings fit their 32-bit length prefix and a chunk has one block
/// per voxel.
pub open spec fn packet_wf(p: PacketModel) -> bool {
    match p {
        PacketModel::ConnectionRequest { name } => name.len() < name_limit(),
        PacketModel::Disconnected { reason } => reason.len() < name_limit(),
        PacketModel::UserJoin { name, .. } => name.len() < name_limit(),
        PacketModel::UserLeave { name } => name.len() < name_limit(),
        PacketModel::MoveUser { name, .. } => name.len() < name_limit(),
        PacketModel::NewChunk { blocks, .. } => blocks.len() == CHUNK_VOLUME,
        _ => true,
    }
}

/// The first byte of every encoding, naming the packet kind.
pub open spec fn packet_tag(p: PacketModel) -> u8 {
    match p {
        PacketModel::ConnectionRequest { .. } => 0,
        PacketModel::Ping { .. } => 1,
        PacketModel::MoveSelf { .. } => 2,
        PacketModel::RequestChunk { .. } => 3,
        PacketModel::Disconnect => 4,
        PacketModel::ConnectionAccepted => 5,
        PacketModel::Disconnected { .. } => 6,
        PacketModel::Pong { .. } => 7,
        PacketModel::UserJoin { .. } => 8,
        PacketModel::UserLeave { .. } => 9,
        PacketModel::MoveUser { .. } => 10,
        PacketModel::NewChunk { .. } => 11,
    }
}

/// Number of packet kinds.
pub const PACKET_KINDS: u8 = 12;

/// A byte string: its length in four bytes, then the bytes.
pub open spec fn enc_name(s: Seq<u8>) -> Seq<u8> {
    le_bytes(s.len(), 4) + s
}

/// A timestamp in sixteen bytes.
pub open spec fn enc_u128(v: u128) -> Seq<u8> {
    le_bytes(v as nat, 16)
}

/// A 32-bit word in four bytes.
pub open spec fn enc_u32(v: u32) -> Seq<u8> {
    le_bytes(v as nat, 4)
}

/// A signed coordinate as the four bytes of its two's complement.
pub open spec fn enc_i32(v: i32) -> Seq<u8> {
    enc_u32(v as u32)
}

/// A position: its three words in order.
pub open spec fn enc_pos(p: Position) -> Seq<u8> {
    enc_u32(p.x) + enc_u32(p.y) + enc_u32(p.z)
}

/// A chunk coordinate: its three coordinates in order.
pub open spec fn enc_coords(x: i32, y: i32, z: i32) -> Seq<u8> {
    enc_i32(x) + enc_i32(y) + enc_i32(z)
}

/// The byte a block is sent as.
pub open spec fn block_byte(b: Block) -> u8 {
    match b {
        Block::Air => 0,
        Block::Solid => 1,
    }
}

/// Voxels, one byte each.
pub open spec fn enc_blocks(s: Seq<Block>) -> Seq<u8> {
    Seq::new(s.len(), |i: int| block_byte(s[i]))
}

/// The datagram a packet is sent as: its kind's byte, then its fields in
/// order, numbers least significant byte first.
pub open spec fn spec_encode(p: PacketModel) -> Seq<u8> {
    seq![packet_tag(p)] + packet_body(p)
}

/// The fields of a packet, encoded in order.
pub open spec fn packet_body(p: PacketModel) -> Seq<u8> {
    match p {
        PacketModel::ConnectionRequest { name } => enc_name(name),
        PacketModel::Ping { timestamp } => enc_u128(timestamp),
        PacketModel::MoveSelf { pos } => enc_pos(pos),
        PacketModel::RequestChunk { x, y, z } => enc_coords(x, y, z),
        PacketModel::Disconnect => seq![],
        PacketModel::ConnectionAccepted => seq![],
        PacketModel::Disconnected { reason } => enc_name(reason),
        PacketModel::Pong { timestamp } => enc_u128(timestamp),
        PacketModel::UserJoin { name, pos } => enc_name(name) + enc_pos(pos),
        PacketModel::UserLeave { name } => enc_name(name),
        PacketModel::MoveUser { name, pos } => enc_name(name) + enc_pos(pos),
        PacketModel::NewChunk { x, y, z, blocks } => enc_coords(x, y, z) + enc_blocks(blocks),
    }
}

/// Whether some well-formed packet is sent as `b`.
pub open spec fn is_encoding(b: Seq<u8>) -> bool {
    exists|q: PacketModel| packet_wf(q) && #[trigger] spec_encode(q) == b
}

} // verus!

verus! {

/// Appends `s` to `out`.
fn write_raw(out: &mut Vec<u8>, s: &Vec<u8>)
    ensures
        final(out)@ == old(out)@ + s@,
{
    let ghost start = out@;
    let mut i: usize = 0;
    while i < s.len()
        invariant
            i <= s@.len(),
            out@ == start + s@.subrange(0, i as int),
        decreases s@.len() - i,
    {
        out.push(s[i]);
        assert(s@.subrange(0, i + 1) =~= s@.subrange(0, i as int).push(s@[i as int]));
        i += 1;
    }
    assert(s@.subrange(0, s@.len() as int) =~= s@);
}

/// Appends a byte string with its length prefix.
fn write_name(out: &mut Vec<u8>, s: &Vec<u8>)
    requires
        s@.len() < name_limit(),
    ensures
        final(out)@ == old(out)@ + enc_name(s@),
{
    let ghost start = out@;
    write_le(out, s.len() as u128, 4);
    write_raw(out, s);
    assert(out@ =~= start + enc_name(s@));
}

/// Appends a 32-bit word.
fn write_u32(out: &mut Vec<u8>, v: u32)
    ensures
        final(out)@ == old(out)@ + enc_u32(v),
{
    write_le(out, v as u128, 4);
}

/// Appends a chunk coordinate.
fn write_coords(out: &mut Vec<u8>, x: i32, y: i32, z: i32)
    ensures
        final(out)@ == old(out)@ + enc_coords(x, y, z),
{
    let ghost start = out@;
    write_u32(out, x as u32);
    write_u32(out, y as u32);
    write_u32(out, z as u32);
    assert(out@ =~= start + enc_coords(x, y, z));
}

/// Appends a position.
fn write_pos(out: &mut Vec<u8>, p: Position)
    ensures
        final(out)@ == old(out)@ + enc_pos(p),
{
    let ghost start = out@;
    write_u32(out, p.x);
    write_u32(out, p.y);
    write_u32(out, p.z);
    assert(out@ =~= start + enc_pos(p));
}

/// Appends voxels, one byte each.
fn write_blocks(out: &mut Vec<u8>, blocks: &Vec<Block>)
    ensures
        final(out)@ == old(out)@ + enc_blocks(blocks@),
{
    let ghost start = out@;
    let mut i: usize = 0;
    while i < blocks.len()
        invariant
            i <= blocks@.len(),
            out@ == start + enc_blocks(blocks@.subrange(0, i as int)),
        decreases blocks@.len() - i,
    {
        let byte: u8 = match blocks[i] {
            Block::Air => 0,
            Block::Solid => 1,
        };
        out.push(byte);
        assert(enc_blocks(blocks@.subrange(0, i + 1)) =~= enc_blocks(blocks@.subrange(0, i as int)).push(byte));
        i += 1;
    }
    assert(blocks@.subrange(0, blocks@.len() as int) =~= blocks@);
}

impl Packet {
    /// Byte strings fit their length prefix and a chunk has one block per
    /// voxel.
    pub open spec fn wf(&self) -> bool {
        packet_wf(self@)
    }

    /// Whether this packet is well formed: byte strings fit their length
    /// prefix and a chunk has one block per voxel.
    pub fn is_wf(&self) -> (r: bool)
        ensures
            r == self.wf(),
    {
        let short = |s: &Vec<u8>| -> (r: bool)
            ensures
                r == (s@.len() < name_limit()),
            { (s.len() as u64) < 0x1_0000_0000u64 };
        match self {
            Packet::ConnectionRequest { name } => short(name),
            Packet::Disconnected { reason } => short(reason),
            Packet::UserJoin { name, .. } => short(name),
            Packet::UserLeave { name } => short(name),
            Packet::MoveUser { name, .. } => short(name),
            Packet::NewChunk { chunk } => chunk.blocks.len() == CHUNK_VOLUME,
            _ => true,
        }
    }

    /// The datagram this packet is sent as.
    pub fn encode(&self) -> (r: Vec<u8>)
        requires
            self.wf(),
        ensures
            r@ == spec_encode(self@),
    {
        let mut out: Vec<u8> = Vec::new();
        match self {
            Packet::ConnectionRequest { name } => {
                out.push(0);
                write_name(&mut out, name);
            },
            Packet::Ping { timestamp } => {
                out.push(1);
                write_le(&mut out, *timestamp, 16);
            },
            Packet::MoveSelf { pos } => {
                out.push(2);
                write_pos(&mut out, *pos);
            },
            Packet::RequestChunk { x, y, z } => {
                out.push(3);
                write_coords(&mut out, *x, *y, *z);
            },
            Packet::Disconnect => {
                out.push(4);
            },
            Packet::ConnectionAccepted => {
                out.push(5);
            },
            Packet::Disconnected { reason } => {
                out.push(6);
                write_name(&mut out, reason);
            },
            Packet::Pong { timestamp } => {
                out.push(7);
                write_le(&mut out, *timestamp, 16);
            },
            Packet::UserJoin { name, pos } => {
                out.push(8);
                write_name(&mut out, name);
                write_pos(&mut out, *pos);
            },
            Packet::UserLeave { name } => {
                out.push(9);
                write_name(&mut out, name);
            },
            Packet::MoveUser { name, pos } => {
                out.push(10);
                write_name(&mut out, name);
                write_pos(&mut out, *pos);
            },
            Packet::NewChunk { chunk } => {
                out.push(11);
                write_coords(&mut out, chunk.x, chunk.y, chunk.z);
                write_blocks(&mut out, &chunk.blocks);
            },
        }
        assert(out@ =~= spec_encode(self@));
        out
    }
}

} // verus!

verus! {

/// The 32-bit word at `pos`, if four bytes are there.
fn read_u32(b: &Vec<u8>, pos: usize) -> (r: Option<u32>)
    ensures
        match r {
            Some(v) => occurs_at(b@, pos as int, enc_u32(v)) && forall|w: u32|
                #[trigger] occurs_at(b@, pos as int, enc_u32(w)) ==> w == v,
            None => forall|w: u32| !(#[trigger] occurs_at(b@, pos as int, enc_u32(w))),
        },
        r is Some <==> pos + 4 <= b@.len(),
{
    proof {
        lemma_le_bytes_len(0, 4);
        assert forall|w: u32| #[trigger] enc_u32(w).len() == 4 by {
            lemma_le_bytes_len(w as nat, 4);
        }
    }
    if pos > b.len() || b.len() - pos < 4 {
        return None;
    }
    let v = read_le(b, pos, 4);
    proof {
        lemma_pow256_values();
    }
    let v = v as u32;
    proof {
        let sub = b@.subrange(pos as int, pos + 4);
        lemma_le_bytes_of_value(sub);
        assert forall|w: u32| #[trigger] occurs_at(b@, pos as int, enc_u32(w)) implies w == v by {
            lemma_le_round_trip(w as nat, 4);
        }
    }
    Some(v)
}

/// The timestamp at `pos`, if sixteen bytes are there.
fn read_u128(b: &Vec<u8>, pos: usize) -> (r: Option<u128>)
    ensures
        match r {
            Some(v) => occurs_at(b@, pos as int, enc_u128(v)) && forall|w: u128|
                #[trigger] occurs_at(b@, pos as int, enc_u128(w)) ==> w == v,
            None => forall|w: u128| !(#[trigger] occurs_at(b@, pos as int, enc_u128(w))),
        },
        r is Some <==> pos + 16 <= b@.len(),
{
    proof {
        assert forall|w: u128| #[trigger] enc_u128(w).len() == 16 by {
            lemma_le_bytes_len(w as nat, 16);
        }
    }
    if pos > b.len() || b.len() - pos < 16 {
        return None;
    }
    let v = read_le(b, pos, 16);
    proof {
        lemma_pow256_values();
        let sub = b@.subrange(pos as int, pos + 16);
        lemma_le_bytes_of_value(sub);
        assert forall|w: u128| #[trigger] occurs_at(b@, pos as int, enc_u128(w)) implies w == v by {
            lemma_le_round_trip(w as nat, 16);
        }
    }
    Some(v)
}

/// The byte string at `pos` and the position after it, if a whole one is
/// there.
fn read_name(b: &Vec<u8>, pos: usize) -> (r: Option<(Vec<u8>, usize)>)
    ensures
        match r {
            Some((s, end)) => s@.len() < name_limit() && occurs_at(b@, pos as int, enc_name(s@))
                && end == pos + enc_name(s@).len() && forall|t: Seq<u8>|
                t.len() < name_limit() && #[trigger] occurs_at(b@, pos as int, enc_name(t)) ==> t
                == s@,
            None => forall|t: Seq<u8>|
                t.len() < name_limit() ==> !(#[trigger] occurs_at(b@, pos as int, enc_name(t))),
        },
{
    proof {
        assert forall|t: Seq<u8>| t.len() < name_limit() implies #[trigger] enc_name(t).len() == 4 + t.len() by {
            lemma_le_bytes_len(t.len(), 4);
        }
        assert forall|t: Seq<u8>| t.len() < name_limit() && #[trigger] occurs_at(b@, pos as int, enc_name(t))
            implies occurs_at(b@, pos as int, enc_u32(t.len() as u32)) by {
            assert(b@.subrange(pos as int, pos + 4) =~= enc_name(t).subrange(0, 4));
            assert(enc_name(t).subrange(0, 4) =~= le_bytes(t.len(), 4));
        }
    }
    let len = match read_u32(b, pos) {
        Some(v) => v,
        None => {
            proof {
                assert forall|t: Seq<u8>| t.len() < name_limit() implies !(#[trigger] occurs_at(b@, pos as int, enc_name(t))) by {
                    if occurs_at(b@, pos as int, enc_name(t)) {
                        assert(occurs_at(b@, pos as int, enc_u32(t.len() as u32)));
                    }
                }
            }
            return None;
        },
    };
    let blen = b.len();
    let start = pos + 4;
    if blen - start < len as usize {
        proof {
            assert forall|t: Seq<u8>| t.len() < name_limit() implies !(#[trigger] occurs_at(b@, pos as int, enc_name(t))) by {
                if occurs_at(b@, pos as int, enc_name(t)) {
                    assert(occurs_at(b@, pos as int, enc_u32(t.len() as u32)));
                }
            }
        }
        return None;
    }
    let end = start + len as usize;
    let mut s: Vec<u8> = Vec::new();
    let mut i: usize = start;
    while i < end
        invariant
            start <= i <= end <= b@.len(),
            s@ == b@.subrange(start as int, i as int),
        decreases end - i,
    {
        s.push(b[i]);
        assert(b@.subrange(start as int, i + 1) =~= b@.subrange(start as int, i as int).push(b@[i as int]));
        i += 1;
    }
    proof {
        lemma_le_bytes_len(len as nat, 4);
        assert(b@.subrange(pos as int, end as int) =~= enc_name(s@));
        assert forall|t: Seq<u8>| t.len() < name_limit() && #[trigger] occurs_at(b@, pos as int, enc_name(t))
            implies t == s@ by {
            assert(occurs_at(b@, pos as int, enc_u32(t.len() as u32)));
            assert(t =~= enc_name(t).subrange(4, 4 + t.len() as int));
            assert(t =~= b@.subrange(start as int, end as int));
        }
    }
    Some((s, end))
}

} // verus!

verus! {

proof fn lemma_enc_u32_len()
    ensures
        forall|w: u32| #[trigger] enc_u32(w).len() == 4,
{
    assert forall|w: u32| #[trigger] enc_u32(w).len() == 4 by {
        lemma_le_bytes_len(w as nat, 4);
    }
}

/// The position at `pos`, if twelve bytes are there.
fn read_pos(b: &Vec<u8>, pos: usize) -> (r: Option<Position>)
    ensures
        match r {
            Some(p) => occurs_at(b@, pos as int, enc_pos(p)) && forall|q: Position|
                #[trigger] occurs_at(b@, pos as int, enc_pos(q)) ==> q == p,
            None => forall|q: Position| !(#[trigger] occurs_at(b@, pos as int, enc_pos(q))),
        },
        r is Some ==> pos + 12 <= b@.len(),
{
    proof {
        lemma_enc_u32_len();
        assert forall|q: Position| #[trigger] occurs_at(b@, pos as int, enc_pos(q)) <==> (occurs_at(
            b@,
            pos as int,
            enc_u32(q.x),
        ) && occurs_at(b@, pos + 4, enc_u32(q.y)) && occurs_at(b@, pos + 8, enc_u32(q.z))) by {
            lemma_occurs_concat(b@, pos as int, enc_u32(q.x) + enc_u32(q.y), enc_u32(q.z));
            lemma_occurs_concat(b@, pos as int, enc_u32(q.x), enc_u32(q.y));
        }
    }
    let blen = b.len();
    let x = match read_u32(b, pos) {
        Some(v) => v,
        None => return None,
    };
    let y = match read_u32(b, pos + 4) {
        Some(v) => v,
        None => return None,
    };
    let z = match read_u32(b, pos + 8) {
        Some(v) => v,
        None => return None,
    };
    Some(Position { x, y, z })
}

/// The chunk coordinate at `pos`, if twelve bytes are there.
fn read_coords(b: &Vec<u8>, pos: usize) -> (r: Option<(i32, i32, i32)>)
    ensures
        match r {
            Some((x, y, z)) => occurs_at(b@, pos as int, enc_coords(x, y, z)) && forall|
                u: i32,
                v: i32,
                w: i32,
            | #[trigger] occurs_at(b@, pos as int, enc_coords(u, v, w)) ==> u == x && v == y && w
                == z,
            None => forall|u: i32, v: i32, w: i32|
                !(#[trigger] occurs_at(b@, pos as int, enc_coords(u, v, w))),
        },
        r is Some ==> pos + 12 <= b@.len(),
{
    let p = match read_pos(b, pos) {
        Some(p) => p,
        None => {
            proof {
                assert forall|u: i32, v: i32, w: i32| !(#[trigger] occurs_at(b@, pos as int, enc_coords(u, v, w))) by {
                    let q = Position { x: u as u32, y: v as u32, z: w as u32 };
                    assert(enc_coords(u, v, w) == enc_pos(q));
                }
            }
            return None;
        },
    };
    let (x, y, z) = (p.x as i32, p.y as i32, p.z as i32);
    proof {
        let (px, py, pz) = (p.x, p.y, p.z);
        assert((px as i32) as u32 == px && (py as i32) as u32 == py && (pz as i32) as u32 == pz) by (bit_vector);
        assert(enc_coords(x, y, z) == enc_pos(p));
        assert forall|u: i32, v: i32, w: i32| #[trigger] occurs_at(b@, pos as int, enc_coords(u, v, w))
            implies u == x && v == y && w == z by {
            let q = Position { x: u as u32, y: v as u32, z: w as u32 };
            assert(enc_coords(u, v, w) == enc_pos(q));
            assert(q == p);
            assert((u as u32) == px ==> u == (px as i32)) by (bit_vector);
            assert((v as u32) == py ==> v == (py as i32)) by (bit_vector);
            assert((w as u32) == pz ==> w == (pz as i32)) by (bit_vector);
        }
    }
    Some((x, y, z))
}

/// The voxels of one chunk at `pos`, if that many valid block bytes are
/// there.
fn read_blocks(b: &Vec<u8>, pos: usize) -> (r: Option<Vec<Block>>)
    ensures
        match r {
            Some(s) => s@.len() == CHUNK_VOLUME && occurs_at(b@, pos as int, enc_blocks(s@))
                && forall|t: Seq<Block>|
                t.len() == CHUNK_VOLUME && #[trigger] occurs_at(b@, pos as int, enc_blocks(t))
                    ==> t == s@,
            None => forall|t: Seq<Block>|
                t.len() == CHUNK_VOLUME ==> !(#[trigger] occurs_at(b@, pos as int, enc_blocks(t))),
        },
        r is Some ==> pos + CHUNK_VOLUME <= b@.len(),
{
    let blen = b.len();
    if pos > blen || blen - pos < CHUNK_VOLUME {
        return None;
    }
    let mut s: Vec<Block> = Vec::new();
    let mut i: usize = 0;
    while i < CHUNK_VOLUME
        invariant
            i <= CHUNK_VOLUME,
            blen == b@.len(),
            pos + CHUNK_VOLUME <= blen,
            s@.len() == i,
            forall|j: int| 0 <= j < i ==> block_byte(#[trigger] s@[j]) == b@[pos + j],
        decreases CHUNK_VOLUME - i,
    {
        let byte = b[pos + i];
        if byte == 0 {
            s.push(Block::Air);
        } else if byte == 1 {
            s.push(Block::Solid);
        } else {
            proof {
                assert forall|t: Seq<Block>| t.len() == CHUNK_VOLUME implies !(#[trigger] occurs_at(b@, pos as int, enc_blocks(t))) by {
                    if occurs_at(b@, pos as int, enc_blocks(t)) {
                        assert(b@.subrange(pos as int, pos + CHUNK_VOLUME)[i as int] == enc_blocks(t)[i as int]);
                    }
                }
            }
            return None;
        }
        i += 1;
    }
    proof {
        assert(b@.subrange(pos as int, pos + CHUNK_VOLUME) =~= enc_blocks(s@));
        assert forall|t: Seq<Block>| t.len() == CHUNK_VOLUME && #[trigger] occurs_at(b@, pos as int, enc_blocks(t))
            implies t == s@ by {
            assert forall|j: int| 0 <= j < CHUNK_VOLUME implies t[j] == s@[j] by {
                assert(b@.subrange(pos as int, pos + CHUNK_VOLUME)[j] == enc_blocks(t)[j]);
            }
            assert(t =~= s@);
        }
    }
    Some(s)
}

} // verus!

verus! {

/// An encoding is its kind's byte followed by the body, and nothing more.
proof fn lemma_body_at_one(q: PacketModel, b: Seq<u8>)
    requires
        spec_encode(q) == b,
    ensures
        b.len() == 1 + packet_body(q).len(),
        b[0] == packet_tag(q),
        occurs_at(b, 1, packet_body(q)),
{
    lemma_occurs_whole(b);
    lemma_occurs_concat(b, 0, seq![packet_tag(q)], packet_body(q));
}

/// A datagram whose first byte is `tag` and whose rest is `body`.
proof fn lemma_from_parts(b: Seq<u8>, tag: u8, body: Seq<u8>)
    requires
        b.len() == 1 + body.len(),
        b[0] == tag,
        occurs_at(b, 1, body),
    ensures
        b == seq![tag] + body,
{
    assert(b =~= seq![tag] + body) by {
        assert forall|i: int| 0 <= i < b.len() implies b[i] == (seq![tag] + body)[i] by {
            if i > 0 {
                assert(b.subrange(1, 1 + body.len() as int)[i - 1] == body[i - 1]);
            }
        }
    }
}

proof fn lemma_enc_lens()
    ensures
        forall|w: u128| #[trigger] enc_u128(w).len() == 16,
        forall|p: Position| #[trigger] enc_pos(p).len() == 12,
        forall|x: i32, y: i32, z: i32| #[trigger] enc_coords(x, y, z).len() == 12,
        forall|s: Seq<Block>| #[trigger] enc_blocks(s).len() == s.len(),
        forall|s: Seq<u8>| #[trigger] enc_name(s).len() == 4 + s.len(),
{
    lemma_enc_u32_len();
    assert forall|w: u128| #[trigger] enc_u128(w).len() == 16 by {
        lemma_le_bytes_len(w as nat, 16);
    }
    assert forall|s: Seq<u8>| #[trigger] enc_name(s).len() == 4 + s.len() by {
        lemma_le_bytes_len(s.len(), 4);
    }
}

/// Decodes the body of a packet that holds one byte string.
fn decode_name_only(b: &Vec<u8>, tag: u8) -> (r: Option<Packet>)
    requires
        b@.len() >= 1,
        b@[0] == tag,
        tag == 0 || tag == 6 || tag == 9,
    ensures
        match r {
            Some(p) => p.wf() && spec_encode(p@) == b@,
            None => !is_encoding(b@),
        },
{
    proof {
        lemma_enc_lens();
    }
    let r = read_name(b, 1);
    match r {
        Some((s, end)) => {
            if end == b.len() {
                let p = if tag == 0 {
                    Packet::ConnectionRequest { name: s }
                } else if tag == 6 {
                    Packet::Disconnected { reason: s }
                } else {
                    Packet::UserLeave { name: s }
                };
                proof {
                    lemma_from_parts(b@, tag, packet_body(p@));
                }
                return Some(p);
            }
        },
        None => {},
    }
    proof {
        assert forall|q: PacketModel| packet_wf(q) implies #[trigger] spec_encode(q) != b@ by {
            if spec_encode(q) == b@ {
                lemma_body_at_one(q, b@);
            }
        }
    }
    None
}

/// Decodes the body of a packet that holds a timestamp.
fn decode_timestamp(b: &Vec<u8>, tag: u8) -> (r: Option<Packet>)
    requires
        b@.len() >= 1,
        b@[0] == tag,
        tag == 1 || tag == 7,
    ensures
        match r {
            Some(p) => p.wf() && spec_encode(p@) == b@,
            None => !is_encoding(b@),
        },
{
    proof {
        lemma_enc_lens();
    }
    let r = read_u128(b, 1);
    match r {
        Some(t) => {
            if b.len() == 17 {
                let p = if tag == 1 {
                    Packet::Ping { timestamp: t }
                } else {
                    Packet::Pong { timestamp: t }
                };
                proof {
                    lemma_from_parts(b@, tag, packet_body(p@));
                }
                return Some(p);
            }
        },
        None => {},
    }
    proof {
        assert forall|q: PacketModel| packet_wf(q) implies #[trigger] spec_encode(q) != b@ by {
            if spec_encode(q) == b@ {
                lemma_body_at_one(q, b@);
            }
        }
    }
    None
}

/// Decodes the body of a packet that holds a position.
fn decode_move_self(b: &Vec<u8>) -> (r: Option<Packet>)
    requires
        b@.len() >= 1,
        b@[0] == 2,
    ensures
        match r {
            Some(p) => p.wf() && spec_encode(p@) == b@,
            None => !is_encoding(b@),
        },
{
    proof {
        lemma_enc_lens();
    }
    let r = read_pos(b, 1);
    match r {
        Some(pos) => {
            if b.len() == 13 {
                let p = Packet::MoveSelf { pos };
                proof {
                    lemma_from_parts(b@, 2, packet_body(p@));
                }
                return Some(p);
            }
        },
        None => {},
    }
    proof {
        assert forall|q: PacketModel| packet_wf(q) implies #[trigger] spec_encode(q) != b@ by {
            if spec_encode(q) == b@ {
                lemma_body_at_one(q, b@);
            }
        }
    }
    None
}

/// Decodes the body of a chunk request.
fn decode_request_chunk(b: &Vec<u8>) -> (r: Option<Packet>)
    requires
        b@.len() >= 1,
        b@[0] == 3,
    ensures
        match r {
            Some(p) => p.wf() && spec_encode(p@) == b@,
            None => !is_encoding(b@),
        },
{
    proof {
        lemma_enc_lens();
    }
    let r = read_coords(b, 1);
    match r {
        Some((x, y, z)) => {
            if b.len() == 13 {
                let p = Packet::RequestChunk { x, y, z };
                proof {
                    lemma_from_parts(b@, 3, packet_body(p@));
                }
                return Some(p);
            }
        },
        None => {},
    }
    proof {
        assert forall|q: PacketModel| packet_wf(q) implies #[trigger] spec_encode(q) != b@ by {
            if spec_encode(q) == b@ {
                lemma_body_at_one(q, b@);
            }
        }
    }
    None
}

/// Decodes a packet that holds no field.
fn decode_bare(b: &Vec<u8>, tag: u8) -> (r: Option<Packet>)
    requires
        b@.len() >= 1,
        b@[0] == tag,
        tag == 4 || tag == 5,
    ensures
        match r {
            Some(p) => p.wf() && spec_encode(p@) == b@,
            None => !is_encoding(b@),
        },
{
    if b.len() == 1 {
        let p = if tag == 4 {
            Packet::Disconnect
        } else {
            Packet::ConnectionAccepted
        };
        proof {
            assert(b@ =~= spec_encode(p@));
        }
        return Some(p);
    }
    proof {
        assert forall|q: PacketModel| packet_wf(q) implies #[trigger] spec_encode(q) != b@ by {
            if spec_encode(q) == b@ {
                lemma_body_at_one(q, b@);
            }
        }
    }
    None
}

/// Decodes the body of a packet that holds a name and a position.
fn decode_name_pos(b: &Vec<u8>, tag: u8) -> (r: Option<Packet>)
    requires
        b@.len() >= 1,
        b@[0] == tag,
        tag == 8 || tag == 10,
    ensures
        match r {
            Some(p) => p.wf() && spec_encode(p@) == b@,
            None => !is_encoding(b@),
        },
{
    proof {
        lemma_enc_lens();
    }
    let r = read_name(b, 1);
    match r {
        Some((s, end)) => {
            let r2 = read_pos(b, end);
            match r2 {
                Some(pos) => {
                    if b.len() - end == 12 {
                        proof {
                            lemma_occurs_concat(b@, 1, enc_name(s@), enc_pos(pos));
                        }
                        let p = if tag == 8 {
                            Packet::UserJoin { name: s, pos }
                        } else {
                            Packet::MoveUser { name: s, pos }
                        };
                        proof {
                            lemma_from_parts(b@, tag, packet_body(p@));
                        }
                        return Some(p);
                    }
                },
                None => {},
            }
        },
        None => {},
    }
    proof {
        assert forall|q: PacketModel| packet_wf(q) implies #[trigger] spec_encode(q) != b@ by {
            if spec_encode(q) == b@ {
                lemma_body_at_one(q, b@);
                match q {
                    PacketModel::UserJoin { name, pos } => {
                        lemma_occurs_concat(b@, 1, enc_name(name), enc_pos(pos));
                    },
                    PacketModel::MoveUser { name, pos } => {
                        lemma_occurs_concat(b@, 1, enc_name(name), enc_pos(pos));
                    },
                    _ => {},
                }
            }
        }
    }
    None
}

/// Decodes the body of a chunk sent by the server.
fn decode_new_chunk(b: &Vec<u8>) -> (r: Option<Packet>)
    requires
        b@.len() >= 1,
        b@[0] == 11,
    ensures
        match r {
            Some(p) => p.wf() && spec_encode(p@) == b@,
            None => !is_encoding(b@),
        },
{
    proof {
        lemma_enc_lens();
    }
    let r = read_coords(b, 1);
    match r {
        Some((x, y, z)) => {
            let r2 = read_blocks(b, 13);
            match r2 {
                Some(blocks) => {
                    if b.len() == 13 + CHUNK_VOLUME {
                        proof {
                            lemma_occurs_concat(b@, 1, enc_coords(x, y, z), enc_blocks(blocks@));
                        }
                        let p = Packet::NewChunk { chunk: ServerChunk { x, y, z, blocks } };
                        proof {
                            lemma_from_parts(b@, 11, packet_body(p@));
                        }
                        return Some(p);
                    }
                },
                None => {},
            }
        },
        None => {},
    }
    proof {
        assert forall|q: PacketModel| packet_wf(q) implies #[trigger] spec_encode(q) != b@ by {
            if spec_encode(q) == b@ {
                lemma_body_at_one(q, b@);
                match q {
                    PacketModel::NewChunk { x, y, z, blocks } => {
                        lemma_occurs_concat(b@, 1, enc_coords(x, y, z), enc_blocks(blocks));
                    },
                    _ => {},
                }
            }
        }
    }
    None
}

impl Packet {
    /// The packet a datagram encodes. Fails exactly on datagrams that are no
    /// packet's encoding: with `UnknownTag` where the first byte names no
    /// packet kind (or there is none), else with `Malformed`.
    pub fn decode(b: &Vec<u8>) -> (r: Result<Packet, ProtocolError>)
        ensures
            match r {
                Ok(p) => p.wf() && spec_encode(p@) == b@,
                Err(e) => !is_encoding(b@) && (e == ProtocolError::UnknownTag <==> (b@.len() == 0
                    || b@[0] >= PACKET_KINDS)),
            },
    {
        if b.len() == 0 || b[0] >= PACKET_KINDS {
            proof {
                assert forall|q: PacketModel| packet_wf(q) implies #[trigger] spec_encode(q) != b@ by {
                    if spec_encode(q) == b@ {
                        lemma_body_at_one(q, b@);
                    }
                }
            }
            return Err(ProtocolError::UnknownTag);
        }
        let tag = b[0];
        let r = if tag == 0 || tag == 6 || tag == 9 {
            decode_name_only(b, tag)
        } else if tag == 1 || tag == 7 {
            decode_timestamp(b, tag)
        } else if tag == 2 {
            decode_move_self(b)
        } else if tag == 3 {
            decode_request_chunk(b)
        } else if tag == 4 || tag == 5 {
            decode_bare(b, tag)
        } else if tag == 8 || tag == 10 {
            decode_name_pos(b, tag)
        } else {
            decode_new_chunk(b)
        };
        match r {
            Some(p) => Ok(p),
            None => Err(ProtocolError::Malformed),
        }
    }
}

} // verus!

verus! {

proof fn lemma_split_eq(a1: Seq<u8>, r1: Seq<u8>, a2: Seq<u8>, r2: Seq<u8>)
    requires
        a1.len() == a2.len(),
        a1 + r1 == a2 + r2,
    ensures
        a1 == a2,
        r1 == r2,
{
    assert(a1 =~= (a1 + r1).subrange(0, a1.len() as int));
    assert(a2 =~= (a2 + r2).subrange(0, a2.len() as int));
    assert(r1 =~= (a1 + r1).subrange(a1.len() as int, (a1 + r1).len() as int));
    assert(r2 =~= (a2 + r2).subrange(a2.len() as int, (a2 + r2).len() as int));
}

proof fn lemma_u32_prefix(a: u32, r1: Seq<u8>, b: u32, r2: Seq<u8>)
    requires
        enc_u32(a) + r1 == enc_u32(b) + r2,
    ensures
        a == b,
        r1 == r2,
{
    lemma_enc_u32_len();
    lemma_split_eq(enc_u32(a), r1, enc_u32(b), r2);
    lemma_pow256_values();
    lemma_le_bytes_injective(a as nat, b as nat, 4);
}

proof fn lemma_name_prefix(n1: Seq<u8>, r1: Seq<u8>, n2: Seq<u8>, r2: Seq<u8>)
    requires
        n1.len() < name_limit(),
        n2.len() < name_limit(),
        enc_name(n1) + r1 == enc_name(n2) + r2,
    ensures
        n1 == n2,
        r1 == r2,
{
    assert(enc_name(n1) + r1 =~= enc_u32(n1.len() as u32) + (n1 + r1));
    assert(enc_name(n2) + r2 =~= enc_u32(n2.len() as u32) + (n2 + r2));
    lemma_u32_prefix(n1.len() as u32, n1 + r1, n2.len() as u32, n2 + r2);
    lemma_split_eq(n1, r1, n2, r2);
}

proof fn lemma_pos_prefix(p: Position, r1: Seq<u8>, q: Position, r2: Seq<u8>)
    requires
        enc_pos(p) + r1 == enc_pos(q) + r2,
    ensures
        p == q,
        r1 == r2,
{
    assert(enc_pos(p) + r1 =~= enc_u32(p.x) + (enc_u32(p.y) + (enc_u32(p.z) + r1)));
    assert(enc_pos(q) + r2 =~= enc_u32(q.x) + (enc_u32(q.y) + (enc_u32(q.z) + r2)));
    lemma_u32_prefix(p.x, enc_u32(p.y) + (enc_u32(p.z) + r1), q.x, enc_u32(q.y) + (enc_u32(q.z) + r2));
    lemma_u32_prefix(p.y, enc_u32(p.z) + r1, q.y, enc_u32(q.z) + r2);
    lemma_u32_prefix(p.z, r1, q.z, r2);
}

proof fn lemma_coords_prefix(x1: i32, y1: i32, z1: i32, r1: Seq<u8>, x2: i32, y2: i32, z2: i32, r2: Seq<u8>)
    requires
        enc_coords(x1, y1, z1) + r1 == enc_coords(x2, y2, z2) + r2,
    ensures
        x1 == x2 && y1 == y2 && z1 == z2,
        r1 == r2,
{
    let p = Position { x: x1 as u32, y: y1 as u32, z: z1 as u32 };
    let q = Position { x: x2 as u32, y: y2 as u32, z: z2 as u32 };
    assert(enc_coords(x1, y1, z1) == enc_pos(p));
    assert(enc_coords(x2, y2, z2) == enc_pos(q));
    lemma_pos_prefix(p, r1, q, r2);
    assert((x1 as u32) == (x2 as u32) ==> x1 == x2) by (bit_vector);
    assert((y1 as u32) == (y2 as u32) ==> y1 == y2) by (bit_vector);
    assert((z1 as u32) == (z2 as u32) ==> z1 == z2) by (bit_vector);
}

proof fn lemma_blocks_eq(s: Seq<Block>, t: Seq<Block>)
    requires
        s.len() == t.len(),
        enc_blocks(s) == enc_blocks(t),
    ensures
        s == t,
{
    assert forall|i: int| 0 <= i < s.len() implies s[i] == t[i] by {
        assert(enc_blocks(s)[i] == block_byte(s[i]));
        assert(enc_blocks(t)[i] == block_byte(t[i]));
        assert(block_byte(s[i]) == block_byte(t[i]));
        match s[i] {
            Block::Air => assert(t[i] is Air),
            Block::Solid => assert(t[i] is Solid),
        }
    }
    assert(s =~= t);
}

/// Two well-formed packets with the same encoding are the same packet.
pub proof fn lemma_encode_injective(p: PacketModel, q: PacketModel)
    requires
        packet_wf(p),
        packet_wf(q),
        spec_encode(p) == spec_encode(q),
    ensures
        p == q,
{
    let e: Seq<u8> = seq![];
    lemma_split_eq(seq![packet_tag(p)], packet_body(p), seq![packet_tag(q)], packet_body(q));
    assert(seq![packet_tag(p)][0] == packet_tag(p));
    lemma_pow256_values();
    match p {
        PacketModel::ConnectionRequest { name: a } => match q {
            PacketModel::ConnectionRequest { name: b } => {
                assert(enc_name(a) + e =~= enc_name(a));
                assert(enc_name(b) + e =~= enc_name(b));
                lemma_name_prefix(a, e, b, e);
            },
            _ => {},
        },
        PacketModel::Disconnected { reason: a } => match q {
            PacketModel::Disconnected { reason: b } => {
                assert(enc_name(a) + e =~= enc_name(a));
                assert(enc_name(b) + e =~= enc_name(b));
                lemma_name_prefix(a, e, b, e);
            },
            _ => {},
        },
        PacketModel::UserLeave { name: a } => match q {
            PacketModel::UserLeave { name: b } => {
                assert(enc_name(a) + e =~= enc_name(a));
                assert(enc_name(b) + e =~= enc_name(b));
                lemma_name_prefix(a, e, b, e);
            },
            _ => {},
        },
        PacketModel::Ping { timestamp: a } => match q {
            PacketModel::Ping { timestamp: b } => {
                lemma_le_bytes_injective(a as nat, b as nat, 16);
            },
            _ => {},
        },
        PacketModel::Pong { timestamp: a } => match q {
            PacketModel::Pong { timestamp: b } => {
                lemma_le_bytes_injective(a as nat, b as nat, 16);
            },
            _ => {},
        },
        PacketModel::MoveSelf { pos: a } => match q {
            PacketModel::MoveSelf { pos: b } => {
                assert(enc_pos(a) + e =~= enc_pos(a));
                assert(enc_pos(b) + e =~= enc_pos(b));
                lemma_pos_prefix(a, e, b, e);
            },
            _ => {},
        },
        PacketModel::RequestChunk { x: x1, y: y1, z: z1 } => match q {
            PacketModel::RequestChunk { x: x2, y: y2, z: z2 } => {
                assert(enc_coords(x1, y1, z1) + e =~= enc_coords(x1, y1, z1));
                assert(enc_coords(x2, y2, z2) + e =~= enc_coords(x2, y2, z2));
                lemma_coords_prefix(x1, y1, z1, e, x2, y2, z2, e);
            },
            _ => {},
        },
        PacketModel::UserJoin { name: a, pos: pa } => match q {
            PacketModel::UserJoin { name: b, pos: pb } => {
                lemma_name_prefix(a, enc_pos(pa), b, enc_pos(pb));
                assert(enc_pos(pa) + e =~= enc_pos(pa));
                assert(enc_pos(pb) + e =~= enc_pos(pb));
                lemma_pos_prefix(pa, e, pb, e);
            },
            _ => {},
        },
        PacketModel::MoveUser { name: a, pos: pa } => match q {
            PacketModel::MoveUser { name: b, pos: pb } => {
                lemma_name_prefix(a, enc_pos(pa), b, enc_pos(pb));
                assert(enc_pos(pa) + e =~= enc_pos(pa));
                assert(enc_pos(pb) + e =~= enc_pos(pb));
                lemma_pos_prefix(pa, e, pb, e);
            },
            _ => {},
        },
        PacketModel::NewChunk { x: x1, y: y1, z: z1, blocks: s } => match q {
            PacketModel::NewChunk { x: x2, y: y2, z: z2, blocks: t } => {
                lemma_coords_prefix(x1, y1, z1, enc_blocks(s), x2, y2, z2, enc_blocks(t));
                lemma_blocks_eq(s, t);
            },
            _ => {},
        },
        _ => {},
    }
}

/// Round trip: decoding the encoding of a well-formed packet succeeds and
/// gives back the same packet.
pub proof fn lemma_round_trip(p: PacketModel, r: Result<PacketModel, ProtocolError>)
    requires
        packet_wf(p),
        match r {
            Ok(q) => packet_wf(q) && spec_encode(q) == spec_encode(p),
            Err(_) => !is_encoding(spec_encode(p)),
        },
    ensures
        r == Ok::<PacketModel, ProtocolError>(p),
{
    match r {
        Ok(q) => {
            lemma_encode_injective(p, q);
        },
        Err(_) => {
            assert(packet_wf(p) && spec_encode(p) == spec_encode(p));
        },
    }
}

} // verus!
