use vstd::prelude::*;

use crate::cache::{initialized, rebuilt, received, retried, ChunkCache};
use crate::chunk::{Chunk, ChunkCoord};
use crate::packet::{Packet, PacketModel};
use crate::players::{joined, left, moved, Players};

verus! {

/// What the networking side is to do after an inbound packet.
#[derive(Clone, Copy, Debug, PartialEq, Eq, Structural)]
pub enum Reaction {
    /// The packet changed the frame state, or was one the client ignores.
    Nothing,
    /// The server accepted the connection: start the round-trip probe.
    StartProbe,
    /// The server ended the session: stop receiving.
    Stop,
    /// A probe came back after this many nanoseconds.
    RoundTrip(u128),
}

/// All state the frame loop owns: the chunk cache and the player table.
#[derive(Debug)]
pub struct ClientState {
    pub cache: ChunkCache,
    pub players: Players,
}

/// The request sent for chunk `c`.
pub open spec fn request_for(c: ChunkCoord) -> PacketModel {
    PacketModel::RequestChunk { x: c.0, y: c.1, z: c.2 }
}

/// The effect `p`, received at time `now`, has on the state and what it asks
/// the networking side to do.
pub open spec fn applied(before: ClientState, after: ClientState, p: PacketModel, now: u128, r: Reaction) -> bool {
    match p {
        PacketModel::NewChunk { x, y, z, blocks } => r == Reaction::Nothing && after.players == before.players
            && exists|ch: Chunk| ch.coord() == (x, y, z) && ch.blocks@ == blocks && ch.mesh is None
                && received(before.cache, after.cache, ch),
        PacketModel::UserJoin { name, pos } => r == Reaction::Nothing && after.cache == before.cache
            && joined(before.players, after.players, name, pos),
        PacketModel::MoveUser { name, pos } => r == Reaction::Nothing && after.cache == before.cache
            && moved(before.players, after.players, name, pos),
        PacketModel::UserLeave { name } => r == Reaction::Nothing && after.cache == before.cache
            && left(before.players, after.players, name),
        PacketModel::ConnectionAccepted => r == Reaction::StartProbe && after == before,
        PacketModel::Disconnected { .. } => r == Reaction::Stop && after == before,
        PacketModel::Pong { timestamp } => after == before && r == Reaction::RoundTrip(
            if now >= timestamp { (now - timestamp) as u128 } else { 0 },
        ),
        _ => r == Reaction::Nothing && after == before,
    }
}

impl ClientState {
    pub open spec fn wf(&self) -> bool {
        self.cache.wf() && self.players.wf()
    }

    /// The state at startup: every chunk within `radius` of `center` pending
    /// since time 0, no player.
    pub fn new(center: ChunkCoord, radius: i32) -> (r: ClientState)
        requires
            radius >= 0,
            center.0 - radius >= i32::MIN,
            center.0 + radius <= i32::MAX,
            center.1 - radius >= i32::MIN,
            center.1 + radius <= i32::MAX,
            center.2 - radius >= i32::MIN,
            center.2 + radius <= i32::MAX,
        ensures
            r.wf(),
            initialized(r.cache, center, radius as int),
            forall|n: Seq<u8>| #[trigger] r.players.pos_of(n) is None,
    {
        ClientState { cache: ChunkCache::new(center, radius), players: Players::new() }
    }

    /// Applies one inbound packet received at time `now`.
    pub fn apply_packet(&mut self, p: Packet, now: u128) -> (r: Reaction)
        requires
            old(self).wf(),
            p.wf(),
        ensures
            final(self).wf(),
            applied(*old(self), *final(self), p@, now, r),
    {
        let ghost pm = p@;
        match p {
            Packet::NewChunk { chunk } => {
                let ch = Chunk::from_server_chunk(chunk);
                let ghost g = ch;
                self.cache.receive_chunk(ch);
                assert(g.coord() == (g.chunk_x, g.chunk_y, g.chunk_z));
                Reaction::Nothing
            },
            Packet::UserJoin { name, pos } => {
                self.players.join(name, pos);
                Reaction::Nothing
            },
            Packet::MoveUser { name, pos } => {
                self.players.move_user(&name, pos);
                Reaction::Nothing
            },
            Packet::UserLeave { name } => {
                self.players.leave(&name);
                Reaction::Nothing
            },
            Packet::ConnectionAccepted => Reaction::StartProbe,
            Packet::Disconnected { .. } => Reaction::Stop,
            Packet::Pong { timestamp } => {
                if now >= timestamp {
                    Reaction::RoundTrip(now - timestamp)
                } else {
                    Reaction::RoundTrip(0)
                }
            },
            _ => Reaction::Nothing,
        }
    }

    /// One frame's cache work: rebuild at most `cap` missing meshes, then ask
    /// again for every pending chunk whose last request is more than
    /// `interval` old at time `now`. Returns the requests to send.
    pub fn frame_step(&mut self, now: u128, interval: u128, cap: usize) -> (r: Vec<Packet>)
        requires
            old(self).wf(),
        ensures
            final(self).wf(),
            final(self).players == old(self).players,
            exists|mid: ChunkCache, built: usize, sent: Seq<ChunkCoord>|
                rebuilt(old(self).cache, mid, cap, built) && retried(mid, final(self).cache, now, interval, sent)
                && r@.len() == sent.len() && forall|i: int| 0 <= i < sent.len() ==> (#[trigger] r@[i])@ == request_for(sent[i]),
    {
        let built = self.cache.rebuild_meshes(cap);
        let ghost mid = self.cache;
        let coords = self.cache.retry_requests(now, interval);
        let mut out: Vec<Packet> = Vec::new();
        let mut i: usize = 0;
        while i < coords.len()
            invariant
                i <= coords@.len(),
                out@.len() == i,
                forall|j: int| 0 <= j < i ==> (#[trigger] out@[j])@ == request_for(coords@[j]),
            decreases coords@.len() - i,
        {
            let c = coords[i];
            out.push(Packet::RequestChunk { x: c.0, y: c.1, z: c.2 });
            i += 1;
        }
        assert(rebuilt(old(self).cache, mid, cap, built) && retried(mid, self.cache, now, interval, coords@));
        out
    }
}

} // verus!
