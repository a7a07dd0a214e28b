use vstd::prelude::*;

use crate::blocks::CHUNK_VOLUME;
use crate::chunk::{same_voxels, Chunk, ChunkCoord, ChunkWaiter};

verus! {

/// One entry of the chunk cache: a coordinate and the state of its chunk.
#[derive(Debug)]
pub struct Slot {
    pub coord: ChunkCoord,
    pub state: ChunkWaiter,
}

/// The client's cache of chunk slots, indexed by chunk coordinate.
#[derive(Debug)]
pub struct ChunkCache {
    pub slots: Vec<Slot>,
}

/// Whether a slot in `state` is owed a new request at time `now`: it is
/// pending and its last request is more than `interval` old.
pub open spec fn is_due(state: Option<ChunkWaiter>, now: u128, interval: u128) -> bool {
    match state {
        Some(ChunkWaiter::Timestamp(t)) => now as int - t as int > interval as int,
        _ => false,
    }
}

/// The retry scan took `before` to `after` at time `now` and asked again for
/// exactly the coordinates in `sent`, once each.
pub open spec fn retried(
    before: ChunkCache,
    after: ChunkCache,
    now: u128,
    interval: u128,
    sent: Seq<ChunkCoord>,
) -> bool {
    &&& after.wf()
    &&& sent.no_duplicates()
    &&& forall|c: ChunkCoord| #[trigger]
        sent.contains(c) <==> is_due(before.lookup(c), now, interval)
    &&& forall|c: ChunkCoord| #[trigger]
        after.lookup(c) == if is_due(before.lookup(c), now, interval) {
            Some(ChunkWaiter::Timestamp(now))
        } else {
            before.lookup(c)
        }
}

/// Whether `a` and `b` share a face: they differ by one along one axis.
pub open spec fn is_neighbor(a: ChunkCoord, b: ChunkCoord) -> bool {
    let (dx, dy, dz) = (a.0 as int - b.0 as int, a.1 as int - b.1 as int, a.2 as int - b.2 as int);
    ((dx == 1 || dx == -1) && dy == 0 && dz == 0) || (dx == 0 && (dy == 1 || dy == -1) && dz == 0)
        || (dx == 0 && dy == 0 && (dz == 1 || dz == -1))
}

/// `w` with the mesh of a resident chunk dropped.
pub open spec fn without_mesh(w: ChunkWaiter) -> ChunkWaiter {
    match w {
        ChunkWaiter::Chunk(ch) => ChunkWaiter::Chunk(Chunk { mesh: None, ..ch }),
        ChunkWaiter::Timestamp(t) => ChunkWaiter::Timestamp(t),
    }
}

/// The arrival of `chunk` took `before` to `after`: its slot now holds it,
/// whatever was there, and each face-adjacent resident chunk lost its mesh.
pub open spec fn received(before: ChunkCache, after: ChunkCache, chunk: Chunk) -> bool {
    &&& after.wf()
    &&& forall|c: ChunkCoord| #[trigger]
        after.lookup(c) == if c == chunk.coord() {
            Some(ChunkWaiter::Chunk(chunk))
        } else if is_neighbor(c, chunk.coord()) {
            match before.lookup(c) {
                Some(w) => Some(without_mesh(w)),
                None => None,
            }
        } else {
            before.lookup(c)
        }
}

/// Whether `c` lies within `radius` of `center` along every axis.
pub open spec fn in_cube(c: ChunkCoord, center: ChunkCoord, radius: int) -> bool {
    &&& center.0 - radius <= c.0 <= center.0 + radius
    &&& center.1 - radius <= c.1 <= center.1 + radius
    &&& center.2 - radius <= c.2 <= center.2 + radius
}

/// Whether `c` comes before `(x, y, z)` in x-major, then y, then z order.
pub open spec fn lex_before(c: ChunkCoord, x: int, y: int, z: int) -> bool {
    c.0 < x || (c.0 == x && (c.1 < y || (c.1 == y && c.2 < z)))
}

/// `k` is the cache at startup: exactly the coordinates of the cube of
/// `radius` around `center` have a slot, each pending since time 0.
pub open spec fn initialized(k: ChunkCache, center: ChunkCoord, radius: int) -> bool {
    &&& k.wf()
    &&& forall|c: ChunkCoord| #[trigger]
        k.lookup(c) == if in_cube(c, center, radius) {
            Some(ChunkWaiter::Timestamp(0))
        } else {
            None
        }
}

/// The slots pushed so far during startup: the cube's coordinates before
/// `(x, y, z)`, in order, each pending since time 0.
spec fn init_progress(s: Seq<Slot>, center: ChunkCoord, radius: int, x: int, y: int, z: int) -> bool {
    &&& forall|i: int| 0 <= i < s.len() ==> #[trigger] s[i].state == ChunkWaiter::Timestamp(0)
    &&& forall|i: int| 0 <= i < s.len() ==> in_cube(#[trigger] s[i].coord, center, radius)
        && lex_before(s[i].coord, x, y, z)
    &&& forall|i: int, j: int| 0 <= i < j < s.len() ==> lex_before(#[trigger] s[i].coord, (#[trigger] s[j].coord).0 as int, s[j].coord.1 as int, s[j].coord.2 as int)
    &&& forall|c: ChunkCoord| in_cube(c, center, radius) && #[trigger] lex_before(c, x, y, z) ==> exists|i: int| 0 <= i < s.len() && #[trigger] s[i].coord == c
}

/// How one slot may change in a mesh rebuild against `k`: a pending slot
/// stays as it was; a resident chunk keeps its coordinate and voxels, and
/// keeps its mesh or, lacking one, gets the face list built against `k`.
pub open spec fn mesh_step(o: ChunkWaiter, f: ChunkWaiter, k: ChunkCache) -> bool {
    match o {
        ChunkWaiter::Chunk(oc) => match f {
            ChunkWaiter::Chunk(fc) => fc.coord() == oc.coord() && fc.blocks == oc.blocks && (
            fc.mesh_view() == oc.mesh_view() || (oc.mesh is None && fc.mesh_view() == Some(
                oc.mesh_faces(k),
            ))),
            ChunkWaiter::Timestamp(_) => false,
        },
        ChunkWaiter::Timestamp(t) => f == ChunkWaiter::Timestamp(t),
    }
}

/// Whether a slot holds a resident chunk that has no mesh.
pub open spec fn needs_mesh(w: ChunkWaiter) -> bool {
    match w {
        ChunkWaiter::Chunk(ch) => ch.mesh is None,
        ChunkWaiter::Timestamp(_) => false,
    }
}

/// How many of the first `n` slots of `s` hold a resident chunk without a
/// mesh.
pub open spec fn missing_in(s: Seq<Slot>, n: int) -> nat
    decreases n,
{
    if n <= 0 {
        0
    } else {
        missing_in(s, n - 1) + if needs_mesh(s[n - 1].state) {
            1nat
        } else {
            0nat
        }
    }
}

/// How many resident chunks of `k` have no mesh.
pub open spec fn missing(k: ChunkCache) -> nat {
    missing_in(k.slots@, k.slots@.len() as int)
}

/// A rebuild capped at `cap` meshes took `before` to `after` and built
/// `built` of them: as many as `cap` allows of those missing, each getting
/// its face list; where it built fewer than `cap`, no resident chunk is
/// left without a mesh.
pub open spec fn rebuilt(before: ChunkCache, after: ChunkCache, cap: usize, built: usize) -> bool {
    &&& after.wf()
    &&& built <= cap
    &&& built == if cap < missing(before) {
        cap as nat
    } else {
        missing(before)
    }
    &&& missing(after) == missing(before) - built
    &&& forall|c: ChunkCoord| #[trigger]
        after.lookup(c) is Some == before.lookup(c) is Some
    &&& forall|c: ChunkCoord|
        before.lookup(c) is Some ==> mesh_step(before.lookup(c).unwrap(), #[trigger] after.lookup(c).unwrap(), before)
    &&& built < cap ==> forall|c: ChunkCoord| #[trigger]
        after.resident(c) is Some ==> after.resident(c).unwrap().mesh is Some
}

impl ChunkCache {
    /// The cache at startup: a slot pending since time 0 for every
    /// coordinate within `radius` of `center` along each axis.
    pub fn new(center: ChunkCoord, radius: i32) -> (r: ChunkCache)
        requires
            radius >= 0,
            center.0 - radius >= i32::MIN,
            center.0 + radius <= i32::MAX,
            center.1 - radius >= i32::MIN,
            center.1 + radius <= i32::MAX,
            center.2 - radius >= i32::MIN,
            center.2 + radius <= i32::MAX,
        ensures
            initialized(r, center, radius as int),
    {
        let ghost rad = radius as int;
        let lo_x: i64 = center.0 as i64 - radius as i64;
        let hi_x: i64 = center.0 as i64 + radius as i64;
        let lo_y: i64 = center.1 as i64 - radius as i64;
        let hi_y: i64 = center.1 as i64 + radius as i64;
        let lo_z: i64 = center.2 as i64 - radius as i64;
        let hi_z: i64 = center.2 as i64 + radius as i64;
        let mut slots: Vec<Slot> = Vec::new();
        let mut x: i64 = lo_x;
        while x <= hi_x
            invariant
                lo_x == center.0 - rad, hi_x == center.0 + rad,
                lo_y == center.1 - rad, hi_y == center.1 + rad,
                lo_z == center.2 - rad, hi_z == center.2 + rad,
                lo_x <= x <= hi_x + 1,
                i32::MIN <= lo_x, hi_x <= i32::MAX,
                i32::MIN <= lo_y, hi_y <= i32::MAX,
                i32::MIN <= lo_z, hi_z <= i32::MAX,
                lo_y <= hi_y, lo_z <= hi_z,
                init_progress(slots@, center, rad, x as int, lo_y as int, lo_z as int),
            decreases hi_x + 1 - x,
        {
            let mut y: i64 = lo_y;
            while y <= hi_y
                invariant
                    lo_x == center.0 - rad, hi_x == center.0 + rad,
                    lo_y == center.1 - rad, hi_y == center.1 + rad,
                    lo_z == center.2 - rad, hi_z == center.2 + rad,
                    lo_x <= x <= hi_x,
                    lo_y <= y <= hi_y + 1,
                    i32::MIN <= lo_x, hi_x <= i32::MAX,
                    i32::MIN <= lo_y, hi_y <= i32::MAX,
                    i32::MIN <= lo_z, hi_z <= i32::MAX,
                    lo_y <= hi_y, lo_z <= hi_z,
                    init_progress(slots@, center, rad, x as int, y as int, lo_z as int),
                decreases hi_y + 1 - y,
            {
                let mut z: i64 = lo_z;
                while z <= hi_z
                    invariant
                        lo_x == center.0 - rad, hi_x == center.0 + rad,
                        lo_y == center.1 - rad, hi_y == center.1 + rad,
                        lo_z == center.2 - rad, hi_z == center.2 + rad,
                        lo_x <= x <= hi_x,
                        lo_y <= y <= hi_y,
                        lo_z <= z <= hi_z + 1,
                        i32::MIN <= lo_x, hi_x <= i32::MAX,
                        i32::MIN <= lo_y, hi_y <= i32::MAX,
                        i32::MIN <= lo_z, hi_z <= i32::MAX,
                        init_progress(slots@, center, rad, x as int, y as int, z as int),
                    decreases hi_z + 1 - z,
                {
                    let c: ChunkCoord = (x as i32, y as i32, z as i32);
                    let ghost prev = slots@;
                    slots.push(Slot { coord: c, state: ChunkWaiter::Timestamp(0) });
                    proof {
                        assert forall|d: ChunkCoord| in_cube(d, center, rad) && #[trigger] lex_before(d, x as int, y as int, z + 1)
                            implies exists|i: int| 0 <= i < slots@.len() && #[trigger] slots@[i].coord == d by {
                            if d == c {
                                assert(slots@[prev.len() as int].coord == d);
                            } else {
                                assert(lex_before(d, x as int, y as int, z as int));
                                let i = choose|i: int| 0 <= i < prev.len() && #[trigger] prev[i].coord == d;
                                assert(slots@[i].coord == d);
                            }
                        }
                        assert forall|i: int, j: int| 0 <= i < j < slots@.len() implies lex_before(#[trigger] slots@[i].coord, (#[trigger] slots@[j].coord).0 as int, slots@[j].coord.1 as int, slots@[j].coord.2 as int) by {
                            if j < prev.len() {
                                assert(prev[i] == slots@[i] && prev[j] == slots@[j]);
                            } else {
                                assert(prev[i] == slots@[i]);
                            }
                        }
                        assert forall|i: int| 0 <= i < slots@.len() implies in_cube(#[trigger] slots@[i].coord, center, rad)
                            && lex_before(slots@[i].coord, x as int, y as int, z + 1) by {
                            if i < prev.len() {
                                assert(prev[i] == slots@[i]);
                            }
                        }
                    }
                    z += 1;
                }
                proof {
                    assert forall|d: ChunkCoord| in_cube(d, center, rad) && #[trigger] lex_before(d, x as int, y + 1, lo_z as int)
                        implies exists|i: int| 0 <= i < slots@.len() && #[trigger] slots@[i].coord == d by {
                        assert(lex_before(d, x as int, y as int, z as int));
                    }
                }
                y += 1;
            }
            proof {
                assert forall|d: ChunkCoord| in_cube(d, center, rad) && #[trigger] lex_before(d, x + 1, lo_y as int, lo_z as int)
                    implies exists|i: int| 0 <= i < slots@.len() && #[trigger] slots@[i].coord == d by {
                    assert(lex_before(d, x as int, y as int, lo_z as int));
                }
            }
            x += 1;
        }
        let r = ChunkCache { slots };
        proof {
            assert forall|i: int, j: int| 0 <= i < j < r.slots@.len() implies #[trigger] r.slots@[i].coord
                != #[trigger] r.slots@[j].coord by {
                assert(lex_before(r.slots@[i].coord, r.slots@[j].coord.0 as int, r.slots@[j].coord.1 as int, r.slots@[j].coord.2 as int));
            }
            assert(r.wf());
            assert forall|c: ChunkCoord| #[trigger] r.lookup(c) == if in_cube(c, center, rad) {
                Some(ChunkWaiter::Timestamp(0))
            } else {
                None
            } by {
                if in_cube(c, center, rad) {
                    assert(lex_before(c, x as int, lo_y as int, lo_z as int));
                }
                if r.has(c) {
                    let i = choose|i: int| 0 <= i < r.slots@.len() && #[trigger] r.slots@[i].coord == c;
                    r.lemma_lookup_at(i);
                }
            }
        }
        r
    }

    /// Coordinates are unique, and each resident chunk is well formed and sits
    /// under its own coordinate.
    pub open spec fn wf(&self) -> bool {
        &&& forall|i: int, j: int|
            0 <= i < j < self.slots@.len() ==> #[trigger] self.slots@[i].coord
                != #[trigger] self.slots@[j].coord
        &&& forall|i: int|
            0 <= i < self.slots@.len() ==> match #[trigger] self.slots@[i].state {
                ChunkWaiter::Chunk(c) => c.wf() && c.coord() == self.slots@[i].coord,
                ChunkWaiter::Timestamp(_) => true,
            }
    }

    /// Whether the cache has a slot for `c`.
    pub open spec fn has(&self, c: ChunkCoord) -> bool {
        exists|i: int| 0 <= i < self.slots@.len() && #[trigger] self.slots@[i].coord == c
    }

    /// The state of the slot for `c`, if there is one.
    pub open spec fn lookup(&self, c: ChunkCoord) -> Option<ChunkWaiter> {
        if self.has(c) {
            Some(
                self.slots@[choose|i: int|
                    0 <= i < self.slots@.len() && #[trigger] self.slots@[i].coord == c].state,
            )
        } else {
            None
        }
    }

    /// The chunk resident under `c`, if any.
    pub open spec fn resident(&self, c: ChunkCoord) -> Option<Chunk> {
        match self.lookup(c) {
            Some(ChunkWaiter::Chunk(ch)) => Some(ch),
            _ => None,
        }
    }

    /// In a well-formed cache the slot at index `k` is the one `lookup` finds.
    pub proof fn lemma_lookup_at(&self, k: int)
        requires
            self.wf(),
            0 <= k < self.slots@.len(),
        ensures
            self.has(self.slots@[k].coord),
            self.lookup(self.slots@[k].coord) == Some(self.slots@[k].state),
    {
        let c = self.slots@[k].coord;
        assert(self.has(c));
        let i = choose|i: int| 0 <= i < self.slots@.len() && #[trigger] self.slots@[i].coord == c;
        if i < k {
            assert(self.slots@[i].coord != self.slots@[k].coord);
        } else if k < i {
            assert(self.slots@[k].coord != self.slots@[i].coord);
        }
    }

    /// A resident chunk of a well-formed cache is well formed and carries its
    /// own coordinate.
    pub proof fn lemma_resident_wf(&self, c: ChunkCoord)
        requires
            self.wf(),
            self.resident(c) is Some,
        ensures
            self.resident(c).unwrap().wf(),
            self.resident(c).unwrap().coord() == c,
    {
        let i = choose|i: int| 0 <= i < self.slots@.len() && #[trigger] self.slots@[i].coord == c;
        assert(match self.slots@[i].state {
            ChunkWaiter::Chunk(ch) => ch.wf() && ch.coord() == self.slots@[i].coord,
            ChunkWaiter::Timestamp(_) => true,
        });
    }

    /// Two well-formed caches whose slots carry the same coordinates in the
    /// same places hold a slot for the same coordinates.
    proof fn lemma_same_coords(a: &ChunkCache, b: &ChunkCache, c: ChunkCoord)
        requires
            a.wf(),
            b.wf(),
            a.slots@.len() == b.slots@.len(),
            forall|i: int| 0 <= i < a.slots@.len() ==> #[trigger] a.slots@[i].coord == b.slots@[i].coord,
        ensures
            a.has(c) == b.has(c),
            a.has(c) ==> exists|k: int| 0 <= k < a.slots@.len() && a.slots@[k].coord == c
                && a.lookup(c) == Some(a.slots@[k].state) && b.lookup(c) == Some(b.slots@[k].state),
    {
        if a.has(c) {
            let k = choose|k: int| 0 <= k < a.slots@.len() && #[trigger] a.slots@[k].coord == c;
            a.lemma_lookup_at(k);
            assert(b.slots@[k].coord == c);
            b.lemma_lookup_at(k);
        }
        if b.has(c) {
            let k = choose|k: int| 0 <= k < b.slots@.len() && #[trigger] b.slots@[k].coord == c;
            assert(a.slots@[k].coord == c);
        }
    }

    /// Asks again for every pending slot whose last request is more than
    /// `interval` old at time `now`, and stamps those slots with `now`.
    pub fn retry_requests(&mut self, now: u128, interval: u128) -> (r: Vec<ChunkCoord>)
        requires
            old(self).wf(),
        ensures
            retried(*old(self), *final(self), now, interval, r@),
    {
        let ghost before = *self;
        let mut out: Vec<ChunkCoord> = Vec::new();
        let mut i: usize = 0;
        while i < self.slots.len()
            invariant
                before.wf(),
                self.wf(),
                i <= self.slots@.len(),
                self.slots@.len() == before.slots@.len(),
                forall|j: int| 0 <= j < self.slots@.len() ==> #[trigger] self.slots@[j].coord == before.slots@[j].coord,
                forall|j: int| 0 <= j < i ==> #[trigger] self.slots@[j].state == if is_due(Some(before.slots@[j].state), now, interval) {
                    ChunkWaiter::Timestamp(now)
                } else {
                    before.slots@[j].state
                },
                forall|j: int| i <= j < self.slots@.len() ==> #[trigger] self.slots@[j] == before.slots@[j],
                out@.no_duplicates(),
                forall|c: ChunkCoord| #[trigger] out@.contains(c) <==> exists|j: int| 0 <= j < i && before.slots@[j].coord == c
                    && is_due(Some(before.slots@[j].state), now, interval),
            decreases self.slots@.len() - i,
        {
            let due = match &self.slots[i].state {
                ChunkWaiter::Timestamp(t) => now >= *t && now - *t > interval,
                ChunkWaiter::Chunk(_) => false,
            };
            if due {
                let c = self.slots[i].coord;
                proof {
                    if out@.contains(c) {
                        let j = choose|j: int| 0 <= j < i && before.slots@[j].coord == c
                            && is_due(Some(before.slots@[j].state), now, interval);
                        assert(before.slots@[j].coord != before.slots@[i as int].coord);
                    }
                }
                self.slots[i].state = ChunkWaiter::Timestamp(now);
                let ghost prev = out@;
                out.push(c);
                proof {
                    assert forall|d: ChunkCoord| #[trigger] out@.contains(d) <==> exists|j: int| 0 <= j < i + 1 && before.slots@[j].coord == d
                        && is_due(Some(before.slots@[j].state), now, interval) by {
                        if d == c {
                            assert(out@[out@.len() - 1] == d);
                            assert(before.slots@[i as int].coord == d);
                        } else {
                            if out@.contains(d) {
                                let k = choose|k: int| 0 <= k < out@.len() && out@[k] == d;
                                assert(prev[k] == d);
                                assert(prev.contains(d));
                            }
                            if exists|j: int| 0 <= j < i + 1 && before.slots@[j].coord == d
                                && is_due(Some(before.slots@[j].state), now, interval) {
                                let j = choose|j: int| 0 <= j < i + 1 && before.slots@[j].coord == d
                                    && is_due(Some(before.slots@[j].state), now, interval);
                                assert(j < i);
                                assert(prev.contains(d));
                                let k = choose|k: int| 0 <= k < prev.len() && prev[k] == d;
                                assert(out@[k] == d);
                            }
                        }
                    }
                }
            }
            i += 1;
        }
        proof {
            assert forall|c: ChunkCoord| #[trigger] out@.contains(c) <==> is_due(before.lookup(c), now, interval) by {
                ChunkCache::lemma_same_coords(&before, self, c);
                if out@.contains(c) {
                    let j = choose|j: int| 0 <= j < before.slots@.len() && before.slots@[j].coord == c
                        && is_due(Some(before.slots@[j].state), now, interval);
                    before.lemma_lookup_at(j);
                }
            }
            assert forall|c: ChunkCoord| #[trigger] self.lookup(c) == if is_due(before.lookup(c), now, interval) {
                Some(ChunkWaiter::Timestamp(now))
            } else {
                before.lookup(c)
            } by {
                ChunkCache::lemma_same_coords(&before, self, c);
            }
        }
        out
    }

    /// Makes `chunk` resident under its own coordinate, adding a slot if
    /// there is none.
    fn set_resident(&mut self, chunk: Chunk)
        requires
            old(self).wf(),
            chunk.wf(),
        ensures
            final(self).wf(),
            forall|d: ChunkCoord| #[trigger]
                final(self).lookup(d) == if d == chunk.coord() {
                    Some(ChunkWaiter::Chunk(chunk))
                } else {
                    old(self).lookup(d)
                },
    {
        let ghost before = *self;
        let ghost ch = chunk;
        let c = (chunk.chunk_x, chunk.chunk_y, chunk.chunk_z);
        match self.find(c) {
            Some(i) => {
                self.slots[i].state = ChunkWaiter::Chunk(chunk);
                proof {
                    assert forall|d: ChunkCoord| #[trigger]
                        self.lookup(d) == if d == c { Some(ChunkWaiter::Chunk(ch)) } else { before.lookup(d) } by {
                        ChunkCache::lemma_same_coords(&before, self, d);
                        self.lemma_lookup_at(i as int);
                    }
                }
            },
            None => {
                self.slots.push(Slot { coord: c, state: ChunkWaiter::Chunk(chunk) });
                let ghost n = before.slots@.len() as int;
                proof {
                    assert forall|j: int| 0 <= j < n implies #[trigger] self.slots@[j] == before.slots@[j] by {}
                    assert forall|j: int| 0 <= j < n implies #[trigger] self.slots@[j].coord != c by {
                        assert(before.slots@[j].coord != c);
                    }
                    assert(self.wf());
                    self.lemma_lookup_at(n);
                    assert forall|d: ChunkCoord| #[trigger]
                        self.lookup(d) == if d == c { Some(ChunkWaiter::Chunk(ch)) } else { before.lookup(d) } by {
                        if d != c {
                            if before.has(d) {
                                let k = choose|k: int| 0 <= k < before.slots@.len() && #[trigger] before.slots@[k].coord == d;
                                before.lemma_lookup_at(k);
                                assert(self.slots@[k].coord == d);
                                self.lemma_lookup_at(k);
                            }
                            if self.has(d) {
                                let k = choose|k: int| 0 <= k < self.slots@.len() && #[trigger] self.slots@[k].coord == d;
                                assert(k < n);
                                assert(before.slots@[k].coord == d);
                            }
                        }
                    }
                }
            },
        }
    }

    /// Drops the mesh of the chunk resident under `c`, if there is one.
    fn invalidate_at(&mut self, c: ChunkCoord)
        requires
            old(self).wf(),
        ensures
            final(self).wf(),
            forall|d: ChunkCoord| #[trigger]
                final(self).lookup(d) == if d == c {
                    match old(self).lookup(d) {
                        Some(w) => Some(without_mesh(w)),
                        None => None,
                    }
                } else {
                    old(self).lookup(d)
                },
    {
        let ghost before = *self;
        match self.find(c) {
            Some(i) => {
                if let ChunkWaiter::Chunk(n) = &mut self.slots[i].state {
                    n.mesh = None;
                }
                proof {
                    assert(self.slots@[i as int].state == without_mesh(before.slots@[i as int].state));
                    assert forall|j: int| 0 <= j < self.slots@.len() && j != i implies #[trigger] self.slots@[j] == before.slots@[j] by {}
                    assert(self.wf());
                    assert forall|d: ChunkCoord| #[trigger]
                        self.lookup(d) == if d == c {
                            match before.lookup(d) {
                                Some(w) => Some(without_mesh(w)),
                                None => None,
                            }
                        } else {
                            before.lookup(d)
                        } by {
                        ChunkCache::lemma_same_coords(&before, self, d);
                        self.lemma_lookup_at(i as int);
                    }
                }
            },
            None => {},
        }
    }

    /// Makes `chunk` resident, whatever its slot held, then drops the mesh of
    /// every face-adjacent resident chunk, whose boundary faces were built
    /// against Air.
    pub fn receive_chunk(&mut self, chunk: Chunk)
        requires
            old(self).wf(),
            chunk.wf(),
        ensures
            received(*old(self), *final(self), chunk),
    {
        let ghost before = *self;
        let (x, y, z) = (chunk.chunk_x, chunk.chunk_y, chunk.chunk_z);
        self.set_resident(chunk);
        let ghost k1 = *self;
        if x > i32::MIN {
            self.invalidate_at((x - 1, y, z));
        }
        let ghost k2 = *self;
        if x < i32::MAX {
            self.invalidate_at((x + 1, y, z));
        }
        let ghost k3 = *self;
        if y > i32::MIN {
            self.invalidate_at((x, y - 1, z));
        }
        let ghost k4 = *self;
        if y < i32::MAX {
            self.invalidate_at((x, y + 1, z));
        }
        let ghost k5 = *self;
        if z > i32::MIN {
            self.invalidate_at((x, y, z - 1));
        }
        let ghost k6 = *self;
        if z < i32::MAX {
            self.invalidate_at((x, y, z + 1));
        }
        proof {
            assert forall|c: ChunkCoord| #[trigger]
                self.lookup(c) == if c == chunk.coord() {
                    Some(ChunkWaiter::Chunk(chunk))
                } else if is_neighbor(c, chunk.coord()) {
                    match before.lookup(c) {
                        Some(w) => Some(without_mesh(w)),
                        None => None,
                    }
                } else {
                    before.lookup(c)
                } by {
                // Name the slot of `c` in each intermediate state so that the
                // step-by-step facts about it apply.
                assert(k1.lookup(c) == k1.lookup(c));
                assert(k2.lookup(c) == k2.lookup(c));
                assert(k3.lookup(c) == k3.lookup(c));
                assert(k4.lookup(c) == k4.lookup(c));
                assert(k5.lookup(c) == k5.lookup(c));
                assert(k6.lookup(c) == k6.lookup(c));
            }
        }
    }

    /// Caches with the same coordinates in the same places, where each slot
    /// is resident in both or neither with the same voxels, hold the same
    /// voxels.
    proof fn lemma_same_voxels_from_slots(a: &ChunkCache, b: &ChunkCache)
        requires
            a.wf(),
            b.wf(),
            a.slots@.len() == b.slots@.len(),
            forall|i: int| 0 <= i < a.slots@.len() ==> #[trigger] a.slots@[i].coord == b.slots@[i].coord,
            forall|i: int| 0 <= i < a.slots@.len() ==> match (#[trigger] a.slots@[i].state, b.slots@[i].state) {
                (ChunkWaiter::Chunk(x), ChunkWaiter::Chunk(y)) => x.blocks@ == y.blocks@,
                (ChunkWaiter::Timestamp(_), ChunkWaiter::Timestamp(_)) => true,
                _ => false,
            },
        ensures
            same_voxels(*a, *b),
    {
        assert forall|c: ChunkCoord| (a.resident(c) is Some <==> b.resident(c) is Some) && (a.resident(c) is Some
            ==> a.resident(c).unwrap().blocks@ == b.resident(c).unwrap().blocks@) by {
            ChunkCache::lemma_same_coords(a, b, c);
            if a.has(c) {
                let k = choose|k: int| 0 <= k < a.slots@.len() && a.slots@[k].coord == c
                    && a.lookup(c) == Some(a.slots@[k].state) && b.lookup(c) == Some(b.slots@[k].state);
                assert(match (a.slots@[k].state, b.slots@[k].state) {
                    (ChunkWaiter::Chunk(x), ChunkWaiter::Chunk(y)) => x.blocks@ == y.blocks@,
                    (ChunkWaiter::Timestamp(_), ChunkWaiter::Timestamp(_)) => true,
                    _ => false,
                });
            }
        }
    }

    /// Slot sequences that agree on which slots need a mesh over `[a, n)`
    /// count the same number of them there.
    proof fn lemma_missing_agree(s: Seq<Slot>, t: Seq<Slot>, a: int, n: int)
        requires
            0 <= a <= n,
            forall|j: int| a <= j < n ==> needs_mesh(#[trigger] s[j].state) == needs_mesh(t[j].state),
        ensures
            missing_in(s, n) - missing_in(s, a) == missing_in(t, n) - missing_in(t, a),
        decreases n - a,
    {
        if n > a {
            ChunkCache::lemma_missing_agree(s, t, a, n - 1);
        }
    }

    /// Builds the meshes of resident chunks that lack one, in slot order,
    /// at most `cap` of them; returns how many it built.
    pub fn rebuild_meshes(&mut self, cap: usize) -> (built: usize)
        requires
            old(self).wf(),
        ensures
            rebuilt(*old(self), *final(self), cap, built),
    {
        let ghost before = *self;
        let mut built: usize = 0;
        let mut i: usize = 0;
        proof {
            ChunkCache::lemma_same_voxels_from_slots(&before, self);
        }
        while i < self.slots.len() && built < cap
            invariant
                before.wf(),
                self.wf(),
                i <= self.slots@.len(),
                built <= cap,
                self.slots@.len() == before.slots@.len(),
                forall|j: int| 0 <= j < self.slots@.len() ==> #[trigger] self.slots@[j].coord == before.slots@[j].coord,
                forall|j: int| 0 <= j < self.slots@.len() ==> mesh_step(before.slots@[j].state, #[trigger] self.slots@[j].state, before),
                forall|j: int| i <= j < self.slots@.len() ==> #[trigger] self.slots@[j] == before.slots@[j],
                built < cap ==> forall|j: int| 0 <= j < i ==> match #[trigger] self.slots@[j].state {
                    ChunkWaiter::Chunk(ch) => ch.mesh is Some,
                    ChunkWaiter::Timestamp(_) => true,
                },
                same_voxels(before, *self),
                built + missing_in(self.slots@, i as int) == missing_in(before.slots@, i as int),
                built < cap ==> missing_in(self.slots@, i as int) == 0,
            decreases self.slots@.len() - i,
        {
            let needs = match &self.slots[i].state {
                ChunkWaiter::Chunk(ch) => ch.mesh.is_none(),
                ChunkWaiter::Timestamp(_) => false,
            };
            if needs {
                let faces = match &self.slots[i].state {
                    ChunkWaiter::Chunk(ch) => {
                        assert(ch.wf());
                        let f = ch.build_faces(self);
                        proof {
                            crate::chunk::lemma_faces_same_voxels(*ch, before, *self, CHUNK_VOLUME as int);
                        }
                        f
                    },
                    ChunkWaiter::Timestamp(_) => Vec::new(),
                };
                let ghost mid = *self;
                if let ChunkWaiter::Chunk(ch) = &mut self.slots[i].state {
                    ch.mesh = Some(faces);
                }
                built += 1;
                proof {
                    assert forall|j: int| 0 <= j < self.slots@.len() && j != i implies #[trigger] self.slots@[j] == mid.slots@[j] by {}
                    assert(self.wf());
                    ChunkCache::lemma_same_voxels_from_slots(&before, self);
                    ChunkCache::lemma_missing_agree(self.slots@, mid.slots@, 0, i as int);
                    assert(!needs_mesh(self.slots@[i as int].state));
                    assert(needs_mesh(before.slots@[i as int].state));
                }
            } else {
                proof {
                    assert(!needs_mesh(before.slots@[i as int].state));
                }
            }
            i += 1;
        }
        proof {
            ChunkCache::lemma_missing_agree(self.slots@, before.slots@, i as int, self.slots@.len() as int);
            ChunkCache::lemma_same_voxels_from_slots(&before, self);
            assert forall|c: ChunkCoord| #[trigger] self.lookup(c) is Some == before.lookup(c) is Some by {
                ChunkCache::lemma_same_coords(&before, self, c);
            }
            assert forall|c: ChunkCoord| before.lookup(c) is Some implies mesh_step(before.lookup(c).unwrap(), #[trigger] self.lookup(c).unwrap(), before) by {
                ChunkCache::lemma_same_coords(&before, self, c);
            }
            if built < cap {
                assert forall|c: ChunkCoord| #[trigger] self.resident(c) is Some implies self.resident(c).unwrap().mesh is Some by {
                    ChunkCache::lemma_same_coords(&before, self, c);
                    let k = choose|k: int| 0 <= k < before.slots@.len() && before.slots@[k].coord == c
                        && before.lookup(c) == Some(before.slots@[k].state) && self.lookup(c) == Some(self.slots@[k].state);
                    assert(match self.slots@[k].state {
                        ChunkWaiter::Chunk(ch) => ch.mesh is Some,
                        ChunkWaiter::Timestamp(_) => true,
                    });
                }
            }
        }
        built
    }

    /// Index of the slot for `c`.
    pub fn find(&self, c: ChunkCoord) -> (r: Option<usize>)
        requires
            self.wf(),
        ensures
            match r {
                Some(i) => i < self.slots@.len() && self.slots@[i as int].coord == c
                    && self.lookup(c) == Some(self.slots@[i as int].state),
                None => !self.has(c) && self.lookup(c) is None,
            },
    {
        let mut i: usize = 0;
        while i < self.slots.len()
            invariant
                self.wf(),
                i <= self.slots@.len(),
                forall|j: int| 0 <= j < i ==> #[trigger] self.slots@[j].coord != c,
            decreases self.slots@.len() - i,
        {
            let s = &self.slots[i];
            if s.coord.0 == c.0 && s.coord.1 == c.1 && s.coord.2 == c.2 {
                proof {
                    self.lemma_lookup_at(i as int);
                }
                return Some(i);
            }
            i += 1;
        }
        None
    }
}

} // verus!

verus! {

/// Startup: the first retry scan more than `interval` after time 0 asks for
/// every coordinate of the startup cube exactly once, and a later scan within
/// `interval` of it asks for none of them again.
pub proof fn lemma_startup_requests(
    k0: ChunkCache,
    k1: ChunkCache,
    k2: ChunkCache,
    center: ChunkCoord,
    radius: int,
    now1: u128,
    now2: u128,
    interval: u128,
    sent1: Seq<ChunkCoord>,
    sent2: Seq<ChunkCoord>,
)
    requires
        initialized(k0, center, radius),
        retried(k0, k1, now1, interval, sent1),
        retried(k1, k2, now2, interval, sent2),
        now1 > interval,
        now1 <= now2,
        now2 - now1 <= interval,
    ensures
        sent1.no_duplicates(),
        forall|c: ChunkCoord| #[trigger] sent1.contains(c) <==> in_cube(c, center, radius),
        forall|c: ChunkCoord| in_cube(c, center, radius) ==> !(#[trigger] sent2.contains(c)),
{
    // Each assertion below names the slot of `c` in a state, so that the
    // transition facts about that slot apply.
    assert forall|c: ChunkCoord| #[trigger] sent1.contains(c) <==> in_cube(c, center, radius) by {
        assert(k0.lookup(c) == k0.lookup(c));
    }
    assert forall|c: ChunkCoord| in_cube(c, center, radius) implies !(#[trigger] sent2.contains(c)) by {
        assert(k0.lookup(c) == k0.lookup(c));
        assert(k1.lookup(c) == k1.lookup(c));
    }
}

/// A pending slot whose last request is more than `interval` old is asked
/// for by the scan, and stamped with the scan's time.
pub proof fn lemma_due_slot_requested(
    k0: ChunkCache,
    k1: ChunkCache,
    now: u128,
    interval: u128,
    sent: Seq<ChunkCoord>,
    c: ChunkCoord,
    t: u128,
)
    requires
        retried(k0, k1, now, interval, sent),
        k0.lookup(c) == Some(ChunkWaiter::Timestamp(t)),
        now - t > interval,
    ensures
        sent.contains(c),
        k1.lookup(c) == Some(ChunkWaiter::Timestamp(now)),
{
    assert(k1.lookup(c) == k1.lookup(c));
}

/// Once a chunk has arrived, a retry scan does not ask for it, and it stays
/// resident through later scans and arrivals.
pub proof fn lemma_resident_not_requested(
    k0: ChunkCache,
    k1: ChunkCache,
    ch: Chunk,
    now: u128,
    interval: u128,
    k2: ChunkCache,
    sent: Seq<ChunkCoord>,
    other: Chunk,
    k3: ChunkCache,
)
    requires
        received(k0, k1, ch),
        retried(k1, k2, now, interval, sent),
        received(k2, k3, other),
    ensures
        k1.resident(ch.coord()) == Some(ch),
        !sent.contains(ch.coord()),
        k2.resident(ch.coord()) is Some,
        k3.resident(ch.coord()) is Some,
{
    let c = ch.coord();
    assert(k1.lookup(c) == k1.lookup(c));
    assert(k2.lookup(c) == k2.lookup(c));
    assert(k3.lookup(c) == k3.lookup(c));
}

} // verus!

verus! {

/// Startup: every coordinate of the startup cube has a slot, pending since
/// time 0, with no chunk resident.
pub proof fn lemma_startup_pending(k: ChunkCache, center: ChunkCoord, radius: int, c: ChunkCoord)
    requires
        initialized(k, center, radius),
        in_cube(c, center, radius),
    ensures
        k.has(c),
        k.lookup(c) == Some(ChunkWaiter::Timestamp(0)),
        k.resident(c) is None,
{
    assert(k.lookup(c) == k.lookup(c));
}

/// One step of the frame loop on the cache: a retry scan, the arrival of a
/// chunk, or a capped mesh rebuild.
pub open spec fn cache_step(a: ChunkCache, b: ChunkCache) -> bool {
    ||| exists|now: u128, interval: u128, sent: Seq<ChunkCoord>| retried(a, b, now, interval, sent)
    ||| exists|ch: Chunk| received(a, b, ch)
    ||| exists|cap: usize, built: usize| rebuilt(a, b, cap, built)
}

/// No step takes a resident chunk out of the cache.
pub proof fn lemma_step_keeps_resident(a: ChunkCache, b: ChunkCache, c: ChunkCoord)
    requires
        a.resident(c) is Some,
        cache_step(a, b),
    ensures
        b.resident(c) is Some,
{
    if exists|now: u128, interval: u128, sent: Seq<ChunkCoord>| retried(a, b, now, interval, sent) {
        let (now, interval, sent) = choose|now: u128, interval: u128, sent: Seq<ChunkCoord>|
            retried(a, b, now, interval, sent);
        assert(b.lookup(c) == b.lookup(c));
    } else if exists|ch: Chunk| received(a, b, ch) {
        let ch = choose|ch: Chunk| received(a, b, ch);
        assert(b.lookup(c) == b.lookup(c));
    } else {
        let (cap, built) = choose|cap: usize, built: usize| rebuilt(a, b, cap, built);
        assert(b.lookup(c) == b.lookup(c));
        assert(mesh_step(a.lookup(c).unwrap(), b.lookup(c).unwrap(), a));
    }
}

/// Retry cessation over any run of frames: once the chunk under `c` is
/// resident, it stays resident through every later step, and no later
/// retry scan asks for `c`.
pub proof fn lemma_resident_forever(ks: Seq<ChunkCache>, c: ChunkCoord)
    requires
        ks.len() > 0,
        ks[0].resident(c) is Some,
        forall|i: int| 0 <= i < ks.len() - 1 ==> cache_step(#[trigger] ks[i], ks[i + 1]),
    ensures
        forall|i: int| 0 <= i < ks.len() ==> (#[trigger] ks[i]).resident(c) is Some,
        forall|i: int, now: u128, interval: u128, sent: Seq<ChunkCoord>|
            0 <= i < ks.len() - 1 && #[trigger] retried(ks[i], ks[i + 1], now, interval, sent)
                ==> !sent.contains(c),
    decreases ks.len(),
{
    if ks.len() > 1 {
        let front = ks.drop_last();
        assert forall|i: int| 0 <= i < front.len() - 1 implies cache_step(#[trigger] front[i], front[i + 1]) by {
            assert(front[i] == ks[i] && front[i + 1] == ks[i + 1]);
            assert(cache_step(ks[i], ks[i + 1]));
        }
        lemma_resident_forever(front, c);
        let n = ks.len() - 1;
        assert(front[n - 1] == ks[n - 1]);
        assert(cache_step(ks[n - 1], ks[n]));
        lemma_step_keeps_resident(ks[n - 1], ks[n], c);
        assert forall|i: int| 0 <= i < ks.len() implies (#[trigger] ks[i]).resident(c) is Some by {
            if i < n {
                assert(front[i] == ks[i]);
            }
        }
        assert forall|i: int, now: u128, interval: u128, sent: Seq<ChunkCoord>|
            0 <= i < ks.len() - 1 && #[trigger] retried(ks[i], ks[i + 1], now, interval, sent)
            implies !sent.contains(c) by {
            assert(ks[i].resident(c) is Some);
            assert(ks[i].lookup(c) == ks[i].lookup(c));
        }
    }
}

} // verus!
