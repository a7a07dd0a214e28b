use vstd::prelude::*;

use crate::blocks::{block_index, grid_index, Block, CHUNK_SIZE, CHUNK_VOLUME};
use crate::cache::{is_neighbor, received, ChunkCache};
use crate::instance::{
    direction_code, field_dir, field_x, field_y, field_z, lemma_pack_face_injective, lemma_pack_fields,
    pack_face, FaceDirection, InstanceData,
};
use crate::packet::ServerChunk;

verus! {

/// Coordinate of a chunk in the world grid.
pub type ChunkCoord = (i32, i32, i32);

/// A chunk resident on the client: its voxels and, once built, its face list.
#[derive(Debug)]
pub struct Chunk {
    pub chunk_x: i32,
    pub chunk_y: i32,
    pub chunk_z: i32,
    pub blocks: Vec<Block>,
    pub mesh: Option<Vec<InstanceData>>,
}

/// The state of a cache slot: requested at a time, or resident.
#[derive(Debug)]
pub enum ChunkWaiter {
    Timestamp(u128),
    Chunk(Chunk),
}

/// The block at `(x, y, z)` of the chunk resident under `c`, or Air where
/// no chunk is resident there (or `c` lies outside the coordinate range).
pub open spec fn resident_block(cache: ChunkCache, c: (int, int, int), x: int, y: int, z: int) -> Block {
    if i32::MIN <= c.0 <= i32::MAX && i32::MIN <= c.1 <= i32::MAX && i32::MIN <= c.2 <= i32::MAX {
        match cache.resident((c.0 as i32, c.1 as i32, c.2 as i32)) {
            Some(n) => n.block(x, y, z),
            None => Block::Air,
        }
    } else {
        Block::Air
    }
}

/// Whether `(x, y, z)` is inside the chunk or one step past at most one of
/// its faces.
pub open spec fn probe_in_range(x: int, y: int, z: int) -> bool {
    let inside = |v: int| 0 <= v < CHUNK_SIZE;
    let near = |v: int| -1 <= v <= CHUNK_SIZE;
    (near(x) && inside(y) && inside(z)) || (inside(x) && near(y) && inside(z)) || (inside(x)
        && inside(y) && near(z))
}

/// A one-record face list when `visible`, else an empty one.
pub open spec fn face_if(visible: bool, d: FaceDirection, x: int, y: int, z: int) -> Seq<
    InstanceData,
> {
    if visible {
        seq![InstanceData { data: pack_face(d, x as u32, y as u32, z as u32) }]
    } else {
        seq![]
    }
}

/// The x coordinate of the voxel at flat position `v`.
pub open spec fn voxel_x(v: int) -> int {
    v / 256
}

/// The y coordinate of the voxel at flat position `v`.
pub open spec fn voxel_y(v: int) -> int {
    (v / 16) % 16
}

/// The z coordinate of the voxel at flat position `v`.
pub open spec fn voxel_z(v: int) -> int {
    v % 16
}

/// Whether two caches hold resident chunks under the same coordinates, with
/// the same voxels.
pub open spec fn same_voxels(a: ChunkCache, b: ChunkCache) -> bool {
    forall|c: ChunkCoord|
        #![trigger a.resident(c)]
        #![trigger b.resident(c)]
        (a.resident(c) is Some <==> b.resident(c) is Some) && (a.resident(c) is Some
            ==> a.resident(c).unwrap().blocks@ == b.resident(c).unwrap().blocks@)
}

/// A mesh build took `before` to `after` against `cache`, reporting `built`:
/// a chunk without a mesh gets the face list, one with a mesh keeps it.
pub open spec fn generated(before: Chunk, after: Chunk, cache: ChunkCache, built: bool) -> bool {
    &&& built == before.mesh is None
    &&& after.mesh_view() == if built {
        Some(before.mesh_faces(cache))
    } else {
        before.mesh_view()
    }
    &&& after.coord() == before.coord()
    &&& after.blocks@ == before.blocks@
}

impl Chunk {
    /// The voxel array has one entry per voxel.
    pub open spec fn wf(&self) -> bool {
        self.blocks@.len() == CHUNK_VOLUME
    }

    pub open spec fn coord(&self) -> ChunkCoord {
        (self.chunk_x, self.chunk_y, self.chunk_z)
    }

    /// The voxel at local `(x, y, z)`.
    pub open spec fn block(&self, x: int, y: int, z: int) -> Block {
        self.blocks@[grid_index(x, y, z)]
    }

    /// The block seen from this chunk at local `(x, y, z)`: a position one
    /// step past a face is read from the face-adjacent chunk, as Air where it
    /// is not resident.
    #[verifier::opaque]
    pub open spec fn block_at(&self, cache: ChunkCache, x: int, y: int, z: int) -> Block {
        let (cx, cy, cz) = (self.chunk_x as int, self.chunk_y as int, self.chunk_z as int);
        if x < 0 {
            resident_block(cache, (cx - 1, cy, cz), CHUNK_SIZE - 1, y, z)
        } else if x > CHUNK_SIZE - 1 {
            resident_block(cache, (cx + 1, cy, cz), 0, y, z)
        } else if y < 0 {
            resident_block(cache, (cx, cy - 1, cz), x, CHUNK_SIZE - 1, z)
        } else if y > CHUNK_SIZE - 1 {
            resident_block(cache, (cx, cy + 1, cz), x, 0, z)
        } else if z < 0 {
            resident_block(cache, (cx, cy, cz - 1), x, y, CHUNK_SIZE - 1)
        } else if z > CHUNK_SIZE - 1 {
            resident_block(cache, (cx, cy, cz + 1), x, y, 0)
        } else {
            self.block(x, y, z)
        }
    }

    /// The visible faces of voxel `(x, y, z)`: none unless it is Solid, then
    /// one per direction whose neighbor is Air, in the order up, down, front,
    /// back, left, right.
    pub open spec fn voxel_faces(&self, cache: ChunkCache, x: int, y: int, z: int) -> Seq<
        InstanceData,
    > {
        if self.block_at(cache, x, y, z) == Block::Solid {
            face_if(self.block_at(cache, x, y + 1, z) == Block::Air, FaceDirection::Up, x, y, z)
                + face_if(self.block_at(cache, x, y - 1, z) == Block::Air, FaceDirection::Down, x, y, z)
                + face_if(self.block_at(cache, x + 1, y, z) == Block::Air, FaceDirection::Front, x, y, z)
                + face_if(self.block_at(cache, x - 1, y, z) == Block::Air, FaceDirection::Back, x, y, z)
                + face_if(self.block_at(cache, x, y, z + 1) == Block::Air, FaceDirection::Left, x, y, z)
                + face_if(self.block_at(cache, x, y, z - 1) == Block::Air, FaceDirection::Right, x, y, z)
        } else {
            seq![]
        }
    }

    /// The faces of the first `n` voxels in x-major, then y, then z order.
    pub open spec fn faces_upto(&self, cache: ChunkCache, n: int) -> Seq<InstanceData>
        decreases n,
    {
        if n <= 0 {
            seq![]
        } else {
            self.faces_upto(cache, n - 1) + self.voxel_faces(
                cache,
                voxel_x(n - 1),
                voxel_y(n - 1),
                voxel_z(n - 1),
            )
        }
    }

    /// The face list of this chunk against the neighbors in `cache`.
    pub open spec fn mesh_faces(&self, cache: ChunkCache) -> Seq<InstanceData> {
        self.faces_upto(cache, CHUNK_VOLUME as int)
    }

    /// A chunk made resident from the server's data, with no mesh yet.
    pub fn from_server_chunk(chunk: ServerChunk) -> (r: Chunk)
        ensures
            r.chunk_x == chunk.x,
            r.chunk_y == chunk.y,
            r.chunk_z == chunk.z,
            r.blocks@ == chunk.blocks@,
            r.mesh is None,
    {
        Chunk {
            chunk_x: chunk.x,
            chunk_y: chunk.y,
            chunk_z: chunk.z,
            blocks: chunk.blocks,
            mesh: None,
        }
    }

    /// The block seen from this chunk at local `(x, y, z)`.
    pub fn get_block(&self, chunks: &ChunkCache, x: isize, y: isize, z: isize) -> (r: Block)
        requires
            self.wf(),
            chunks.wf(),
            probe_in_range(x as int, y as int, z as int),
        ensures
            r == self.block_at(*chunks, x as int, y as int, z as int),
    {
        reveal(Chunk::block_at);
        let last: isize = 15;
        if x < 0 {
            if self.chunk_x == i32::MIN {
                Block::Air
            } else {
                resident_block_of(chunks, (self.chunk_x - 1, self.chunk_y, self.chunk_z), 15, y as usize, z as usize)
            }
        } else if x > last {
            if self.chunk_x == i32::MAX {
                Block::Air
            } else {
                resident_block_of(chunks, (self.chunk_x + 1, self.chunk_y, self.chunk_z), 0, y as usize, z as usize)
            }
        } else if y < 0 {
            if self.chunk_y == i32::MIN {
                Block::Air
            } else {
                resident_block_of(chunks, (self.chunk_x, self.chunk_y - 1, self.chunk_z), x as usize, 15, z as usize)
            }
        } else if y > last {
            if self.chunk_y == i32::MAX {
                Block::Air
            } else {
                resident_block_of(chunks, (self.chunk_x, self.chunk_y + 1, self.chunk_z), x as usize, 0, z as usize)
            }
        } else if z < 0 {
            if self.chunk_z == i32::MIN {
                Block::Air
            } else {
                resident_block_of(chunks, (self.chunk_x, self.chunk_y, self.chunk_z - 1), x as usize, y as usize, 15)
            }
        } else if z > last {
            if self.chunk_z == i32::MAX {
                Block::Air
            } else {
                resident_block_of(chunks, (self.chunk_x, self.chunk_y, self.chunk_z + 1), x as usize, y as usize, 0)
            }
        } else {
            self.blocks[block_index(x as usize, y as usize, z as usize)]
        }
    }

    /// The face list, if built.
    pub open spec fn mesh_view(&self) -> Option<Seq<InstanceData>> {
        match self.mesh {
            Some(m) => Some(m@),
            None => None,
        }
    }

    /// Appends the visible faces of voxel `(x, y, z)` to `out`.
    #[verifier::rlimit(50)]
    fn push_voxel_faces(
        &self,
        chunks: &ChunkCache,
        x: usize,
        y: usize,
        z: usize,
        out: &mut Vec<InstanceData>,
    )
        requires
            self.wf(),
            chunks.wf(),
            x < CHUNK_SIZE,
            y < CHUNK_SIZE,
            z < CHUNK_SIZE,
        ensures
            final(out)@ == old(out)@ + self.voxel_faces(*chunks, x as int, y as int, z as int),
    {
        let ghost start = out@;
        let (xi, yi, zi) = (x as isize, y as isize, z as isize);
        if self.get_block(chunks, xi, yi, zi) == Block::Solid {
            let up = self.get_block(chunks, xi, yi + 1, zi) == Block::Air;
            push_face_if(out, up, FaceDirection::Up, x, y, z);
            let down = self.get_block(chunks, xi, yi - 1, zi) == Block::Air;
            push_face_if(out, down, FaceDirection::Down, x, y, z);
            let front = self.get_block(chunks, xi + 1, yi, zi) == Block::Air;
            push_face_if(out, front, FaceDirection::Front, x, y, z);
            let back = self.get_block(chunks, xi - 1, yi, zi) == Block::Air;
            push_face_if(out, back, FaceDirection::Back, x, y, z);
            let left = self.get_block(chunks, xi, yi, zi + 1) == Block::Air;
            push_face_if(out, left, FaceDirection::Left, x, y, z);
            let right = self.get_block(chunks, xi, yi, zi - 1) == Block::Air;
            push_face_if(out, right, FaceDirection::Right, x, y, z);
            assert(out@ =~= start + self.voxel_faces(*chunks, x as int, y as int, z as int));
        } else {
            assert(out@ =~= start + self.voxel_faces(*chunks, x as int, y as int, z as int));
        }
    }

    /// The face list of this chunk against the neighbors in `chunks`.
    pub fn build_faces(&self, chunks: &ChunkCache) -> (r: Vec<InstanceData>)
        requires
            self.wf(),
            chunks.wf(),
        ensures
            r@ == self.mesh_faces(*chunks),
    {
        let mut out: Vec<InstanceData> = Vec::new();
        let mut v: usize = 0;
        while v < CHUNK_VOLUME
            invariant
                self.wf(),
                chunks.wf(),
                v <= CHUNK_VOLUME,
                out@ == self.faces_upto(*chunks, v as int),
            decreases CHUNK_VOLUME - v,
        {
            let x = v / 256;
            let y = (v / 16) % 16;
            let z = v % 16;
            self.push_voxel_faces(chunks, x, y, z, &mut out);
            v += 1;
        }
        out
    }

    /// Builds the face list unless one exists; returns whether it built.
    pub fn generate_mesh(&mut self, chunks: &ChunkCache) -> (r: bool)
        requires
            old(self).wf(),
            chunks.wf(),
        ensures
            generated(*old(self), *final(self), *chunks, r),
    {
        if self.mesh.is_some() {
            return false;
        }
        let faces = self.build_faces(chunks);
        self.mesh = Some(faces);
        true
    }

    /// Drops the mesh so that the next build recomputes it.
    pub fn invalidate_mesh(&mut self)
        ensures
            final(self).mesh is None,
            final(self).chunk_x == old(self).chunk_x,
            final(self).chunk_y == old(self).chunk_y,
            final(self).chunk_z == old(self).chunk_z,
            final(self).blocks@ == old(self).blocks@,
    {
        self.mesh = None;
    }
}

/// An element found in neither part is not in the concatenation.
proof fn lemma_concat_lacks(a: Seq<InstanceData>, b: Seq<InstanceData>, e: InstanceData)
    requires
        !a.contains(e),
        !b.contains(e),
    ensures
        !(a + b).contains(e),
{
    if (a + b).contains(e) {
        let i = choose|i: int| 0 <= i < (a + b).len() && (a + b)[i] == e;
        if i < a.len() {
            assert(a[i] == e);
        } else {
            assert(b[i - a.len()] == e);
        }
    }
}

/// An element of a concatenation is in one of its parts.
proof fn lemma_concat_has(a: Seq<InstanceData>, b: Seq<InstanceData>, e: InstanceData)
    ensures
        (a + b).contains(e) <==> (a.contains(e) || b.contains(e)),
{
    if !a.contains(e) && !b.contains(e) {
        lemma_concat_lacks(a, b, e);
    }
    if a.contains(e) {
        let i = choose|i: int| 0 <= i < a.len() && a[i] == e;
        assert((a + b)[i] == e);
    }
    if b.contains(e) {
        let i = choose|i: int| 0 <= i < b.len() && b[i] == e;
        assert((a + b)[a.len() + i] == e);
    }
}

/// Every face of voxel `(x, y, z)` records that voxel's coordinates.
proof fn lemma_voxel_faces_coords(ch: Chunk, k: ChunkCache, x: int, y: int, z: int, e: InstanceData)
    requires
        0 <= x < CHUNK_SIZE,
        0 <= y < CHUNK_SIZE,
        0 <= z < CHUNK_SIZE,
        ch.voxel_faces(k, x, y, z).contains(e),
    ensures
        field_x(e.data) == x,
        field_y(e.data) == y,
        field_z(e.data) == z,
{
    let up = face_if(ch.block_at(k, x, y + 1, z) == Block::Air, FaceDirection::Up, x, y, z);
    let down = face_if(ch.block_at(k, x, y - 1, z) == Block::Air, FaceDirection::Down, x, y, z);
    let front = face_if(ch.block_at(k, x + 1, y, z) == Block::Air, FaceDirection::Front, x, y, z);
    let back = face_if(ch.block_at(k, x - 1, y, z) == Block::Air, FaceDirection::Back, x, y, z);
    let left = face_if(ch.block_at(k, x, y, z + 1) == Block::Air, FaceDirection::Left, x, y, z);
    let right = face_if(ch.block_at(k, x, y, z - 1) == Block::Air, FaceDirection::Right, x, y, z);
    lemma_concat_has(up, down, e);
    lemma_concat_has(up + down, front, e);
    lemma_concat_has(up + down + front, back, e);
    lemma_concat_has(up + down + front + back, left, e);
    lemma_concat_has(up + down + front + back + left, right, e);
    let d = if up.contains(e) {
        FaceDirection::Up
    } else if down.contains(e) {
        FaceDirection::Down
    } else if front.contains(e) {
        FaceDirection::Front
    } else if back.contains(e) {
        FaceDirection::Back
    } else if left.contains(e) {
        FaceDirection::Left
    } else {
        FaceDirection::Right
    };
    assert(e.data == pack_face(d, x as u32, y as u32, z as u32));
    lemma_pack_fields(direction_code(d), x as u32, y as u32, z as u32);
}

/// A face is in the faces of the first `n` voxels exactly when it is in the
/// faces of one of them.
proof fn lemma_faces_upto_has(ch: Chunk, k: ChunkCache, n: int, e: InstanceData)
    ensures
        ch.faces_upto(k, n).contains(e) <==> exists|v: int|
            0 <= v < n && #[trigger] ch.voxel_faces(k, voxel_x(v), voxel_y(v), voxel_z(v)).contains(e),
    decreases n,
{
    if n > 0 {
        lemma_faces_upto_has(ch, k, n - 1, e);
        let last = ch.voxel_faces(k, voxel_x(n - 1), voxel_y(n - 1), voxel_z(n - 1));
        lemma_concat_has(ch.faces_upto(k, n - 1), last, e);
        if exists|v: int| 0 <= v < n && #[trigger] ch.voxel_faces(k, voxel_x(v), voxel_y(v), voxel_z(v)).contains(e) {
            let v = choose|v: int| 0 <= v < n && #[trigger] ch.voxel_faces(k, voxel_x(v), voxel_y(v), voxel_z(v)).contains(e);
            if v < n - 1 {
                assert(ch.faces_upto(k, n - 1).contains(e));
            }
        }
    }
}

/// Whether the face list holds the front face of voxel `(15, y, z)`.
pub open spec fn has_front_face(faces: Seq<InstanceData>, y: int, z: int) -> bool {
    faces.contains(InstanceData { data: pack_face(FaceDirection::Front, 15, y as u32, z as u32) })
}

/// Neighbor substitution, over whole face lists: a chunk's face list holds
/// the front face of a Solid voxel on its `+x` face while no chunk is
/// resident next to it; after a chunk whose touching voxel is Solid arrives
/// there, the chunk's mesh is dropped and the face list rebuilt against the
/// new cache no longer holds that face.
pub proof fn lemma_rebuilt_mesh_drops_boundary_face(
    ch: Chunk,
    k0: ChunkCache,
    k1: ChunkCache,
    n: Chunk,
    y: int,
    z: int,
)
    requires
        ch.wf(),
        k0.wf(),
        0 <= y < CHUNK_SIZE,
        0 <= z < CHUNK_SIZE,
        ch.chunk_x < i32::MAX,
        n.coord() == ((ch.chunk_x + 1) as i32, ch.chunk_y, ch.chunk_z),
        k0.resident(n.coord()) is None,
        k0.resident(ch.coord()) == Some(ch),
        ch.block(CHUNK_SIZE - 1, y, z) == Block::Solid,
        n.block(0, y, z) == Block::Solid,
        received(k0, k1, n),
    ensures
        has_front_face(ch.mesh_faces(k0), y, z),
        k1.resident(ch.coord()) is Some,
        k1.resident(ch.coord()).unwrap().mesh is None,
        !has_front_face(k1.resident(ch.coord()).unwrap().mesh_faces(k1), y, z),
{
    lemma_boundary_face_removed(ch, k0, k1, n, y, z);
    let face = InstanceData { data: pack_face(FaceDirection::Front, 15, y as u32, z as u32) };
    let v0 = 15 * 256 + y * 16 + z;
    assert(voxel_x(v0) == 15 && voxel_y(v0) == y && voxel_z(v0) == z);
    lemma_faces_upto_has(ch, k0, CHUNK_VOLUME as int, face);
    assert(ch.voxel_faces(k0, voxel_x(v0), voxel_y(v0), voxel_z(v0)).contains(face));
    let ch1 = k1.resident(ch.coord()).unwrap();
    assert(ch1 == Chunk { mesh: None, ..ch });
    assert forall|x2: int, y2: int, z2: int| #[trigger] ch1.block_at(k1, x2, y2, z2) == ch.block_at(k1, x2, y2, z2) by {
        reveal(Chunk::block_at);
    }
    assert forall|v: int| 0 <= v < CHUNK_VOLUME implies !#[trigger] ch1.voxel_faces(k1, voxel_x(v), voxel_y(v), voxel_z(v)).contains(face) by {
        assert(ch1.voxel_faces(k1, voxel_x(v), voxel_y(v), voxel_z(v)) == ch.voxel_faces(k1, voxel_x(v), voxel_y(v), voxel_z(v)));
        if ch.voxel_faces(k1, voxel_x(v), voxel_y(v), voxel_z(v)).contains(face) {
            lemma_voxel_faces_coords(ch, k1, voxel_x(v), voxel_y(v), voxel_z(v), face);
            lemma_pack_fields(direction_code(FaceDirection::Front), 15, y as u32, z as u32);
            assert(v == v0) by (nonlinear_arith)
                requires
                    0 <= v < 4096,
                    v / 256 == 15,
                    (v / 16) % 16 == y,
                    v % 16 == z,
                    v0 == 15 * 256 + y * 16 + z,
            ;
        }
    }
    lemma_faces_upto_has(ch1, k1, CHUNK_VOLUME as int, face);
}

/// The block read through a position depends only on the voxels of the
/// chunk and of the resident chunks, not on meshes or pending slots.
pub proof fn lemma_block_at_same_voxels(ch: Chunk, a: ChunkCache, b: ChunkCache, x: int, y: int, z: int)
    requires
        same_voxels(a, b),
    ensures
        ch.block_at(a, x, y, z) == ch.block_at(b, x, y, z),
{
    reveal(Chunk::block_at);
}

/// The face list depends only on the voxels, not on meshes or pending slots.
pub proof fn lemma_faces_same_voxels(ch: Chunk, a: ChunkCache, b: ChunkCache, n: int)
    requires
        same_voxels(a, b),
    ensures
        ch.faces_upto(a, n) == ch.faces_upto(b, n),
    decreases n,
{
    if n > 0 {
        lemma_faces_same_voxels(ch, a, b, n - 1);
        let (x, y, z) = (voxel_x(n - 1), voxel_y(n - 1), voxel_z(n - 1));
        lemma_block_at_same_voxels(ch, a, b, x, y, z);
        lemma_block_at_same_voxels(ch, a, b, x, y + 1, z);
        lemma_block_at_same_voxels(ch, a, b, x, y - 1, z);
        lemma_block_at_same_voxels(ch, a, b, x + 1, y, z);
        lemma_block_at_same_voxels(ch, a, b, x - 1, y, z);
        lemma_block_at_same_voxels(ch, a, b, x, y, z + 1);
        lemma_block_at_same_voxels(ch, a, b, x, y, z - 1);
    }
}

/// Building is idempotent: a second build without an invalidation in
/// between builds nothing and leaves the face list as the first left it.
pub proof fn lemma_generate_idempotent(
    c0: Chunk,
    c1: Chunk,
    c2: Chunk,
    k1: ChunkCache,
    k2: ChunkCache,
    r1: bool,
    r2: bool,
)
    requires
        generated(c0, c1, k1, r1),
        generated(c1, c2, k2, r2),
    ensures
        !r2,
        c1.mesh is Some,
        c2.mesh_view() == c1.mesh_view(),
{
}

/// Face culling at one voxel: a Solid voxel with Air on all six sides shows
/// six faces; one with Solid on exactly one side shows five, none toward
/// that side.
pub proof fn lemma_voxel_face_count(ch: Chunk, k: ChunkCache, x: int, y: int, z: int)
    requires
        ch.block_at(k, x, y, z) == Block::Solid,
    ensures
        (ch.block_at(k, x, y + 1, z) == Block::Air && ch.block_at(k, x, y - 1, z) == Block::Air
            && ch.block_at(k, x + 1, y, z) == Block::Air && ch.block_at(k, x - 1, y, z) == Block::Air
            && ch.block_at(k, x, y, z + 1) == Block::Air && ch.block_at(k, x, y, z - 1) == Block::Air)
            ==> ch.voxel_faces(k, x, y, z).len() == 6,
        (ch.block_at(k, x + 1, y, z) == Block::Solid && ch.block_at(k, x, y + 1, z) == Block::Air
            && ch.block_at(k, x, y - 1, z) == Block::Air && ch.block_at(k, x - 1, y, z) == Block::Air
            && ch.block_at(k, x, y, z + 1) == Block::Air && ch.block_at(k, x, y, z - 1) == Block::Air)
            ==> ch.voxel_faces(k, x, y, z).len() == 5,
{
}

/// Across the `+x` face, a position reads Air while no chunk is resident
/// next to it there.
pub proof fn lemma_absent_neighbor_is_air(ch: Chunk, k: ChunkCache, y: int, z: int)
    requires
        0 <= y < CHUNK_SIZE,
        0 <= z < CHUNK_SIZE,
        ch.chunk_x < i32::MAX,
        k.resident(((ch.chunk_x + 1) as i32, ch.chunk_y, ch.chunk_z)) is None,
    ensures
        ch.block_at(k, CHUNK_SIZE as int, y, z) == Block::Air,
{
    reveal(Chunk::block_at);
}

/// Neighbor substitution: a Solid voxel on the `+x` face shows a front face
/// while no chunk is resident next to it; once a chunk whose touching voxel
/// is Solid arrives there, this chunk's mesh is dropped, and the rebuilt
/// voxel shows no front face.
pub proof fn lemma_boundary_face_removed(
    ch: Chunk,
    k0: ChunkCache,
    k1: ChunkCache,
    n: Chunk,
    y: int,
    z: int,
)
    requires
        ch.wf(),
        k0.wf(),
        0 <= y < CHUNK_SIZE,
        0 <= z < CHUNK_SIZE,
        ch.chunk_x < i32::MAX,
        n.coord() == ((ch.chunk_x + 1) as i32, ch.chunk_y, ch.chunk_z),
        k0.resident(n.coord()) is None,
        k0.resident(ch.coord()) == Some(ch),
        ch.block(CHUNK_SIZE - 1, y, z) == Block::Solid,
        n.block(0, y, z) == Block::Solid,
        received(k0, k1, n),
    ensures
        ch.voxel_faces(k0, CHUNK_SIZE - 1, y, z).contains(
            InstanceData { data: pack_face(FaceDirection::Front, 15, y as u32, z as u32) },
        ),
        !ch.voxel_faces(k1, CHUNK_SIZE - 1, y, z).contains(
            InstanceData { data: pack_face(FaceDirection::Front, 15, y as u32, z as u32) },
        ),
        k1.resident(ch.coord()) is Some,
        k1.resident(ch.coord()).unwrap().mesh is None,
        k1.resident(ch.coord()).unwrap().blocks == ch.blocks,
{
    reveal(Chunk::block_at);
    let face = InstanceData { data: pack_face(FaceDirection::Front, 15, y as u32, z as u32) };
    assert(k1.lookup(n.coord()) == Some(ChunkWaiter::Chunk(n)));
    assert(k1.lookup(ch.coord()) == k1.lookup(ch.coord()));
    assert(is_neighbor(ch.coord(), n.coord()));
    let x = CHUNK_SIZE - 1;
    assert(ch.block_at(k0, x, y, z) == Block::Solid);
    assert(ch.block_at(k0, x + 1, y, z) == Block::Air);
    assert(ch.block_at(k1, x + 1, y, z) == Block::Solid);
    let y32 = y as u32;
    let z32 = z as u32;
    lemma_pack_face_injective(FaceDirection::Up, 15, y32, z32, FaceDirection::Front, 15, y32, z32);
    lemma_pack_face_injective(FaceDirection::Down, 15, y32, z32, FaceDirection::Front, 15, y32, z32);
    lemma_pack_face_injective(FaceDirection::Back, 15, y32, z32, FaceDirection::Front, 15, y32, z32);
    lemma_pack_face_injective(FaceDirection::Left, 15, y32, z32, FaceDirection::Front, 15, y32, z32);
    lemma_pack_face_injective(FaceDirection::Right, 15, y32, z32, FaceDirection::Front, 15, y32, z32);
    let up1 = face_if(ch.block_at(k1, x, y + 1, z) == Block::Air, FaceDirection::Up, x, y, z);
    let down1 = face_if(ch.block_at(k1, x, y - 1, z) == Block::Air, FaceDirection::Down, x, y, z);
    let front1 = face_if(ch.block_at(k1, x + 1, y, z) == Block::Air, FaceDirection::Front, x, y, z);
    let back1 = face_if(ch.block_at(k1, x - 1, y, z) == Block::Air, FaceDirection::Back, x, y, z);
    let left1 = face_if(ch.block_at(k1, x, y, z + 1) == Block::Air, FaceDirection::Left, x, y, z);
    let right1 = face_if(ch.block_at(k1, x, y, z - 1) == Block::Air, FaceDirection::Right, x, y, z);
    assert(!up1.contains(face) && !down1.contains(face) && !front1.contains(face)
        && !back1.contains(face) && !left1.contains(face) && !right1.contains(face));
    if ch.block_at(k1, x, y, z) == Block::Solid {
        lemma_concat_lacks(up1, down1, face);
        lemma_concat_lacks(up1 + down1, front1, face);
        lemma_concat_lacks(up1 + down1 + front1, back1, face);
        lemma_concat_lacks(up1 + down1 + front1 + back1, left1, face);
        lemma_concat_lacks(up1 + down1 + front1 + back1 + left1, right1, face);
    }
    let up0 = face_if(ch.block_at(k0, x, y + 1, z) == Block::Air, FaceDirection::Up, x, y, z);
    let down0 = face_if(ch.block_at(k0, x, y - 1, z) == Block::Air, FaceDirection::Down, x, y, z);
    let s0 = ch.voxel_faces(k0, x, y, z);
    assert(s0[(up0.len() + down0.len()) as int] == face);
}

/// Appends the face along `d` of voxel `(x, y, z)` to `out` when `visible`.
fn push_face_if(
    out: &mut Vec<InstanceData>,
    visible: bool,
    d: FaceDirection,
    x: usize,
    y: usize,
    z: usize,
)
    requires
        x < CHUNK_SIZE,
        y < CHUNK_SIZE,
        z < CHUNK_SIZE,
    ensures
        final(out)@ == old(out)@ + face_if(visible, d, x as int, y as int, z as int),
{
    if visible {
        out.push(InstanceData::new(d, x as u32, y as u32, z as u32));
    }
    assert(final(out)@ =~= old(out)@ + face_if(visible, d, x as int, y as int, z as int));
}

/// The block at `(x, y, z)` of the chunk resident under `c`, Air if none is.
fn resident_block_of(cache: &ChunkCache, c: ChunkCoord, x: usize, y: usize, z: usize) -> (r: Block)
    requires
        cache.wf(),
        x < CHUNK_SIZE,
        y < CHUNK_SIZE,
        z < CHUNK_SIZE,
    ensures
        r == match cache.resident(c) {
            Some(n) => n.block(x as int, y as int, z as int),
            None => Block::Air,
        },
{
    match cache.find(c) {
        Some(i) => match &cache.slots[i].state {
            ChunkWaiter::Chunk(n) => {
                proof {
                    cache.lemma_resident_wf(c);
                }
                n.blocks[block_index(x, y, z)]
            },
            ChunkWaiter::Timestamp(_) => Block::Air,
        },
        None => Block::Air,
    }
}

impl ChunkWaiter {
    /// The resident chunk, if the slot holds one.
    pub fn chunk(&self) -> (r: Option<&Chunk>)
        ensures
            r == match self {
                ChunkWaiter::Chunk(c) => Some(c),
                ChunkWaiter::Timestamp(_) => None::<&Chunk>,
            },
    {
        match self {
            ChunkWaiter::Timestamp(_) => None,
            ChunkWaiter::Chunk(chunk) => Some(chunk),
        }
    }

    /// The time of the last request, if the slot is still pending.
    pub fn timestamp(&self) -> (r: Option<u128>)
        ensures
            r == match self {
                ChunkWaiter::Timestamp(ts) => Some(*ts),
                ChunkWaiter::Chunk(_) => None::<u128>,
            },
    {
        match self {
            ChunkWaiter::Timestamp(ts) => Some(*ts),
            ChunkWaiter::Chunk(_) => None,
        }
    }
}

} // verus!

verus! {

/// Whether `e` is a front face on the `+x` face of a chunk whose
/// face-adjacent chunk there, `n`, is not Air at the touching voxel.
pub open spec fn covered_by(n: Chunk, e: InstanceData) -> bool {
    &&& field_dir(e.data) == direction_code(FaceDirection::Front)
    &&& field_x(e.data) == 15
    &&& n.block(0, field_y(e.data) as int, field_z(e.data) as int) != Block::Air
}

/// Keeps the faces that `n` does not cover.
pub open spec fn uncovered(n: Chunk) -> spec_fn(InstanceData) -> bool {
    |e: InstanceData| !covered_by(n, e)
}

proof fn lemma_filter_face_if(b: bool, d: FaceDirection, x: int, y: int, z: int, p: spec_fn(InstanceData) -> bool)
    ensures
        face_if(b, d, x, y, z).filter(p) == face_if(
            b && p(InstanceData { data: pack_face(d, x as u32, y as u32, z as u32) }),
            d,
            x,
            y,
            z,
        ),
{
    let e = InstanceData { data: pack_face(d, x as u32, y as u32, z as u32) };
    Seq::<InstanceData>::empty().lemma_filter_push(e, p);
    assert(Seq::<InstanceData>::empty().push(e) =~= seq![e]);
    reveal_with_fuel(Seq::filter, 1);
    assert(Seq::<InstanceData>::empty().filter(p) =~= Seq::<InstanceData>::empty());
}

/// Chunks with the same coordinate and voxels have the same face lists,
/// whatever their meshes.
proof fn lemma_faces_ignore_mesh(a: Chunk, b: Chunk, k: ChunkCache, m: int)
    requires
        a.coord() == b.coord(),
        a.blocks == b.blocks,
    ensures
        a.faces_upto(k, m) == b.faces_upto(k, m),
    decreases m,
{
    reveal(Chunk::block_at);
    if m > 0 {
        lemma_faces_ignore_mesh(a, b, k, m - 1);
    }
}

/// After `n` arrives next to `ch` across its `+x` face, where nothing was
/// resident, positions of `ch` short of that face read as before, and those
/// past it read `n`'s touching voxels instead of Air.
proof fn lemma_arrival_reads(ch: Chunk, k0: ChunkCache, k1: ChunkCache, n: Chunk, x: int, y: int, z: int)
    requires
        ch.chunk_x < i32::MAX,
        n.coord() == ((ch.chunk_x + 1) as i32, ch.chunk_y, ch.chunk_z),
        k0.resident(n.coord()) is None,
        received(k0, k1, n),
        probe_in_range(x, y, z),
    ensures
        x < CHUNK_SIZE ==> ch.block_at(k1, x, y, z) == ch.block_at(k0, x, y, z),
        x == CHUNK_SIZE ==> ch.block_at(k0, x, y, z) == Block::Air && ch.block_at(k1, x, y, z)
            == n.block(0, y, z),
{
    reveal(Chunk::block_at);
    assert forall|c: ChunkCoord| c != n.coord() implies (#[trigger] k1.resident(c) is Some) == (k0.resident(c) is Some)
        && (k1.resident(c) is Some ==> k1.resident(c).unwrap().blocks == k0.resident(c).unwrap().blocks) by {
        assert(k1.lookup(c) == k1.lookup(c));
    }
    assert(k1.lookup(n.coord()) == k1.lookup(n.coord()));
}

/// The faces of one voxel after the arrival are those before it, less the
/// ones the new chunk covers.
proof fn lemma_arrival_voxel_faces(ch: Chunk, k0: ChunkCache, k1: ChunkCache, n: Chunk, x: int, y: int, z: int)
    requires
        ch.chunk_x < i32::MAX,
        n.coord() == ((ch.chunk_x + 1) as i32, ch.chunk_y, ch.chunk_z),
        k0.resident(n.coord()) is None,
        received(k0, k1, n),
        0 <= x < CHUNK_SIZE,
        0 <= y < CHUNK_SIZE,
        0 <= z < CHUNK_SIZE,
    ensures
        ch.voxel_faces(k1, x, y, z) == ch.voxel_faces(k0, x, y, z).filter(uncovered(n)),
{
    let p = uncovered(n);
    lemma_arrival_reads(ch, k0, k1, n, x, y, z);
    lemma_arrival_reads(ch, k0, k1, n, x, y + 1, z);
    lemma_arrival_reads(ch, k0, k1, n, x, y - 1, z);
    lemma_arrival_reads(ch, k0, k1, n, x + 1, y, z);
    lemma_arrival_reads(ch, k0, k1, n, x - 1, y, z);
    lemma_arrival_reads(ch, k0, k1, n, x, y, z + 1);
    lemma_arrival_reads(ch, k0, k1, n, x, y, z - 1);
    let (xu, yu, zu) = (x as u32, y as u32, z as u32);
    lemma_pack_fields(direction_code(FaceDirection::Up), xu, yu, zu);
    lemma_pack_fields(direction_code(FaceDirection::Down), xu, yu, zu);
    lemma_pack_fields(direction_code(FaceDirection::Front), xu, yu, zu);
    lemma_pack_fields(direction_code(FaceDirection::Back), xu, yu, zu);
    lemma_pack_fields(direction_code(FaceDirection::Left), xu, yu, zu);
    lemma_pack_fields(direction_code(FaceDirection::Right), xu, yu, zu);
    let a0 = face_if(ch.block_at(k0, x, y + 1, z) == Block::Air, FaceDirection::Up, x, y, z);
    let a1 = face_if(ch.block_at(k0, x, y - 1, z) == Block::Air, FaceDirection::Down, x, y, z);
    let a2 = face_if(ch.block_at(k0, x + 1, y, z) == Block::Air, FaceDirection::Front, x, y, z);
    let a3 = face_if(ch.block_at(k0, x - 1, y, z) == Block::Air, FaceDirection::Back, x, y, z);
    let a4 = face_if(ch.block_at(k0, x, y, z + 1) == Block::Air, FaceDirection::Left, x, y, z);
    let a5 = face_if(ch.block_at(k0, x, y, z - 1) == Block::Air, FaceDirection::Right, x, y, z);
    lemma_filter_face_if(ch.block_at(k0, x, y + 1, z) == Block::Air, FaceDirection::Up, x, y, z, p);
    lemma_filter_face_if(ch.block_at(k0, x, y - 1, z) == Block::Air, FaceDirection::Down, x, y, z, p);
    lemma_filter_face_if(ch.block_at(k0, x + 1, y, z) == Block::Air, FaceDirection::Front, x, y, z, p);
    lemma_filter_face_if(ch.block_at(k0, x - 1, y, z) == Block::Air, FaceDirection::Back, x, y, z, p);
    lemma_filter_face_if(ch.block_at(k0, x, y, z + 1) == Block::Air, FaceDirection::Left, x, y, z, p);
    lemma_filter_face_if(ch.block_at(k0, x, y, z - 1) == Block::Air, FaceDirection::Right, x, y, z, p);
    Seq::filter_distributes_over_add(a0, a1, p);
    Seq::filter_distributes_over_add(a0 + a1, a2, p);
    Seq::filter_distributes_over_add(a0 + a1 + a2, a3, p);
    Seq::filter_distributes_over_add(a0 + a1 + a2 + a3, a4, p);
    Seq::filter_distributes_over_add(a0 + a1 + a2 + a3 + a4, a5, p);
    reveal_with_fuel(Seq::filter, 1);
    assert(Seq::<InstanceData>::empty().filter(p) =~= Seq::<InstanceData>::empty());
}

/// The faces of the first `m` voxels after the arrival are those before it,
/// in the same order, less the ones the new chunk covers.
proof fn lemma_arrival_faces_upto(ch: Chunk, k0: ChunkCache, k1: ChunkCache, n: Chunk, m: int)
    requires
        ch.chunk_x < i32::MAX,
        n.coord() == ((ch.chunk_x + 1) as i32, ch.chunk_y, ch.chunk_z),
        k0.resident(n.coord()) is None,
        received(k0, k1, n),
        m <= CHUNK_VOLUME,
    ensures
        ch.faces_upto(k1, m) == ch.faces_upto(k0, m).filter(uncovered(n)),
    decreases m,
{
    if m <= 0 {
        reveal_with_fuel(Seq::filter, 1);
        assert(Seq::<InstanceData>::empty().filter(uncovered(n)) =~= Seq::<InstanceData>::empty());
    } else {
        lemma_arrival_faces_upto(ch, k0, k1, n, m - 1);
        let v = m - 1;
        assert(0 <= voxel_x(v) < 16 && 0 <= voxel_y(v) < 16 && 0 <= voxel_z(v) < 16);
        lemma_arrival_voxel_faces(ch, k0, k1, n, voxel_x(v), voxel_y(v), voxel_z(v));
        Seq::filter_distributes_over_add(
            ch.faces_upto(k0, m - 1),
            ch.voxel_faces(k0, voxel_x(v), voxel_y(v), voxel_z(v)),
            uncovered(n),
        );
    }
}

/// Neighbor substitution, whole list: after a chunk `n` arrives next to
/// `ch` across its `+x` face, where nothing was resident, `ch` loses its
/// mesh, and its face list rebuilt against the new cache is the one built
/// before, in the same order, less exactly the front faces on that face
/// whose touching voxel in `n` is not Air.
pub proof fn lemma_rebuilt_mesh_after_arrival(ch: Chunk, k0: ChunkCache, k1: ChunkCache, n: Chunk)
    requires
        k0.wf(),
        ch.chunk_x < i32::MAX,
        n.coord() == ((ch.chunk_x + 1) as i32, ch.chunk_y, ch.chunk_z),
        k0.resident(n.coord()) is None,
        k0.resident(ch.coord()) == Some(ch),
        received(k0, k1, n),
    ensures
        k1.resident(ch.coord()) is Some,
        k1.resident(ch.coord()).unwrap().mesh is None,
        k1.resident(ch.coord()).unwrap().mesh_faces(k1) == ch.mesh_faces(k0).filter(uncovered(n)),
{
    assert(k1.lookup(ch.coord()) == k1.lookup(ch.coord()));
    assert(is_neighbor(ch.coord(), n.coord()));
    let ch1 = k1.resident(ch.coord()).unwrap();
    lemma_faces_ignore_mesh(ch1, ch, k1, CHUNK_VOLUME as int);
    lemma_arrival_faces_upto(ch, k0, k1, n, CHUNK_VOLUME as int);
}

} // verus!
