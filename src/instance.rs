use vstd::prelude::*;

verus! {

/// The six directions a voxel face can point to.
#[derive(Clone, Copy, Debug, PartialEq, Eq, Structural)]
pub enum FaceDirection {
    Up,
    Down,
    Front,
    Back,
    Left,
    Right,
}

/// The 4-bit code a direction is stored as in a face record.
pub open spec fn direction_code(d: FaceDirection) -> u32 {
    match d {
        FaceDirection::Up => 0,
        FaceDirection::Down => 1,
        FaceDirection::Front => 2,
        FaceDirection::Back => 3,
        FaceDirection::Left => 4,
        FaceDirection::Right => 5,
    }
}

impl FaceDirection {
    /// The code of this direction.
    pub fn code(&self) -> (r: u32)
        ensures
            r == direction_code(*self),
            r < 6,
    {
        match self {
            FaceDirection::Up => 0,
            FaceDirection::Down => 1,
            FaceDirection::Front => 2,
            FaceDirection::Back => 3,
            FaceDirection::Left => 4,
            FaceDirection::Right => 5,
        }
    }
}

/// The direction bits (0..=3) of a face record.
pub open spec fn field_dir(w: u32) -> u32 {
    w & 0xf
}

/// The x bits (4..=7) of a face record.
pub open spec fn field_x(w: u32) -> u32 {
    (w & 0xf0) >> 4
}

/// The y bits (8..=11) of a face record.
pub open spec fn field_y(w: u32) -> u32 {
    (w & 0xf00) >> 8
}

/// The z bits (12..=15) of a face record.
pub open spec fn field_z(w: u32) -> u32 {
    (w & 0xf000) >> 12
}

/// The record of a face pointing along `d` from voxel `(x, y, z)`.
pub open spec fn pack_face(d: FaceDirection, x: u32, y: u32, z: u32) -> u32 {
    direction_code(d) | (x << 4u32) | (y << 8u32) | (z << 12u32)
}

/// One visible voxel face, packed into a single word for bulk upload.
#[derive(Clone, Copy, Debug)]
pub struct InstanceData {
    pub data: u32,
}

/// The fields of a packed record read back as packed.
pub proof fn lemma_pack_fields(c: u32, x: u32, y: u32, z: u32)
    requires
        c < 16,
        x < 16,
        y < 16,
        z < 16,
    ensures
        field_dir(c | (x << 4u32) | (y << 8u32) | (z << 12u32)) == c,
        field_x(c | (x << 4u32) | (y << 8u32) | (z << 12u32)) == x,
        field_y(c | (x << 4u32) | (y << 8u32) | (z << 12u32)) == y,
        field_z(c | (x << 4u32) | (y << 8u32) | (z << 12u32)) == z,
{
    assert(field_dir(c | (x << 4u32) | (y << 8u32) | (z << 12u32)) == c) by (bit_vector)
        requires
            c < 16,
            x < 16,
            y < 16,
            z < 16,
    ;
    assert(field_x(c | (x << 4u32) | (y << 8u32) | (z << 12u32)) == x) by (bit_vector)
        requires
            c < 16,
            x < 16,
            y < 16,
            z < 16,
    ;
    assert(field_y(c | (x << 4u32) | (y << 8u32) | (z << 12u32)) == y) by (bit_vector)
        requires
            c < 16,
            x < 16,
            y < 16,
            z < 16,
    ;
    assert(field_z(c | (x << 4u32) | (y << 8u32) | (z << 12u32)) == z) by (bit_vector)
        requires
            c < 16,
            x < 16,
            y < 16,
            z < 16,
    ;
}

/// Two face records are equal exactly when their four fields are.
pub proof fn lemma_pack_face_injective(
    d1: FaceDirection,
    x1: u32,
    y1: u32,
    z1: u32,
    d2: FaceDirection,
    x2: u32,
    y2: u32,
    z2: u32,
)
    requires
        x1 < 16,
        y1 < 16,
        z1 < 16,
        x2 < 16,
        y2 < 16,
        z2 < 16,
    ensures
        pack_face(d1, x1, y1, z1) == pack_face(d2, x2, y2, z2) <==> (d1 == d2 && x1 == x2 && y1
            == y2 && z1 == z2),
{
    lemma_pack_fields(direction_code(d1), x1, y1, z1);
    lemma_pack_fields(direction_code(d2), x2, y2, z2);
}

impl InstanceData {
    /// The record of the face pointing along `dir` from voxel `(x, y, z)`.
    pub fn new(dir: FaceDirection, x: u32, y: u32, z: u32) -> (r: InstanceData)
        requires
            x < 16,
            y < 16,
            z < 16,
        ensures
            r.data == pack_face(dir, x, y, z),
            field_dir(r.data) == direction_code(dir),
            field_x(r.data) == x,
            field_y(r.data) == y,
            field_z(r.data) == z,
    {
        let mut data = InstanceData { data: 0 };
        data.set_direction(dir);
        data.set_x(x);
        data.set_y(y);
        data.set_z(z);
        let c = dir.code();
        assert((((((0u32 & !0xfu32) | c) & !0xf0u32) | (x << 4u32)) & !0xf00u32 | (y << 8u32))
            & !0xf000u32 | (z << 12u32) == c | (x << 4u32) | (y << 8u32) | (z << 12u32))
            by (bit_vector)
            requires
                c < 6,
                x < 16,
                y < 16,
                z < 16,
        ;
        proof {
            lemma_pack_fields(c, x, y, z);
        }
        data
    }

    /// The direction stored in this record.
    pub fn _direction(&self) -> (r: FaceDirection)
        requires
            field_dir(self.data) < 6,
        ensures
            direction_code(r) == field_dir(self.data),
    {
        let c = self.data & 0xf;
        if c == 0 {
            FaceDirection::Up
        } else if c == 1 {
            FaceDirection::Down
        } else if c == 2 {
            FaceDirection::Front
        } else if c == 3 {
            FaceDirection::Back
        } else if c == 4 {
            FaceDirection::Left
        } else {
            FaceDirection::Right
        }
    }

    /// Stores `dir`, keeping the coordinates.
    pub fn set_direction(&mut self, dir: FaceDirection)
        ensures
            final(self).data == (old(self).data & !0xfu32) | direction_code(dir),
            field_dir(final(self).data) == direction_code(dir),
            field_x(final(self).data) == field_x(old(self).data),
            field_y(final(self).data) == field_y(old(self).data),
            field_z(final(self).data) == field_z(old(self).data),
    {
        let old_data = self.data;
        let c = dir.code();
        self.data = (self.data & !0xfu32) | c;
        assert(field_dir((old_data & !0xfu32) | c) == c && field_x((old_data & !0xfu32) | c)
            == field_x(old_data) && field_y((old_data & !0xfu32) | c) == field_y(old_data)
            && field_z((old_data & !0xfu32) | c) == field_z(old_data)) by (bit_vector)
            requires
                c < 6,
        ;
    }

    /// The x coordinate stored in this record.
    pub fn _x(&self) -> (r: u32)
        ensures
            r == field_x(self.data),
    {
        (self.data & 0x00f0) >> 4
    }

    /// Stores `x`, keeping the other fields.
    pub fn set_x(&mut self, x: u32)
        requires
            x < 16,
        ensures
            final(self).data == (old(self).data & !0xf0u32) | (x << 4u32),
            field_x(final(self).data) == x,
            field_dir(final(self).data) == field_dir(old(self).data),
            field_y(final(self).data) == field_y(old(self).data),
            field_z(final(self).data) == field_z(old(self).data),
    {
        let old_data = self.data;
        self.data = (self.data & !0xf0u32) | (x << 4u32);
        let w = self.data;
        assert(w == (old_data & !0xf0u32) | (x << 4u32) ==> field_x(w) == x && field_dir(w)
            == field_dir(old_data) && field_y(w) == field_y(old_data) && field_z(w) == field_z(
            old_data,
        )) by (bit_vector)
            requires
                x < 16,
        ;
    }

    /// The y coordinate stored in this record.
    pub fn _y(&self) -> (r: u32)
        ensures
            r == field_y(self.data),
    {
        (self.data & 0x0f00) >> 8
    }

    /// Stores `y`, keeping the other fields.
    pub fn set_y(&mut self, y: u32)
        requires
            y < 16,
        ensures
            final(self).data == (old(self).data & !0xf00u32) | (y << 8u32),
            field_y(final(self).data) == y,
            field_dir(final(self).data) == field_dir(old(self).data),
            field_x(final(self).data) == field_x(old(self).data),
            field_z(final(self).data) == field_z(old(self).data),
    {
        let old_data = self.data;
        self.data = (self.data & !0xf00u32) | (y << 8u32);
        let w = self.data;
        assert(w == (old_data & !0xf00u32) | (y << 8u32) ==> field_y(w) == y && field_dir(w)
            == field_dir(old_data) && field_x(w) == field_x(old_data) && field_z(w) == field_z(
            old_data,
        )) by (bit_vector)
            requires
                y < 16,
        ;
    }

    /// The z coordinate stored in this record.
    pub fn _z(&self) -> (r: u32)
        ensures
            r == field_z(self.data),
    {
        (self.data & 0xf000) >> 12
    }

    /// Stores `z`, keeping the other fields.
    pub fn set_z(&mut self, z: u32)
        requires
            z < 16,
        ensures
            final(self).data == (old(self).data & !0xf000u32) | (z << 12u32),
            field_z(final(self).data) == z,
            field_dir(final(self).data) == field_dir(old(self).data),
            field_x(final(self).data) == field_x(old(self).data),
            field_y(final(self).data) == field_y(old(self).data),
    {
        let old_data = self.data;
        self.data = (self.data & !0xf000u32) | (z << 12u32);
        let w = self.data;
        assert(w == (old_data & !0xf000u32) | (z << 12u32) ==> field_z(w) == z && field_dir(w)
            == field_dir(old_data) && field_x(w) == field_x(old_data) && field_y(w) == field_y(
            old_data,
        )) by (bit_vector)
            requires
                z < 16,
        ;
    }
}

} // verus!
