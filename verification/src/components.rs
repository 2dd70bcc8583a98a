//! The component data that the sprite batcher consumes, together with the
//! exact GPU byte layout of each record.
//!
//! Scalar fields hold the 32-bit patterns of the values the shader reads;
//! the embedding program converts its floating-point vectors to and from
//! these patterns at the boundary. The contracts below pin the encoding
//! down to the byte: one instance record is a 48-byte transform followed
//! by a 16-byte sprite sub-rectangle, 64 bytes in all, and the camera
//! uniform is one 64-byte column-major matrix.

use vstd::prelude::*;

verus! {

/// Four 32-bit lanes, stored as raw bit patterns.
#[derive(Clone, Copy, Debug, PartialEq, Eq, Structural)]
pub struct Vec4Bits {
    pub x: u32,
    pub y: u32,
    pub z: u32,
    pub w: u32,
}

/// Two 32-bit lanes, stored as raw bit patterns.
#[derive(Clone, Copy, Debug, PartialEq, Eq, Structural)]
pub struct Vec2Bits {
    pub x: u32,
    pub y: u32,
}

/// Where a drawable stands: position, rotation and size, one 16-byte
/// vector each, matching the per-instance vertex stride.
#[derive(Clone, Copy, Debug, PartialEq, Eq, Structural)]
pub struct Transform {
    pub position: Vec4Bits,
    pub rotation: Vec4Bits,
    pub size: Vec4Bits,
}

/// The sub-rectangle of a texture atlas that one sprite samples.
#[derive(Clone, Copy, Debug, PartialEq, Eq, Structural)]
pub struct SpriteData {
    pub texture_position: Vec2Bits,
    pub texture_size: Vec2Bits,
}

/// A drawable sprite: its atlas rectangle plus the handle of the texture
/// it samples from.
#[derive(Clone, Copy, Debug, PartialEq, Eq, Structural)]
pub struct Sprite {
    pub data: SpriteData,
    pub texture: u64,
}

impl Sprite {
    /// The atlas rectangle of this sprite.
    pub fn data(&self) -> (r: &SpriteData)
        ensures
            *r == self.data,
    {
        &self.data
    }
}

/// A 4x4 matrix as four column vectors of bit patterns.
#[derive(Clone, Copy, Debug, PartialEq, Eq, Structural)]
pub struct Mat4Bits {
    pub x: Vec4Bits,
    pub y: Vec4Bits,
    pub z: Vec4Bits,
    pub w: Vec4Bits,
}

/// The per-frame camera uniform: the combined projection-times-view
/// matrix, uploaded once per frame.
#[derive(Clone, Copy, Debug, PartialEq, Eq, Structural)]
pub struct CameraData {
    pub projection: Mat4Bits,
}

/// The little-endian bytes of one 32-bit lane.
pub open spec fn u32_le(v: u32) -> Seq<u8> {
    seq![
        (v & 0xff) as u8,
        ((v >> 8) & 0xff) as u8,
        ((v >> 16) & 0xff) as u8,
        ((v >> 24) & 0xff) as u8,
    ]
}

/// The 16 bytes of a four-lane vector.
pub open spec fn vec4_le(v: Vec4Bits) -> Seq<u8> {
    u32_le(v.x) + u32_le(v.y) + u32_le(v.z) + u32_le(v.w)
}

/// The 8 bytes of a two-lane vector.
pub open spec fn vec2_le(v: Vec2Bits) -> Seq<u8> {
    u32_le(v.x) + u32_le(v.y)
}

/// The 48 transform bytes of one instance record.
pub open spec fn transform_bytes(t: Transform) -> Seq<u8> {
    vec4_le(t.position) + vec4_le(t.rotation) + vec4_le(t.size)
}

/// The 16 sprite bytes of one instance record.
pub open spec fn sprite_data_bytes(d: SpriteData) -> Seq<u8> {
    vec2_le(d.texture_position) + vec2_le(d.texture_size)
}

/// One full 64-byte instance record: the transform immediately followed
/// by the sprite sub-rectangle.
pub open spec fn record_bytes(t: Transform, d: SpriteData) -> Seq<u8> {
    transform_bytes(t) + sprite_data_bytes(d)
}

/// The 64 bytes of the camera uniform.
pub open spec fn camera_bytes(c: CameraData) -> Seq<u8> {
    vec4_le(c.projection.x) + vec4_le(c.projection.y) + vec4_le(c.projection.z) + vec4_le(
        c.projection.w,
    )
}

/// One instance record occupies exactly the vertex stride of 64 bytes.
pub proof fn lemma_record_bytes_len(t: Transform, d: SpriteData)
    ensures
        record_bytes(t, d).len() == 64,
        transform_bytes(t).len() == 48,
        sprite_data_bytes(d).len() == 16,
{
}

/// The camera uniform occupies exactly 64 bytes.
pub proof fn lemma_camera_bytes_len(c: CameraData)
    ensures
        camera_bytes(c).len() == 64,
{
}

fn push_u32_le(out: &mut Vec<u8>, v: u32)
    requires
        old(out)@.len() + 4 <= usize::MAX,
    ensures
        final(out)@ == old(out)@ + u32_le(v),
{
    out.push((v & 0xff) as u8);
    out.push(((v >> 8) & 0xff) as u8);
    out.push(((v >> 16) & 0xff) as u8);
    out.push(((v >> 24) & 0xff) as u8);
    proof {
        assert(final(out)@ =~= old(out)@ + u32_le(v));
    }
}

fn push_vec4_le(out: &mut Vec<u8>, v: &Vec4Bits)
    requires
        old(out)@.len() + 16 <= usize::MAX,
    ensures
        final(out)@ == old(out)@ + vec4_le(*v),
{
    push_u32_le(out, v.x);
    push_u32_le(out, v.y);
    push_u32_le(out, v.z);
    push_u32_le(out, v.w);
    proof {
        assert(final(out)@ =~= old(out)@ + vec4_le(*v));
    }
}

fn push_vec2_le(out: &mut Vec<u8>, v: &Vec2Bits)
    requires
        old(out)@.len() + 8 <= usize::MAX,
    ensures
        final(out)@ == old(out)@ + vec2_le(*v),
{
    push_u32_le(out, v.x);
    push_u32_le(out, v.y);
    proof {
        assert(final(out)@ =~= old(out)@ + vec2_le(*v));
    }
}

/// Appends the 64 bytes of one instance record to a staging buffer.
pub fn encode_record(out: &mut Vec<u8>, t: &Transform, d: &SpriteData)
    requires
        old(out)@.len() + 64 <= usize::MAX,
    ensures
        final(out)@ == old(out)@ + record_bytes(*t, *d),
{
    push_vec4_le(out, &t.position);
    push_vec4_le(out, &t.rotation);
    push_vec4_le(out, &t.size);
    push_vec2_le(out, &d.texture_position);
    push_vec2_le(out, &d.texture_size);
    proof {
        assert(final(out)@ =~= old(out)@ + record_bytes(*t, *d));
    }
}

impl CameraData {
    /// The 64 uniform bytes of this camera matrix, ready for upload.
    pub fn encode(&self) -> (r: Vec<u8>)
        ensures
            r@ == camera_bytes(*self),
            r@.len() == 64,
    {
        let mut out: Vec<u8> = Vec::new();
        push_vec4_le(&mut out, &self.projection.x);
        push_vec4_le(&mut out, &self.projection.y);
        push_vec4_le(&mut out, &self.projection.z);
        push_vec4_le(&mut out, &self.projection.w);
        proof {
            assert(out@ =~= camera_bytes(*self));
        }
        out
    }
}

} // verus!
