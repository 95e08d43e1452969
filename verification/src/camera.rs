//! The user application's camera.
use vstd::prelude::*;

verus! {

/// A four-component vector of `f32` values, each held as its IEEE 754 bit
/// pattern (`f32::to_bits`).
#[derive(Clone, Copy, Debug, PartialEq, Eq, Structural)]
pub struct Vec4 {
    pub x: u32,
    pub y: u32,
    pub z: u32,
    pub w: u32,
}

impl Vec4 {
    /// A vector from the bit patterns of its four components.
    pub fn new(x: u32, y: u32, z: u32, w: u32) -> (v: Self)
        ensures
            v == (Vec4 { x, y, z, w }),
    {
        Vec4 { x, y, z, w }
    }
}

/// The bit pattern of `0.0f32`.
pub const ZERO_BITS: u32 = 0x0000_0000u32;

/// The bit pattern of `1.0f32`.
pub const ONE_BITS: u32 = 0x3f80_0000u32;

/// The bit pattern of `-1.0f32`.
pub const MINUS_ONE_BITS: u32 = 0xbf80_0000u32;

/// A camera: a position and a viewing direction, in homogeneous coordinates.
pub struct Camera {
    pos: Vec4,
    dir: Vec4,
}

impl Camera {
    pub closed spec fn spec_pos(&self) -> Vec4 {
        self.pos
    }

    pub closed spec fn spec_dir(&self) -> Vec4 {
        self.dir
    }

    /// A camera at the origin, `(0, 0, 0, 1)`, looking along `(0, 0, -1, 1)`.
    pub fn new() -> (c: Self)
        ensures
            c.spec_pos() == (Vec4 { x: ZERO_BITS, y: ZERO_BITS, z: ZERO_BITS, w: ONE_BITS }),
            c.spec_dir() == (Vec4 { x: ZERO_BITS, y: ZERO_BITS, z: MINUS_ONE_BITS, w: ONE_BITS }),
    {
        Camera {
            pos: Vec4::new(ZERO_BITS, ZERO_BITS, ZERO_BITS, ONE_BITS),
            dir: Vec4::new(ZERO_BITS, ZERO_BITS, MINUS_ONE_BITS, ONE_BITS),
        }
    }

    /// Rotating does not change the camera yet.
    pub fn rotate(&mut self)
        ensures
            *final(self) == *old(self),
    {
    }

    /// The camera's position.
    pub fn pos(&self) -> (p: Vec4)
        ensures
            p == self.spec_pos(),
    {
        self.pos
    }

    /// The camera's viewing direction.
    pub fn dir(&self) -> (d: Vec4)
        ensures
            d == self.spec_dir(),
    {
        self.dir
    }
}

} // verus!
