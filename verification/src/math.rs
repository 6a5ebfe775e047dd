//! Unsigned three-component vectors used for voxel coordinates.

use vstd::prelude::*;

verus! {

/// A position or extent in voxel units.
#[derive(Clone, Copy, Debug, PartialEq, Eq, Structural)]
pub struct UVec3 {
    pub x: u32,
    pub y: u32,
    pub z: u32,
}

/// Builds a [`UVec3`] from its three components.
pub fn uvec3(x: u32, y: u32, z: u32) -> (v: UVec3)
    ensures
        v == (UVec3 { x, y, z }),
{
    UVec3 { x, y, z }
}

/// A signed position in voxel units.
#[derive(Clone, Copy, Debug, PartialEq, Eq, Structural)]
pub struct IVec3 {
    pub x: i32,
    pub y: i32,
    pub z: i32,
}

/// Builds an [`IVec3`] from its three components.
pub fn ivec3(x: i32, y: i32, z: i32) -> (v: IVec3)
    ensures
        v == (IVec3 { x, y, z }),
{
    IVec3 { x, y, z }
}

impl IVec3 {
    /// Component-wise sum in two's complement.
    pub open spec fn spec_wrapping_add(self, other: IVec3) -> IVec3 {
        IVec3 {
            x: self.x.wrapping_add(other.x),
            y: self.y.wrapping_add(other.y),
            z: self.z.wrapping_add(other.z),
        }
    }

    /// Component-wise sum that wraps around in two's complement.
    pub fn wrapping_add(self, other: IVec3) -> (v: IVec3)
        ensures
            v == self.spec_wrapping_add(other),
    {
        IVec3 {
            x: self.x.wrapping_add(other.x),
            y: self.y.wrapping_add(other.y),
            z: self.z.wrapping_add(other.z),
        }
    }

    /// Component-wise minimum.
    pub open spec fn spec_min(self, other: IVec3) -> IVec3 {
        IVec3 {
            x: if self.x <= other.x { self.x } else { other.x },
            y: if self.y <= other.y { self.y } else { other.y },
            z: if self.z <= other.z { self.z } else { other.z },
        }
    }

    /// Component-wise maximum.
    pub open spec fn spec_max(self, other: IVec3) -> IVec3 {
        IVec3 {
            x: if self.x >= other.x { self.x } else { other.x },
            y: if self.y >= other.y { self.y } else { other.y },
            z: if self.z >= other.z { self.z } else { other.z },
        }
    }

    /// Component-wise minimum.
    pub fn min(self, other: IVec3) -> (v: IVec3)
        ensures
            v == self.spec_min(other),
    {
        IVec3 {
            x: if self.x <= other.x { self.x } else { other.x },
            y: if self.y <= other.y { self.y } else { other.y },
            z: if self.z <= other.z { self.z } else { other.z },
        }
    }

    /// Component-wise maximum.
    pub fn max(self, other: IVec3) -> (v: IVec3)
        ensures
            v == self.spec_max(other),
    {
        IVec3 {
            x: if self.x >= other.x { self.x } else { other.x },
            y: if self.y >= other.y { self.y } else { other.y },
            z: if self.z >= other.z { self.z } else { other.z },
        }
    }
}

/// Four unsigned words, the unit of a device record.
#[derive(Clone, Copy, Debug, PartialEq, Eq, Structural)]
pub struct UVec4 {
    pub x: u32,
    pub y: u32,
    pub z: u32,
    pub w: u32,
}

/// Builds a [`UVec4`] from its four components.
pub fn uvec4(x: u32, y: u32, z: u32, w: u32) -> (v: UVec4)
    ensures
        v == (UVec4 { x, y, z, w }),
{
    UVec4 { x, y, z, w }
}

impl UVec3 {
    /// Component-wise sum modulo 2^32, the arithmetic of an unsigned device word.
    pub open spec fn spec_wrapping_add(self, other: UVec3) -> UVec3 {
        UVec3 {
            x: ((self.x + other.x) % 0x1_0000_0000) as u32,
            y: ((self.y + other.y) % 0x1_0000_0000) as u32,
            z: ((self.z + other.z) % 0x1_0000_0000) as u32,
        }
    }

    /// Component-wise sum that wraps around at 2^32.
    pub fn wrapping_add(self, other: UVec3) -> (v: UVec3)
        ensures
            v == self.spec_wrapping_add(other),
    {
        UVec3 {
            x: self.x.wrapping_add(other.x),
            y: self.y.wrapping_add(other.y),
            z: self.z.wrapping_add(other.z),
        }
    }
}

} // verus!
