//! Integer vectors used for block and chunk coordinates.

use vstd::prelude::*;

verus! {

/// A three dimensional vector of `i32` coordinates.
#[derive(Clone, Copy, Debug, PartialEq, Eq, Hash, Default, Structural)]
pub struct IVec3 {
    pub x: i32,
    pub y: i32,
    pub z: i32,
}

/// Whether `a + b` fits in an `i32` in every coordinate.
pub open spec fn add_fits(a: IVec3, b: IVec3) -> bool {
    &&& i32::MIN <= a.x + b.x <= i32::MAX
    &&& i32::MIN <= a.y + b.y <= i32::MAX
    &&& i32::MIN <= a.z + b.z <= i32::MAX
}

/// Whether `a - b` fits in an `i32` in every coordinate.
pub open spec fn sub_fits(a: IVec3, b: IVec3) -> bool {
    &&& i32::MIN <= a.x - b.x <= i32::MAX
    &&& i32::MIN <= a.y - b.y <= i32::MAX
    &&& i32::MIN <= a.z - b.z <= i32::MAX
}

/// The coordinate-wise sum of two vectors.
pub open spec fn spec_add(a: IVec3, b: IVec3) -> IVec3 {
    IVec3 { x: (a.x + b.x) as i32, y: (a.y + b.y) as i32, z: (a.z + b.z) as i32 }
}

/// The coordinate-wise difference of two vectors.
pub open spec fn spec_sub(a: IVec3, b: IVec3) -> IVec3 {
    IVec3 { x: (a.x - b.x) as i32, y: (a.y - b.y) as i32, z: (a.z - b.z) as i32 }
}

impl IVec3 {
    pub fn new(x: i32, y: i32, z: i32) -> (r: IVec3)
        ensures
            r == (IVec3 { x, y, z }),
    {
        IVec3 { x, y, z }
    }

    /// The unit vector along x.
    pub fn unit_x() -> (r: IVec3)
        ensures
            r == (IVec3 { x: 1, y: 0, z: 0 }),
    {
        IVec3 { x: 1, y: 0, z: 0 }
    }

    /// The unit vector along y.
    pub fn unit_y() -> (r: IVec3)
        ensures
            r == (IVec3 { x: 0, y: 1, z: 0 }),
    {
        IVec3 { x: 0, y: 1, z: 0 }
    }

    /// The unit vector along z.
    pub fn unit_z() -> (r: IVec3)
        ensures
            r == (IVec3 { x: 0, y: 0, z: 1 }),
    {
        IVec3 { x: 0, y: 0, z: 1 }
    }

    /// Coordinate-wise sum; the coordinates must not overflow.
    pub fn add(self, rhs: IVec3) -> (r: IVec3)
        requires
            add_fits(self, rhs),
        ensures
            r == spec_add(self, rhs),
    {
        IVec3 { x: self.x + rhs.x, y: self.y + rhs.y, z: self.z + rhs.z }
    }

    /// Coordinate-wise difference; the coordinates must not overflow.
    pub fn sub(self, rhs: IVec3) -> (r: IVec3)
        requires
            sub_fits(self, rhs),
        ensures
            r == spec_sub(self, rhs),
    {
        IVec3 { x: self.x - rhs.x, y: self.y - rhs.y, z: self.z - rhs.z }
    }
}

} // verus!
