//! Lattice points.

use vstd::prelude::*;

verus! {

/// Number of lattice units in one length unit.
pub const UNITS_PER_LENGTH: i64 = 10_000;

/// Largest magnitude of a point coordinate, in lattice units (two to the
/// power 53: every coordinate below it is held by a double without loss).
pub const MAX_COORDINATE: i64 = 0x20_0000_0000_0000;

/// A point of the coordinate lattice.
#[derive(Clone, Copy, Debug, PartialEq, Eq, Structural)]
pub struct Vector3 {
    pub x: i64,
    pub y: i64,
    pub z: i64,
}

impl Vector3 {
    /// Every coordinate has a magnitude of at most `MAX_COORDINATE`.
    pub open spec fn in_range(self) -> bool {
        &&& -MAX_COORDINATE <= self.x <= MAX_COORDINATE
        &&& -MAX_COORDINATE <= self.y <= MAX_COORDINATE
        &&& -MAX_COORDINATE <= self.z <= MAX_COORDINATE
    }

    /// Tests whether every coordinate is within the supported range.
    pub fn is_in_range(&self) -> (r: bool)
        ensures
            r == self.in_range(),
    {
        -MAX_COORDINATE <= self.x && self.x <= MAX_COORDINATE && -MAX_COORDINATE <= self.y
            && self.y <= MAX_COORDINATE && -MAX_COORDINATE <= self.z && self.z
            <= MAX_COORDINATE
    }

    /// The origin of the lattice.
    pub fn empty() -> (v: Vector3)
        ensures
            v == (Vector3 { x: 0, y: 0, z: 0 }),
    {
        Vector3 { x: 0, y: 0, z: 0 }
    }

    /// The coordinates in the order x, y, z.
    pub fn to_array(&self) -> (a: [i64; 3])
        ensures
            a@ == seq![self.x, self.y, self.z],
    {
        let a = [self.x, self.y, self.z];
        assert(a@ =~= seq![self.x, self.y, self.z]);
        a
    }
}

/// Squared Euclidean distance between two lattice points.
pub open spec fn squared_distance(a: Vector3, b: Vector3) -> int {
    (a.x - b.x) * (a.x - b.x) + (a.y - b.y) * (a.y - b.y) + (a.z - b.z) * (a.z - b.z)
}

/// Whether a number is a 64-bit signed integer.
pub open spec fn fits(v: int) -> bool {
    i64::MIN <= v <= i64::MAX
}

impl core::ops::Add<Vector3> for Vector3 {
    type Output = Vector3;

    /// The sum, component by component.
    fn add(self, rhs: Vector3) -> (sum: Vector3) {
        Vector3 { x: self.x + rhs.x, y: self.y + rhs.y, z: self.z + rhs.z }
    }
}

impl vstd::std_specs::ops::AddSpecImpl<Vector3> for Vector3 {
    open spec fn obeys_add_spec() -> bool {
        true
    }

    open spec fn add_req(self, rhs: Vector3) -> bool {
        fits(self.x + rhs.x) && fits(self.y + rhs.y) && fits(self.z + rhs.z)
    }

    open spec fn add_spec(self, rhs: Vector3) -> Vector3 {
        Vector3 {
            x: (self.x + rhs.x) as i64,
            y: (self.y + rhs.y) as i64,
            z: (self.z + rhs.z) as i64,
        }
    }
}

impl core::ops::Add<i64> for Vector3 {
    type Output = Vector3;

    /// The vector with `scalar` added to each component.
    fn add(self, scalar: i64) -> (sum: Vector3) {
        Vector3 { x: self.x + scalar, y: self.y + scalar, z: self.z + scalar }
    }
}

impl vstd::std_specs::ops::AddSpecImpl<i64> for Vector3 {
    open spec fn obeys_add_spec() -> bool {
        true
    }

    open spec fn add_req(self, scalar: i64) -> bool {
        fits(self.x + scalar) && fits(self.y + scalar) && fits(self.z + scalar)
    }

    open spec fn add_spec(self, scalar: i64) -> Vector3 {
        Vector3 {
            x: (self.x + scalar) as i64,
            y: (self.y + scalar) as i64,
            z: (self.z + scalar) as i64,
        }
    }
}

impl core::ops::Sub<Vector3> for Vector3 {
    type Output = Vector3;

    /// The difference, component by component.
    fn sub(self, rhs: Vector3) -> (difference: Vector3) {
        Vector3 { x: self.x - rhs.x, y: self.y - rhs.y, z: self.z - rhs.z }
    }
}

impl vstd::std_specs::ops::SubSpecImpl<Vector3> for Vector3 {
    open spec fn obeys_sub_spec() -> bool {
        true
    }

    open spec fn sub_req(self, rhs: Vector3) -> bool {
        fits(self.x - rhs.x) && fits(self.y - rhs.y) && fits(self.z - rhs.z)
    }

    open spec fn sub_spec(self, rhs: Vector3) -> Vector3 {
        Vector3 {
            x: (self.x - rhs.x) as i64,
            y: (self.y - rhs.y) as i64,
            z: (self.z - rhs.z) as i64,
        }
    }
}

impl core::ops::Mul<Vector3> for Vector3 {
    type Output = Vector3;

    /// The product, component by component.
    fn mul(self, rhs: Vector3) -> (product: Vector3) {
        Vector3 { x: self.x * rhs.x, y: self.y * rhs.y, z: self.z * rhs.z }
    }
}

impl vstd::std_specs::ops::MulSpecImpl<Vector3> for Vector3 {
    open spec fn obeys_mul_spec() -> bool {
        true
    }

    open spec fn mul_req(self, rhs: Vector3) -> bool {
        fits(self.x * rhs.x) && fits(self.y * rhs.y) && fits(self.z * rhs.z)
    }

    open spec fn mul_spec(self, rhs: Vector3) -> Vector3 {
        Vector3 {
            x: (self.x * rhs.x) as i64,
            y: (self.y * rhs.y) as i64,
            z: (self.z * rhs.z) as i64,
        }
    }
}

impl core::ops::Mul<i64> for Vector3 {
    type Output = Vector3;

    /// The vector with each component multiplied by `scalar`.
    fn mul(self, scalar: i64) -> (product: Vector3) {
        Vector3 { x: self.x * scalar, y: self.y * scalar, z: self.z * scalar }
    }
}

impl vstd::std_specs::ops::MulSpecImpl<i64> for Vector3 {
    open spec fn obeys_mul_spec() -> bool {
        true
    }

    open spec fn mul_req(self, scalar: i64) -> bool {
        fits(self.x * scalar) && fits(self.y * scalar) && fits(self.z * scalar)
    }

    open spec fn mul_spec(self, scalar: i64) -> Vector3 {
        Vector3 {
            x: (self.x * scalar) as i64,
            y: (self.y * scalar) as i64,
            z: (self.z * scalar) as i64,
        }
    }
}

} // verus!
