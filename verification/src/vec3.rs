//! Fixed-point three-component vectors.
//!
//! Positions and directions are triples of `i64` fixed-point coordinates.
//! Scene input is bounded by `COORD_LIMIT`, which keeps every product that
//! the intersection algorithms form inside `i128`.

use vstd::prelude::*;

verus! {

/// Largest magnitude allowed for an input coordinate.
pub const COORD_LIMIT: i64 = 4096;

/// A point or direction with fixed-point integer coordinates.
#[derive(Clone, Copy, Debug, PartialEq, Eq, Structural)]
pub struct Vec3 {
    pub x: i64,
    pub y: i64,
    pub z: i64,
}

/// Marker for vectors used as spatial positions.
pub trait PointVec {

}

impl PointVec for Vec3 {

}

/// Every coordinate of `v` has magnitude at most `b`.
pub open spec fn in_range(v: Vec3, b: int) -> bool {
    &&& -b <= v.x <= b
    &&& -b <= v.y <= b
    &&& -b <= v.z <= b
}

/// Dot product, as an unbounded integer.
pub open spec fn sdot(a: Vec3, b: Vec3) -> int {
    a.x * b.x + a.y * b.y + a.z * b.z
}

/// The x component of the cross product.
pub open spec fn scross_x(a: Vec3, b: Vec3) -> int {
    a.y * b.z - a.z * b.y
}

/// The y component of the cross product.
pub open spec fn scross_y(a: Vec3, b: Vec3) -> int {
    a.z * b.x - a.x * b.z
}

/// The z component of the cross product.
pub open spec fn scross_z(a: Vec3, b: Vec3) -> int {
    a.x * b.y - a.y * b.x
}

impl Vec3 {
    /// The vector `(x, y, z)`.
    pub fn new(x: i64, y: i64, z: i64) -> (r: Vec3)
        ensures
            r == (Vec3 { x, y, z }),
    {
        Vec3 { x, y, z }
    }

    /// The zero vector.
    pub open spec fn spec_zero() -> Vec3 {
        Vec3 { x: 0, y: 0, z: 0 }
    }

    /// Componentwise difference.
    pub fn sub(&self, other: &Vec3) -> (r: Vec3)
        requires
            in_range(*self, 0x1000_0000_0000),
            in_range(*other, 0x1000_0000_0000),
        ensures
            r.x == self.x - other.x,
            r.y == self.y - other.y,
            r.z == self.z - other.z,
    {
        Vec3 { x: self.x - other.x, y: self.y - other.y, z: self.z - other.z }
    }

    /// Componentwise sum.
    pub fn add(&self, other: &Vec3) -> (r: Vec3)
        requires
            in_range(*self, 0x1000_0000_0000),
            in_range(*other, 0x1000_0000_0000),
        ensures
            r.x == self.x + other.x,
            r.y == self.y + other.y,
            r.z == self.z + other.z,
    {
        Vec3 { x: self.x + other.x, y: self.y + other.y, z: self.z + other.z }
    }

    /// Dot product, computed in `i128`.
    pub fn dot(&self, other: &Vec3) -> (r: i128)
        requires
            in_range(*self, 0x1_0000_0000),
            in_range(*other, 0x1_0000_0000),
        ensures
            r as int == sdot(*self, *other),
    {
        proof {
            crate::frac::lemma_mul_abs_bound(self.x as int, other.x as int, 0x1_0000_0000, 0x1_0000_0000);
            crate::frac::lemma_mul_abs_bound(self.y as int, other.y as int, 0x1_0000_0000, 0x1_0000_0000);
            crate::frac::lemma_mul_abs_bound(self.z as int, other.z as int, 0x1_0000_0000, 0x1_0000_0000);
        }
        (self.x as i128) * (other.x as i128) + (self.y as i128) * (other.y as i128) + (self.z
            as i128) * (other.z as i128)
    }

    /// Cross product.
    pub fn cross(&self, other: &Vec3) -> (r: Vec3)
        requires
            in_range(*self, 0x4000_0000),
            in_range(*other, 0x4000_0000),
        ensures
            r.x == scross_x(*self, *other),
            r.y == scross_y(*self, *other),
            r.z == scross_z(*self, *other),
    {
        proof {
            crate::frac::lemma_mul_abs_bound(self.x as int, other.y as int, 0x4000_0000, 0x4000_0000);
            crate::frac::lemma_mul_abs_bound(self.x as int, other.z as int, 0x4000_0000, 0x4000_0000);
            crate::frac::lemma_mul_abs_bound(self.y as int, other.x as int, 0x4000_0000, 0x4000_0000);
            crate::frac::lemma_mul_abs_bound(self.y as int, other.z as int, 0x4000_0000, 0x4000_0000);
            crate::frac::lemma_mul_abs_bound(self.z as int, other.x as int, 0x4000_0000, 0x4000_0000);
            crate::frac::lemma_mul_abs_bound(self.z as int, other.y as int, 0x4000_0000, 0x4000_0000);
        }
        Vec3 {
            x: self.y * other.z - self.z * other.y,
            y: self.z * other.x - self.x * other.z,
            z: self.x * other.y - self.y * other.x,
        }
    }

    /// Componentwise scaling by an integer factor.
    pub fn scale(&self, k: i64) -> (r: Vec3)
        requires
            in_range(*self, 0x4000_0000),
            -0x4000_0000 <= k <= 0x4000_0000,
        ensures
            r.x == k * self.x,
            r.y == k * self.y,
            r.z == k * self.z,
    {
        proof {
            crate::frac::lemma_mul_abs_bound(k as int, self.x as int, 0x4000_0000, 0x4000_0000);
            crate::frac::lemma_mul_abs_bound(k as int, self.y as int, 0x4000_0000, 0x4000_0000);
            crate::frac::lemma_mul_abs_bound(k as int, self.z as int, 0x4000_0000, 0x4000_0000);
        }
        Vec3 { x: k * self.x, y: k * self.y, z: k * self.z }
    }

    /// Componentwise minimum.
    pub fn min_with(&self, other: &Vec3) -> (r: Vec3)
        ensures
            r.x == if self.x < other.x { self.x as int } else { other.x as int },
            r.y == if self.y < other.y { self.y as int } else { other.y as int },
            r.z == if self.z < other.z { self.z as int } else { other.z as int },
    {
        Vec3 {
            x: if self.x < other.x { self.x } else { other.x },
            y: if self.y < other.y { self.y } else { other.y },
            z: if self.z < other.z { self.z } else { other.z },
        }
    }

    /// Componentwise maximum.
    pub fn max_with(&self, other: &Vec3) -> (r: Vec3)
        ensures
            r.x == if self.x > other.x { self.x as int } else { other.x as int },
            r.y == if self.y > other.y { self.y as int } else { other.y as int },
            r.z == if self.z > other.z { self.z as int } else { other.z as int },
    {
        Vec3 {
            x: if self.x > other.x { self.x } else { other.x },
            y: if self.y > other.y { self.y } else { other.y },
            z: if self.z > other.z { self.z } else { other.z },
        }
    }

    /// True when the vector is the zero vector.
    pub fn is_zero(&self) -> (r: bool)
        ensures
            r == (*self == Vec3::spec_zero()),
    {
        self.x == 0 && self.y == 0 && self.z == 0
    }
}

} // verus!
