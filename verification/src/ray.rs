//! Rays and exact rational points along them.

use vstd::prelude::*;
use crate::frac::{abs_le, lemma_mul_abs_bound, Frac, FRAC_LIMIT};
use crate::vec3::{in_range, Vec3, COORD_LIMIT};

verus! {

/// A point with exact rational coordinates `(nx/den, ny/den, nz/den)`.
#[derive(Clone, Copy, Debug, PartialEq, Eq, Structural)]
pub struct FracVec {
    pub nx: i128,
    pub ny: i128,
    pub nz: i128,
    pub den: i128,
}

impl FracVec {
    /// Well-formed: positive denominator.
    pub open spec fn wf(self) -> bool {
        self.den > 0
    }
}

/// A ray `origin + t * direction`; the direction need not be normalized, so
/// the parameter `t` is scale-dependent.
#[derive(Clone, Copy, Debug, PartialEq, Eq, Structural)]
pub struct Ray {
    pub origin: Vec3,
    pub direction: Vec3,
}

impl Ray {
    /// Well-formed: coordinates within the fixed-point range and a
    /// direction that is not the zero vector.
    pub open spec fn wf(self) -> bool {
        &&& in_range(self.origin, COORD_LIMIT as int)
        &&& in_range(self.direction, COORD_LIMIT as int)
        &&& self.direction != Vec3::spec_zero()
    }

    /// A ray from `origin` along `direction`.
    pub fn new(origin: Vec3, direction: Vec3) -> (r: Ray)
        requires
            in_range(origin, COORD_LIMIT as int),
            in_range(direction, COORD_LIMIT as int),
            direction != Vec3::spec_zero(),
        ensures
            r == (Ray { origin, direction }),
            r.wf(),
    {
        Ray { origin, direction }
    }

    /// The point the ray reaches at parameter `t`, with denominator `t.den`.
    pub fn at(&self, t: &Frac) -> (r: FracVec)
        requires
            self.wf(),
            t.wf(),
        ensures
            r.wf(),
            ray_at(*self, *t, r),
    {
        proof {
            lemma_at_bounds(*self, *t);
            lemma_mul_abs_bound(self.origin.x as int, t.den as int, COORD_LIMIT as int, FRAC_LIMIT as int);
            lemma_mul_abs_bound(self.origin.y as int, t.den as int, COORD_LIMIT as int, FRAC_LIMIT as int);
            lemma_mul_abs_bound(self.origin.z as int, t.den as int, COORD_LIMIT as int, FRAC_LIMIT as int);
            lemma_mul_abs_bound(t.num as int, self.direction.x as int, FRAC_LIMIT as int, COORD_LIMIT as int);
            lemma_mul_abs_bound(t.num as int, self.direction.y as int, FRAC_LIMIT as int, COORD_LIMIT as int);
            lemma_mul_abs_bound(t.num as int, self.direction.z as int, FRAC_LIMIT as int, COORD_LIMIT as int);
        }
        FracVec {
            nx: (self.origin.x as i128) * t.den + t.num * (self.direction.x as i128),
            ny: (self.origin.y as i128) * t.den + t.num * (self.direction.y as i128),
            nz: (self.origin.z as i128) * t.den + t.num * (self.direction.z as i128),
            den: t.den,
        }
    }
}

/// `p` is exactly the point `ray.origin + t * ray.direction`, represented
/// over the denominator `t.den`.
pub open spec fn ray_at(ray: Ray, t: Frac, p: FracVec) -> bool {
    &&& p.den == t.den
    &&& p.nx == ray.origin.x * t.den + t.num * ray.direction.x
    &&& p.ny == ray.origin.y * t.den + t.num * ray.direction.y
    &&& p.nz == ray.origin.z * t.den + t.num * ray.direction.z
}

/// The coordinates of a point along a well-formed ray stay well inside
/// `i128`.
pub proof fn lemma_at_bounds(ray: Ray, t: Frac)
    requires
        ray.wf(),
        t.wf(),
    ensures
        abs_le(ray.origin.x * t.den + t.num * ray.direction.x, 0x1000_0000_0000_0000_0000),
        abs_le(ray.origin.y * t.den + t.num * ray.direction.y, 0x1000_0000_0000_0000_0000),
        abs_le(ray.origin.z * t.den + t.num * ray.direction.z, 0x1000_0000_0000_0000_0000),
{
    lemma_mul_abs_bound(ray.origin.x as int, t.den as int, COORD_LIMIT as int, FRAC_LIMIT as int);
    lemma_mul_abs_bound(ray.origin.y as int, t.den as int, COORD_LIMIT as int, FRAC_LIMIT as int);
    lemma_mul_abs_bound(ray.origin.z as int, t.den as int, COORD_LIMIT as int, FRAC_LIMIT as int);
    lemma_mul_abs_bound(t.num as int, ray.direction.x as int, FRAC_LIMIT as int, COORD_LIMIT as int);
    lemma_mul_abs_bound(t.num as int, ray.direction.y as int, FRAC_LIMIT as int, COORD_LIMIT as int);
    lemma_mul_abs_bound(t.num as int, ray.direction.z as int, FRAC_LIMIT as int, COORD_LIMIT as int);
}

} // verus!
