//! Ray-plane intersection.
//!
//! An infinite plane through a point with a given normal.  A ray parallel
//! to the plane (zero denominator) never hits; otherwise the unique
//! crossing parameter is exact.  A plane has no bounding box.

use vstd::prelude::*;
use crate::aabb::AABB;
use crate::frac::{lemma_mul_abs_bound, Frac};
use crate::hittable::HitRecord;
use crate::ray::{ray_at, FracVec, Ray};
use crate::sphere::in_window;
use crate::vec3::{in_range, sdot, Vec3, COORD_LIMIT};

verus! {

/// An infinite plane through `point` with normal `normal`.
#[derive(Clone, Copy, Debug, PartialEq, Eq, Structural)]
pub struct Plane {
    pub point: Vec3,
    pub normal: Vec3,
    pub material: u64,
}

/// Denominator `D . n` of the plane crossing parameter.
pub open spec fn plane_denom(pl: Plane, ray: Ray) -> int {
    sdot(ray.direction, pl.normal)
}

/// Numerator `(P - O) . n` of the plane crossing parameter.
pub open spec fn plane_num(pl: Plane, ray: Ray) -> int {
    (pl.point.x - ray.origin.x) * pl.normal.x + (pl.point.y - ray.origin.y) * pl.normal.y + (
    pl.point.z - ray.origin.z) * pl.normal.z
}

/// The crossing parameter `((P - O) . n) / (D . n)`, brought to a positive
/// denominator.
pub open spec fn plane_t(pl: Plane, ray: Ray) -> Frac {
    if plane_denom(pl, ray) > 0 {
        Frac { num: plane_num(pl, ray) as i128, den: plane_denom(pl, ray) as i128 }
    } else {
        Frac { num: (-plane_num(pl, ray)) as i128, den: (-plane_denom(pl, ray)) as i128 }
    }
}

/// A successful plane hit: the ray is not parallel, the crossing parameter
/// lies in the closed window, and `rec` carries the crossing point, the
/// plane's own normal and its material.
pub open spec fn plane_hit_ok(pl: Plane, ray: Ray, tmin: Frac, tmax: Frac, rec: HitRecord) -> bool {
    &&& plane_denom(pl, ray) != 0
    &&& in_window(plane_t(pl, ray), tmin, tmax)
    &&& rec.t == plane_t(pl, ray)
    &&& ray_at(ray, rec.t, rec.point)
    &&& rec.normal.nx == pl.normal.x
    &&& rec.normal.ny == pl.normal.y
    &&& rec.normal.nz == pl.normal.z
    &&& rec.normal.den == 1
    &&& rec.material == pl.material
}

/// A plane miss: the ray is parallel or the crossing parameter lies
/// outside the window.
pub open spec fn plane_hit_none(pl: Plane, ray: Ray, tmin: Frac, tmax: Frac) -> bool {
    ||| plane_denom(pl, ray) == 0
    ||| !in_window(plane_t(pl, ray), tmin, tmax)
}

impl Plane {
    /// Well-formed: in-range point and normal.
    pub open spec fn wf(self) -> bool {
        &&& in_range(self.point, COORD_LIMIT as int)
        &&& in_range(self.normal, COORD_LIMIT as int)
    }

    /// A plane through `point` with normal `normal`.
    pub fn new(point: Vec3, normal: Vec3, material: u64) -> (r: Plane)
        requires
            in_range(point, COORD_LIMIT as int),
            in_range(normal, COORD_LIMIT as int),
        ensures
            r == (Plane { point, normal, material }),
            r.wf(),
    {
        Plane { point, normal, material }
    }

    /// Intersection of `ray` with the plane in the closed window
    /// `[t_min, t_max]`.
    pub fn hit(&self, ray: &Ray, t_min: &Frac, t_max: &Frac) -> (r: Option<HitRecord>)
        requires
            self.wf(),
            ray.wf(),
            t_min.wf(),
            t_max.wf(),
        ensures
            match r {
                None => plane_hit_none(*self, *ray, *t_min, *t_max),
                Some(rec) => plane_hit_ok(*self, *ray, *t_min, *t_max, rec) && rec.wf(),
            },
    {
        let denom = ray.direction.dot(&self.normal);
        if denom == 0 {
            return None;
        }
        let diff = self.point.sub(&ray.origin);
        let num = diff.dot(&self.normal);
        proof {
            let cl = COORD_LIMIT as int;
            lemma_mul_abs_bound(diff.x as int, self.normal.x as int, 2 * cl, cl);
            lemma_mul_abs_bound(diff.y as int, self.normal.y as int, 2 * cl, cl);
            lemma_mul_abs_bound(diff.z as int, self.normal.z as int, 2 * cl, cl);
            lemma_mul_abs_bound(ray.direction.x as int, self.normal.x as int, cl, cl);
            lemma_mul_abs_bound(ray.direction.y as int, self.normal.y as int, cl, cl);
            lemma_mul_abs_bound(ray.direction.z as int, self.normal.z as int, cl, cl);
            assert(num as int == plane_num(*self, *ray));
        }
        let t = if denom > 0 {
            Frac { num, den: denom }
        } else {
            Frac { num: -num, den: -denom }
        };
        proof {
            assert(t == plane_t(*self, *ray));
            assert(t.wf());
        }
        if t_min.le(&t) && t.le(&t_max) {
            let point = ray.at(&t);
            let normal = FracVec {
                nx: self.normal.x as i128,
                ny: self.normal.y as i128,
                nz: self.normal.z as i128,
                den: 1,
            };
            Some(HitRecord { t, point, normal, material: self.material })
        } else {
            None
        }
    }

    /// A plane has infinite extent and therefore no bounding box.
    pub fn bounding_box(&self, t0: &Frac, t1: &Frac) -> (r: Option<AABB>)
        ensures
            r is None,
    {
        None
    }
}

} // verus!
