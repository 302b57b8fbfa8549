//! Intersection records, the closed set of hittable shapes, and the linear
//! reference scan.
//!
//! `Hittable` is a tagged union over the primitive kinds; every variant
//! exposes the same `hit` / `bounding_box` capability, so aggregates can
//! traverse shapes uniformly.  The window lemmas below — narrowing,
//! widening, exclusivity and determinism of hits — are what the bounding
//! volume hierarchy's correctness argument rests on.

use vstd::prelude::*;
use crate::aabb::AABB;
use crate::frac::{
    frac_le, frac_lt, lemma_frac_le_trans, lemma_frac_lt_le_trans, lemma_frac_total, Frac,
};
use crate::plane::{plane_hit_none, plane_hit_ok, Plane};
use crate::ray::{FracVec, Ray};
use crate::vec3::Vec3;
use crate::sphere::{
    in_window, lemma_sphere_near_le_far, lemma_sphere_root_bounds, sphere_box, sphere_hit_none,
    sphere_hit_ok, Sphere,
};
use crate::triangle::{
    lemma_mt_value_bounds, mt_accepts, simple_triangle_hit_ok, tri_box, triangle_hit_ok,
    SimpleTriangle, Triangle,
};

verus! {

/// The result of a successful ray intersection: the ray parameter, the hit
/// point, the surface normal at that point and an opaque material
/// reference that the shading stage interprets.
#[derive(Clone, Copy, Debug, PartialEq, Eq, Structural)]
pub struct HitRecord {
    pub t: Frac,
    pub point: FracVec,
    pub normal: FracVec,
    pub material: u64,
}

impl HitRecord {
    /// Well-formed: the parameter is a bounded fraction and the point and
    /// normal have positive denominators.
    pub open spec fn wf(self) -> bool {
        &&& self.t.wf()
        &&& self.point.wf()
        &&& self.normal.wf()
    }
}

/// Anything a ray can intersect: the closed union of the primitive kinds.
#[derive(Clone, Copy, Debug, PartialEq, Eq, Structural)]
pub enum Hittable {
    Sphere(Sphere),
    SimpleTriangle(SimpleTriangle),
    Triangle(Triangle),
    Plane(Plane),
}

impl Hittable {
    /// Well-formed: the wrapped primitive is.
    pub open spec fn wf(self) -> bool {
        match self {
            Hittable::Sphere(sp) => sp.wf(),
            Hittable::SimpleTriangle(tr) => tr.wf(),
            Hittable::Triangle(tr) => tr.wf(),
            Hittable::Plane(pl) => pl.wf(),
        }
    }

    /// Whether the shape has finite extent; only a plane does not.
    pub open spec fn boundable(self) -> bool {
        !(self is Plane)
    }

    /// The bounding box of a boundable shape.
    pub open spec fn bbox(self) -> AABB {
        match self {
            Hittable::Sphere(sp) => sphere_box(sp),
            Hittable::SimpleTriangle(tr) => tri_box(tr.p1, tr.p2, tr.p3),
            Hittable::Triangle(tr) => tri_box(tr.p1, tr.p2, tr.p3),
            Hittable::Plane(pl) => AABB { min: Vec3::spec_zero(), max: Vec3::spec_zero() },
        }
    }

    /// `rec` is exactly the record that this shape's `hit` returns on the
    /// window `[tmin, tmax]`.
    pub open spec fn hit_ok(self, ray: Ray, tmin: Frac, tmax: Frac, rec: HitRecord) -> bool {
        match self {
            Hittable::Sphere(sp) => sphere_hit_ok(sp, ray, tmin, tmax, rec),
            Hittable::SimpleTriangle(tr) => simple_triangle_hit_ok(tr, ray, tmin, tmax, rec),
            Hittable::Triangle(tr) => triangle_hit_ok(tr, ray, tmin, tmax, rec),
            Hittable::Plane(pl) => plane_hit_ok(pl, ray, tmin, tmax, rec),
        }
    }

    /// This shape's `hit` reports no intersection on the window.
    pub open spec fn hit_none(self, ray: Ray, tmin: Frac, tmax: Frac) -> bool {
        match self {
            Hittable::Sphere(sp) => sphere_hit_none(sp, ray, tmin, tmax),
            Hittable::SimpleTriangle(tr) => !mt_accepts(tr.p1, tr.p2, tr.p3, ray, tmin, tmax),
            Hittable::Triangle(tr) => !mt_accepts(tr.p1, tr.p2, tr.p3, ray, tmin, tmax),
            Hittable::Plane(pl) => plane_hit_none(pl, ray, tmin, tmax),
        }
    }

    /// Closest intersection of `ray` with the shape in the closed window
    /// `[t_min, t_max]`.
    pub fn hit(&self, ray: &Ray, t_min: &Frac, t_max: &Frac) -> (r: Option<HitRecord>)
        requires
            self.wf(),
            ray.wf(),
            t_min.wf(),
            t_max.wf(),
        ensures
            match r {
                None => self.hit_none(*ray, *t_min, *t_max),
                Some(rec) => self.hit_ok(*ray, *t_min, *t_max, rec) && rec.wf(),
            },
    {
        match self {
            Hittable::Sphere(sp) => sp.hit(ray, t_min, t_max),
            Hittable::SimpleTriangle(tr) => tr.hit(ray, t_min, t_max),
            Hittable::Triangle(tr) => tr.hit(ray, t_min, t_max),
            Hittable::Plane(pl) => pl.hit(ray, t_min, t_max),
        }
    }

    /// The shape's bounding box, or `None` for a shape of infinite extent.
    pub fn bounding_box(&self, t0: &Frac, t1: &Frac) -> (r: Option<AABB>)
        requires
            self.wf(),
        ensures
            r == if self.boundable() {
                Some(self.bbox())
            } else {
                Option::<AABB>::None
            },
            self.boundable() ==> self.bbox().wf(),
    {
        match self {
            Hittable::Sphere(sp) => sp.bounding_box(t0, t1),
            Hittable::SimpleTriangle(tr) => tr.bounding_box(t0, t1),
            Hittable::Triangle(tr) => tr.bounding_box(t0, t1),
            Hittable::Plane(pl) => pl.bounding_box(t0, t1),
        }
    }
}

/// A hit record's parameter lies in the queried window and has a positive
/// denominator.
pub proof fn lemma_hit_window(p: Hittable, ray: Ray, tmin: Frac, tmax: Frac, rec: HitRecord)
    requires
        p.wf(),
        ray.wf(),
        p.hit_ok(ray, tmin, tmax, rec),
    ensures
        rec.t.den > 0,
        frac_le(tmin, rec.t),
        frac_le(rec.t, tmax),
{
    match p {
        Hittable::Sphere(sp) => {
            lemma_sphere_root_bounds(sp, ray);
            assert(crate::sphere::sph_a(ray) > 0);
            assert(rec.t == crate::sphere::sph_root(sp, ray, -1) || rec.t
                == crate::sphere::sph_root(sp, ray, 1));
        },
        Hittable::SimpleTriangle(tr) => {
            lemma_mt_value_bounds(tr.p1, tr.p2, tr.p3, ray);
        },
        Hittable::Triangle(tr) => {
            lemma_mt_value_bounds(tr.p1, tr.p2, tr.p3, ray);
        },
        Hittable::Plane(pl) => {
            lemma_plane_t_den(pl, ray);
        },
    }
}

/// Narrowing the window down to any bound that still contains the found
/// parameter returns the same record.
pub proof fn lemma_hit_narrow(
    p: Hittable,
    ray: Ray,
    tmin: Frac,
    tmax: Frac,
    w: Frac,
    rec: HitRecord,
)
    requires
        p.wf(),
        ray.wf(),
        tmin.den > 0,
        tmax.den > 0,
        w.den > 0,
        p.hit_ok(ray, tmin, tmax, rec),
        frac_le(rec.t, w),
        frac_le(w, tmax),
    ensures
        p.hit_ok(ray, tmin, w, rec),
{
    lemma_hit_window(p, ray, tmin, tmax, rec);
    match p {
        Hittable::Sphere(sp) => {
            lemma_sphere_root_bounds(sp, ray);
            let near = crate::sphere::sph_root(sp, ray, -1);
            if in_window(near, tmin, tmax) {
            } else {
                if in_window(near, tmin, w) {
                    lemma_frac_le_trans(near, w, tmax);
                }
            }
        },
        Hittable::SimpleTriangle(tr) => {},
        Hittable::Triangle(tr) => {},
        Hittable::Plane(pl) => {},
    }
}

/// Widening the window keeps the same record: a hit found under a tighter
/// bound is still the hit under the looser one.
pub proof fn lemma_hit_widen(
    p: Hittable,
    ray: Ray,
    tmin: Frac,
    w: Frac,
    tmax: Frac,
    rec: HitRecord,
)
    requires
        p.wf(),
        ray.wf(),
        tmin.den > 0,
        tmax.den > 0,
        w.den > 0,
        p.hit_ok(ray, tmin, w, rec),
        frac_le(w, tmax),
    ensures
        p.hit_ok(ray, tmin, tmax, rec),
{
    lemma_hit_window(p, ray, tmin, w, rec);
    lemma_frac_le_trans(rec.t, w, tmax);
    match p {
        Hittable::Sphere(sp) => {
            lemma_sphere_root_bounds(sp, ray);
            lemma_sphere_near_le_far(sp, ray);
            let near = crate::sphere::sph_root(sp, ray, -1);
            let far = crate::sphere::sph_root(sp, ray, 1);
            if in_window(near, tmin, w) {
            } else {
                if in_window(near, tmin, tmax) {
                    lemma_frac_le_trans(near, far, w);
                }
            }
        },
        Hittable::SimpleTriangle(tr) => {},
        Hittable::Triangle(tr) => {},
        Hittable::Plane(pl) => {},
    }
}

/// The plane parameter has a positive denominator when the ray is not
/// parallel.
proof fn lemma_plane_t_den(pl: Plane, ray: Ray)
    requires
        pl.wf(),
        ray.wf(),
        crate::plane::plane_denom(pl, ray) != 0,
    ensures
        crate::plane::plane_t(pl, ray).den > 0,
{
    let cl = crate::vec3::COORD_LIMIT as int;
    crate::frac::lemma_mul_abs_bound(ray.direction.x as int, pl.normal.x as int, cl, cl);
    crate::frac::lemma_mul_abs_bound(ray.direction.y as int, pl.normal.y as int, cl, cl);
    crate::frac::lemma_mul_abs_bound(ray.direction.z as int, pl.normal.z as int, cl, cl);
}

/// A shape cannot both hit and miss on the same window.
pub proof fn lemma_hit_exclusive(p: Hittable, ray: Ray, tmin: Frac, tmax: Frac, rec: HitRecord)
    requires
        p.hit_ok(ray, tmin, tmax, rec),
    ensures
        !p.hit_none(ray, tmin, tmax),
{
}

/// A shape's hit record on a given window is unique.
pub proof fn lemma_hit_deterministic(
    p: Hittable,
    ray: Ray,
    tmin: Frac,
    tmax: Frac,
    r1: HitRecord,
    r2: HitRecord,
)
    requires
        p.hit_ok(ray, tmin, tmax, r1),
        p.hit_ok(ray, tmin, tmax, r2),
    ensures
        r1 == r2,
{
    assert(r1.t == r2.t);
    assert(r1.point == r2.point);
    assert(r1.normal == r2.normal);
}

/// Brute-force reference scan: the closest hit over a flat list of shapes,
/// each queried with the full window.  Its contract — some shape produces
/// the returned record, and no shape produces a closer one — is the
/// specification the bounding volume hierarchy is proved against.
pub fn hit_list(objects: &Vec<Hittable>, ray: &Ray, t_min: &Frac, t_max: &Frac) -> (r: Option<
    HitRecord,
>)
    requires
        forall|i: int| 0 <= i < objects@.len() ==> (#[trigger] objects@[i]).wf(),
        ray.wf(),
        t_min.wf(),
        t_max.wf(),
    ensures
        match r {
            None => forall|i: int|
                0 <= i < objects@.len() ==> (#[trigger] objects@[i]).hit_none(
                    *ray,
                    *t_min,
                    *t_max,
                ),
            Some(rec) => {
                &&& rec.wf()
                &&& exists|i: int|
                    0 <= i < objects@.len() && (#[trigger] objects@[i]).hit_ok(
                        *ray,
                        *t_min,
                        *t_max,
                        rec,
                    )
                &&& forall|i: int, r2: HitRecord|
                    0 <= i < objects@.len() && #[trigger] objects@[i].hit_ok(
                        *ray,
                        *t_min,
                        *t_max,
                        r2,
                    ) ==> frac_le(rec.t, r2.t)
            },
        },
{
    let mut best: Option<HitRecord> = None;
    let n = objects.len();
    for k in 0..n
        invariant
            n == objects@.len(),
            forall|i: int| 0 <= i < objects@.len() ==> (#[trigger] objects@[i]).wf(),
            ray.wf(),
            t_min.wf(),
            t_max.wf(),
            match best {
                None => forall|i: int|
                    0 <= i < k ==> (#[trigger] objects@[i]).hit_none(*ray, *t_min, *t_max),
                Some(b) => {
                    &&& b.wf()
                    &&& exists|i: int|
                        0 <= i < k && (#[trigger] objects@[i]).hit_ok(*ray, *t_min, *t_max, b)
                    &&& forall|i: int, r2: HitRecord|
                        0 <= i < k && #[trigger] objects@[i].hit_ok(*ray, *t_min, *t_max, r2)
                            ==> frac_le(b.t, r2.t)
                },
            },
    {
        let cand = objects[k].hit(ray, t_min, t_max);
        match (&best, &cand) {
            (_, None) => {},
            (None, Some(c)) => {
                proof {
                    assert forall|i: int, r2: HitRecord|
                        0 <= i < k + 1 && #[trigger] objects@[i].hit_ok(
                            *ray,
                            *t_min,
                            *t_max,
                            r2,
                        ) implies frac_le(c.t, r2.t) by {
                        if i < k as int {
                            lemma_hit_exclusive(objects@[i], *ray, *t_min, *t_max, r2);
                        } else {
                            lemma_hit_deterministic(objects@[i], *ray, *t_min, *t_max, *c, r2);
                        }
                    }
                }
                best = cand;
            },
            (Some(b), Some(c)) => {
                if c.t.lt(&b.t) {
                    proof {
                        assert forall|i: int, r2: HitRecord|
                            0 <= i < k + 1 && #[trigger] objects@[i].hit_ok(
                                *ray,
                                *t_min,
                                *t_max,
                                r2,
                            ) implies frac_le(c.t, r2.t) by {
                            if i < k as int {
                                lemma_hit_window(objects@[i], *ray, *t_min, *t_max, r2);
                                lemma_frac_lt_le_trans(c.t, b.t, r2.t);
                            } else {
                                lemma_hit_deterministic(objects@[i], *ray, *t_min, *t_max, *c, r2);
                            }
                        }
                    }
                    best = cand;
                } else {
                    proof {
                        lemma_frac_total(b.t, c.t);
                        assert forall|i: int, r2: HitRecord|
                            0 <= i < k + 1 && #[trigger] objects@[i].hit_ok(
                                *ray,
                                *t_min,
                                *t_max,
                                r2,
                            ) implies frac_le(b.t, r2.t) by {
                            if i == k as int {
                                lemma_hit_deterministic(objects@[i], *ray, *t_min, *t_max, *c, r2);
                            }
                        }
                    }
                }
            },
        }
    }
    best
}

} // verus!
