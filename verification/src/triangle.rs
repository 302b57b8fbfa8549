//! Ray-triangle intersection with the Möller–Trumbore algorithm.
//!
//! The determinant test, the barycentric bounds and the crossing parameter
//! are all exact integer computations, so the parallel / degenerate guard
//! compares against zero rather than a floating-point epsilon, and a
//! degenerate (collinear) triangle always reports a miss.  `SimpleTriangle`
//! reports the flat normal `e1 x e2`; `Triangle` interpolates its three
//! vertex normals with exact barycentric weights computed by the standard
//! projection formula, independent of the Möller–Trumbore parameters.

use vstd::prelude::*;
use crate::aabb::AABB;
use crate::frac::{abs_le, lemma_mul_abs_bound, Frac};
use crate::hittable::HitRecord;
use crate::ray::{ray_at, FracVec, Ray};
use crate::sphere::in_window;
use crate::vec3::{in_range, Vec3, COORD_LIMIT};

verus! {

/// Componentwise difference of integer triples.
pub open spec fn tsub(a: (int, int, int), b: (int, int, int)) -> (int, int, int) {
    (a.0 - b.0, a.1 - b.1, a.2 - b.2)
}

/// Cross product of integer triples.
pub open spec fn tcross(a: (int, int, int), b: (int, int, int)) -> (int, int, int) {
    (a.1 * b.2 - a.2 * b.1, a.2 * b.0 - a.0 * b.2, a.0 * b.1 - a.1 * b.0)
}

/// Dot product of integer triples.
pub open spec fn tdot(a: (int, int, int), b: (int, int, int)) -> int {
    a.0 * b.0 + a.1 * b.1 + a.2 * b.2
}

/// The coordinates of `v` as an integer triple.
pub open spec fn tvec(v: Vec3) -> (int, int, int) {
    (v.x as int, v.y as int, v.z as int)
}

/// Edge `p2 - p1` of a triangle.
pub open spec fn mt_edge(p1: Vec3, p2: Vec3) -> (int, int, int) {
    tsub(tvec(p2), tvec(p1))
}

/// Möller–Trumbore determinant `e1 . (D x e2)`.
pub open spec fn mt_det(p1: Vec3, p2: Vec3, p3: Vec3, ray: Ray) -> int {
    tdot(mt_edge(p1, p2), tcross(tvec(ray.direction), mt_edge(p1, p3)))
}

/// Raw barycentric numerator `(O - p1) . (D x e2)`.
pub open spec fn mt_u_raw(p1: Vec3, p2: Vec3, p3: Vec3, ray: Ray) -> int {
    tdot(tsub(tvec(ray.origin), tvec(p1)), tcross(tvec(ray.direction), mt_edge(p1, p3)))
}

/// Raw barycentric numerator `D . ((O - p1) x e1)`.
pub open spec fn mt_v_raw(p1: Vec3, p2: Vec3, p3: Vec3, ray: Ray) -> int {
    tdot(tvec(ray.direction), tcross(tsub(tvec(ray.origin), tvec(p1)), mt_edge(p1, p2)))
}

/// Raw parameter numerator `e2 . ((O - p1) x e1)`.
pub open spec fn mt_t_raw(p1: Vec3, p2: Vec3, p3: Vec3, ray: Ray) -> int {
    tdot(mt_edge(p1, p3), tcross(tsub(tvec(ray.origin), tvec(p1)), mt_edge(p1, p2)))
}

/// The absolute determinant, the positive denominator of all parameters.
pub open spec fn mt_d(p1: Vec3, p2: Vec3, p3: Vec3, ray: Ray) -> int {
    if mt_det(p1, p2, p3, ray) >= 0 {
        mt_det(p1, p2, p3, ray)
    } else {
        -mt_det(p1, p2, p3, ray)
    }
}

/// A raw numerator brought to the positive denominator `mt_d`.
pub open spec fn mt_signed(det: int, raw: int) -> int {
    if det >= 0 {
        raw
    } else {
        -raw
    }
}

/// Barycentric numerator of `u` over denominator `mt_d`.
pub open spec fn mt_un(p1: Vec3, p2: Vec3, p3: Vec3, ray: Ray) -> int {
    mt_signed(mt_det(p1, p2, p3, ray), mt_u_raw(p1, p2, p3, ray))
}

/// Barycentric numerator of `v` over denominator `mt_d`.
pub open spec fn mt_vn(p1: Vec3, p2: Vec3, p3: Vec3, ray: Ray) -> int {
    mt_signed(mt_det(p1, p2, p3, ray), mt_v_raw(p1, p2, p3, ray))
}

/// Parameter numerator over denominator `mt_d`.
pub open spec fn mt_tn(p1: Vec3, p2: Vec3, p3: Vec3, ray: Ray) -> int {
    mt_signed(mt_det(p1, p2, p3, ray), mt_t_raw(p1, p2, p3, ray))
}

/// The crossing parameter `t` as a fraction with positive denominator.
pub open spec fn mt_t_frac(p1: Vec3, p2: Vec3, p3: Vec3, ray: Ray) -> Frac {
    Frac { num: mt_tn(p1, p2, p3, ray) as i128, den: mt_d(p1, p2, p3, ray) as i128 }
}

/// The Möller–Trumbore acceptance test: nonzero determinant, barycentric
/// parameters `u in [0, 1]`, `v >= 0`, `u + v <= 1`, a crossing strictly in
/// front of the origin (`t > 0`), and `t` inside the closed query window.
pub open spec fn mt_accepts(
    p1: Vec3,
    p2: Vec3,
    p3: Vec3,
    ray: Ray,
    tmin: Frac,
    tmax: Frac,
) -> bool {
    &&& mt_det(p1, p2, p3, ray) != 0
    &&& 0 <= mt_un(p1, p2, p3, ray) <= mt_d(p1, p2, p3, ray)
    &&& 0 <= mt_vn(p1, p2, p3, ray)
    &&& mt_un(p1, p2, p3, ray) + mt_vn(p1, p2, p3, ray) <= mt_d(p1, p2, p3, ray)
    &&& mt_tn(p1, p2, p3, ray) > 0
    &&& in_window(mt_t_frac(p1, p2, p3, ray), tmin, tmax)
}

/// Shared Möller–Trumbore core: the crossing parameter when the ray hits
/// the triangle `(p1, p2, p3)` inside the window, `None` otherwise.
fn mt_intersect(p1: &Vec3, p2: &Vec3, p3: &Vec3, ray: &Ray, t_min: &Frac, t_max: &Frac) -> (r: Option<
    Frac,
>)
    requires
        in_range(*p1, COORD_LIMIT as int),
        in_range(*p2, COORD_LIMIT as int),
        in_range(*p3, COORD_LIMIT as int),
        ray.wf(),
        t_min.wf(),
        t_max.wf(),
    ensures
        match r {
            None => !mt_accepts(*p1, *p2, *p3, *ray, *t_min, *t_max),
            Some(t) => {
                &&& mt_accepts(*p1, *p2, *p3, *ray, *t_min, *t_max)
                &&& t == mt_t_frac(*p1, *p2, *p3, *ray)
                &&& t.wf()
                &&& abs_le(t.num as int, 0x400_0000_0000)
                &&& 0 < t.den <= 0x400_0000_0000
            },
        },
{
    let e1 = p2.sub(p1);
    let e2 = p3.sub(p1);
    let h = ray.direction.cross(&e2);
    proof {
        lemma_cross_bounds(ray.direction, e2, COORD_LIMIT as int, 2 * COORD_LIMIT as int);
    }
    let det = e1.dot(&h);
    let s = ray.origin.sub(p1);
    let q = s.cross(&e1);
    proof {
        lemma_cross_bounds(s, e1, 2 * COORD_LIMIT as int, 2 * COORD_LIMIT as int);
    }
    let u_raw = s.dot(&h);
    let v_raw = ray.direction.dot(&q);
    let t_raw = e2.dot(&q);
    proof {
        lemma_dot_bounds(e1, h, 2 * COORD_LIMIT as int, 0x800_0000);
        lemma_dot_bounds(s, h, 2 * COORD_LIMIT as int, 0x800_0000);
        lemma_dot_bounds(ray.direction, q, COORD_LIMIT as int, 0x800_0000);
        lemma_dot_bounds(e2, q, 2 * COORD_LIMIT as int, 0x800_0000);
        assert(det as int == mt_det(*p1, *p2, *p3, *ray));
        assert(u_raw as int == mt_u_raw(*p1, *p2, *p3, *ray));
        assert(v_raw as int == mt_v_raw(*p1, *p2, *p3, *ray));
        assert(t_raw as int == mt_t_raw(*p1, *p2, *p3, *ray));
    }
    if det == 0 {
        return None;
    }
    let (dpos, un, vn, tn) = if det > 0 {
        (det, u_raw, v_raw, t_raw)
    } else {
        (-det, -u_raw, -v_raw, -t_raw)
    };
    if un < 0 || un > dpos {
        return None;
    }
    if vn < 0 || un + vn > dpos {
        return None;
    }
    if tn <= 0 {
        return None;
    }
    let t = Frac { num: tn, den: dpos };
    proof {
        assert(t == mt_t_frac(*p1, *p2, *p3, *ray));
        assert(t.wf());
    }
    if t_min.le(&t) && t.le(&t_max) {
        Some(t)
    } else {
        None
    }
}

/// Bounds on the components of a cross product of bounded vectors.
proof fn lemma_cross_bounds(a: Vec3, b: Vec3, ba: int, bb: int)
    requires
        in_range(a, ba),
        in_range(b, bb),
        0 <= ba <= 0x2000,
        0 <= bb <= 0x2000,
    ensures
        abs_le(crate::vec3::scross_x(a, b), 2 * (ba * bb)),
        abs_le(crate::vec3::scross_y(a, b), 2 * (ba * bb)),
        abs_le(crate::vec3::scross_z(a, b), 2 * (ba * bb)),
        2 * (ba * bb) <= 0x800_0000,
{
    lemma_mul_abs_bound(a.x as int, b.y as int, ba, bb);
    lemma_mul_abs_bound(a.x as int, b.z as int, ba, bb);
    lemma_mul_abs_bound(a.y as int, b.x as int, ba, bb);
    lemma_mul_abs_bound(a.y as int, b.z as int, ba, bb);
    lemma_mul_abs_bound(a.z as int, b.x as int, ba, bb);
    lemma_mul_abs_bound(a.z as int, b.y as int, ba, bb);
    assert(ba * bb <= 0x400_0000) by (nonlinear_arith)
        requires
            0 <= ba <= 0x2000,
            0 <= bb <= 0x2000,
    {
    }
}

/// Bounds on a dot product of bounded vectors.
proof fn lemma_dot_bounds(a: Vec3, b: Vec3, ba: int, bb: int)
    requires
        in_range(a, ba),
        in_range(b, bb),
        0 <= ba,
        0 <= bb,
    ensures
        abs_le(crate::vec3::sdot(a, b), 3 * (ba * bb)),
{
    lemma_mul_abs_bound(a.x as int, b.x as int, ba, bb);
    lemma_mul_abs_bound(a.y as int, b.y as int, ba, bb);
    lemma_mul_abs_bound(a.z as int, b.z as int, ba, bb);
}

/// The axis-aligned box of three points: componentwise extrema.
pub open spec fn tri_box(p1: Vec3, p2: Vec3, p3: Vec3) -> AABB {
    AABB {
        min: Vec3 {
            x: crate::aabb::coord_min(p1.x, crate::aabb::coord_min(p2.x, p3.x)),
            y: crate::aabb::coord_min(p1.y, crate::aabb::coord_min(p2.y, p3.y)),
            z: crate::aabb::coord_min(p1.z, crate::aabb::coord_min(p2.z, p3.z)),
        },
        max: Vec3 {
            x: crate::aabb::coord_max(p1.x, crate::aabb::coord_max(p2.x, p3.x)),
            y: crate::aabb::coord_max(p1.y, crate::aabb::coord_max(p2.y, p3.y)),
            z: crate::aabb::coord_max(p1.z, crate::aabb::coord_max(p2.z, p3.z)),
        },
    }
}

/// The componentwise extrema of three points, as an executable box.
fn tri_box_exec(p1: &Vec3, p2: &Vec3, p3: &Vec3) -> (r: AABB)
    requires
        in_range(*p1, COORD_LIMIT as int),
        in_range(*p2, COORD_LIMIT as int),
        in_range(*p3, COORD_LIMIT as int),
    ensures
        r == tri_box(*p1, *p2, *p3),
        r.wf(),
{
    AABB { min: p1.min_with(&p2.min_with(p3)), max: p1.max_with(&p2.max_with(p3)) }
}

/// A triangle with flat shading: the reported normal is the exact edge
/// cross product `e1 x e2` (not normalized to unit length, which has no
/// exact representation).
#[derive(Clone, Copy, Debug, PartialEq, Eq, Structural)]
pub struct SimpleTriangle {
    pub p1: Vec3,
    pub p2: Vec3,
    pub p3: Vec3,
    pub material: u64,
}

/// A flat-triangle hit: the acceptance test passes and the record
/// carries the crossing point, the flat normal `e1 x e2` and the
/// triangle's material.
pub open spec fn simple_triangle_hit_ok(
    tr: SimpleTriangle,
    ray: Ray,
    tmin: Frac,
    tmax: Frac,
    rec: HitRecord,
) -> bool {
    &&& mt_accepts(tr.p1, tr.p2, tr.p3, ray, tmin, tmax)
    &&& rec.t == mt_t_frac(tr.p1, tr.p2, tr.p3, ray)
    &&& ray_at(ray, rec.t, rec.point)
    &&& rec.normal.nx == tcross(mt_edge(tr.p1, tr.p2), mt_edge(tr.p1, tr.p3)).0
    &&& rec.normal.ny == tcross(mt_edge(tr.p1, tr.p2), mt_edge(tr.p1, tr.p3)).1
    &&& rec.normal.nz == tcross(mt_edge(tr.p1, tr.p2), mt_edge(tr.p1, tr.p3)).2
    &&& rec.normal.den == 1
    &&& rec.material == tr.material
}

impl SimpleTriangle {
    /// Well-formed: in-range vertices.
    pub open spec fn wf(self) -> bool {
        &&& in_range(self.p1, COORD_LIMIT as int)
        &&& in_range(self.p2, COORD_LIMIT as int)
        &&& in_range(self.p3, COORD_LIMIT as int)
    }

    /// A flat triangle over the given vertices.
    pub fn new(p1: Vec3, p2: Vec3, p3: Vec3, material: u64) -> (r: SimpleTriangle)
        requires
            in_range(p1, COORD_LIMIT as int),
            in_range(p2, COORD_LIMIT as int),
            in_range(p3, COORD_LIMIT as int),
        ensures
            r == (SimpleTriangle { p1, p2, p3, material }),
            r.wf(),
    {
        SimpleTriangle { p1, p2, p3, material }
    }

    /// Möller–Trumbore intersection of `ray` with the triangle in the
    /// closed window `[t_min, t_max]`.
    pub fn hit(&self, ray: &Ray, t_min: &Frac, t_max: &Frac) -> (r: Option<HitRecord>)
        requires
            self.wf(),
            ray.wf(),
            t_min.wf(),
            t_max.wf(),
        ensures
            match r {
                None => !mt_accepts(self.p1, self.p2, self.p3, *ray, *t_min, *t_max),
                Some(rec) => simple_triangle_hit_ok(*self, *ray, *t_min, *t_max, rec) && rec.wf(),
            },
    {
        let t = match mt_intersect(&self.p1, &self.p2, &self.p3, ray, t_min, t_max) {
            None => {
                return None;
            },
            Some(t) => t,
        };
        let point = ray.at(&t);
        let e1 = self.p2.sub(&self.p1);
        let e2 = self.p3.sub(&self.p1);
        let n = e1.cross(&e2);
        let normal = FracVec { nx: n.x as i128, ny: n.y as i128, nz: n.z as i128, den: 1 };
        Some(HitRecord { t, point, normal, material: self.material })
    }

    /// The componentwise extrema of the three vertices.
    pub fn bounding_box(&self, t0: &Frac, t1: &Frac) -> (r: Option<AABB>)
        requires
            self.wf(),
        ensures
            r == Some(tri_box(self.p1, self.p2, self.p3)),
            tri_box(self.p1, self.p2, self.p3).wf(),
    {
        Some(tri_box_exec(&self.p1, &self.p2, &self.p3))
    }
}

/// A triangle with per-vertex normals; hits report the barycentric blend
/// of the three vertex normals.
#[derive(Clone, Copy, Debug, PartialEq, Eq, Structural)]
pub struct Triangle {
    pub p1: Vec3,
    pub p2: Vec3,
    pub p3: Vec3,
    pub n1: Vec3,
    pub n2: Vec3,
    pub n3: Vec3,
    pub material: u64,
}

/// Gram coefficient `e1 . e1` of the barycentric projection.
pub open spec fn bary_d00(tr: Triangle) -> int {
    tdot(mt_edge(tr.p1, tr.p2), mt_edge(tr.p1, tr.p2))
}

/// Gram coefficient `e1 . e2` of the barycentric projection.
pub open spec fn bary_d01(tr: Triangle) -> int {
    tdot(mt_edge(tr.p1, tr.p2), mt_edge(tr.p1, tr.p3))
}

/// Gram coefficient `e2 . e2` of the barycentric projection.
pub open spec fn bary_d11(tr: Triangle) -> int {
    tdot(mt_edge(tr.p1, tr.p3), mt_edge(tr.p1, tr.p3))
}

/// The barycentric denominator: the squared length of the edge cross
/// product `e1 x e2`.  By Lagrange's identity this equals the Gram
/// determinant `d00*d11 - d01^2` of the projection formula; it is positive
/// exactly for non-degenerate triangles.
pub open spec fn bary_denom(tr: Triangle) -> int {
    tdot(
        tcross(mt_edge(tr.p1, tr.p2), mt_edge(tr.p1, tr.p3)),
        tcross(mt_edge(tr.p1, tr.p2), mt_edge(tr.p1, tr.p3)),
    )
}

/// The vector from `p1` to the hit point at parameter `t`, scaled by
/// `t.den`.
pub open spec fn bary_v2(tr: Triangle, ray: Ray, t: Frac) -> (int, int, int) {
    (
        (ray.origin.x - tr.p1.x) * t.den + t.num * ray.direction.x,
        (ray.origin.y - tr.p1.y) * t.den + t.num * ray.direction.y,
        (ray.origin.z - tr.p1.z) * t.den + t.num * ray.direction.z,
    )
}

/// Projection `v2 . e1`, scaled by `t.den`.
pub open spec fn bary_n20(tr: Triangle, ray: Ray, t: Frac) -> int {
    tdot(bary_v2(tr, ray, t), mt_edge(tr.p1, tr.p2))
}

/// Projection `v2 . e2`, scaled by `t.den`.
pub open spec fn bary_n21(tr: Triangle, ray: Ray, t: Frac) -> int {
    tdot(bary_v2(tr, ray, t), mt_edge(tr.p1, tr.p3))
}

/// Numerator of the barycentric weight of `p2` over `bary_denom * t.den`.
pub open spec fn bary_v_num(tr: Triangle, ray: Ray, t: Frac) -> int {
    bary_d11(tr) * bary_n20(tr, ray, t) - bary_d01(tr) * bary_n21(tr, ray, t)
}

/// Numerator of the barycentric weight of `p3` over `bary_denom * t.den`.
pub open spec fn bary_w_num(tr: Triangle, ray: Ray, t: Frac) -> int {
    bary_d00(tr) * bary_n21(tr, ray, t) - bary_d01(tr) * bary_n20(tr, ray, t)
}

/// Numerator of the barycentric weight of `p1`: `1 - v - w` over the same
/// denominator.
pub open spec fn bary_u_num(tr: Triangle, ray: Ray, t: Frac) -> int {
    bary_denom(tr) * t.den - bary_v_num(tr, ray, t) - bary_w_num(tr, ray, t)
}

/// An interpolated-normal triangle hit: the acceptance test passes and
/// the record carries the crossing point, the barycentric blend
/// `u*n1 + v*n2 + w*n3` of the vertex normals and the material.
pub open spec fn triangle_hit_ok(
    tr: Triangle,
    ray: Ray,
    tmin: Frac,
    tmax: Frac,
    rec: HitRecord,
) -> bool {
    &&& mt_accepts(tr.p1, tr.p2, tr.p3, ray, tmin, tmax)
    &&& rec.t == mt_t_frac(tr.p1, tr.p2, tr.p3, ray)
    &&& ray_at(ray, rec.t, rec.point)
    &&& rec.normal.nx == bary_u_num(tr, ray, rec.t) * tr.n1.x + bary_v_num(tr, ray, rec.t)
        * tr.n2.x + bary_w_num(tr, ray, rec.t) * tr.n3.x
    &&& rec.normal.ny == bary_u_num(tr, ray, rec.t) * tr.n1.y + bary_v_num(tr, ray, rec.t)
        * tr.n2.y + bary_w_num(tr, ray, rec.t) * tr.n3.y
    &&& rec.normal.nz == bary_u_num(tr, ray, rec.t) * tr.n1.z + bary_v_num(tr, ray, rec.t)
        * tr.n2.z + bary_w_num(tr, ray, rec.t) * tr.n3.z
    &&& rec.normal.den == bary_denom(tr) * rec.t.den
    &&& rec.material == tr.material
}

impl Triangle {
    /// Well-formed: in-range vertices and vertex normals.
    pub open spec fn wf(self) -> bool {
        &&& in_range(self.p1, COORD_LIMIT as int)
        &&& in_range(self.p2, COORD_LIMIT as int)
        &&& in_range(self.p3, COORD_LIMIT as int)
        &&& in_range(self.n1, COORD_LIMIT as int)
        &&& in_range(self.n2, COORD_LIMIT as int)
        &&& in_range(self.n3, COORD_LIMIT as int)
    }

    /// A triangle over the given vertices with per-vertex normals.
    pub fn new(p1: Vec3, p2: Vec3, p3: Vec3, n1: Vec3, n2: Vec3, n3: Vec3, material: u64) -> (r:
        Triangle)
        requires
            in_range(p1, COORD_LIMIT as int),
            in_range(p2, COORD_LIMIT as int),
            in_range(p3, COORD_LIMIT as int),
            in_range(n1, COORD_LIMIT as int),
            in_range(n2, COORD_LIMIT as int),
            in_range(n3, COORD_LIMIT as int),
        ensures
            r == (Triangle { p1, p2, p3, n1, n2, n3, material }),
            r.wf(),
    {
        Triangle { p1, p2, p3, n1, n2, n3, material }
    }

    /// Möller–Trumbore intersection with interpolated normals.
    pub fn hit(&self, ray: &Ray, t_min: &Frac, t_max: &Frac) -> (r: Option<HitRecord>)
        requires
            self.wf(),
            ray.wf(),
            t_min.wf(),
            t_max.wf(),
        ensures
            match r {
                None => !mt_accepts(self.p1, self.p2, self.p3, *ray, *t_min, *t_max),
                Some(rec) => triangle_hit_ok(*self, *ray, *t_min, *t_max, rec) && rec.wf(),
            },
    {
        let t = match mt_intersect(&self.p1, &self.p2, &self.p3, ray, t_min, t_max) {
            None => {
                return None;
            },
            Some(t) => t,
        };
        let point = ray.at(&t);
        let normal = self.blend_normal(ray, &t, &point);
        Some(HitRecord { t, point, normal, material: self.material })
    }

    /// The barycentric blend of the vertex normals at the hit point.
    fn blend_normal(&self, ray: &Ray, t: &Frac, point: &FracVec) -> (r: FracVec)
        requires
            self.wf(),
            ray.wf(),
            t.den > 0,
            abs_le(t.num as int, 0x400_0000_0000),
            t.den <= 0x400_0000_0000,
            ray_at(*ray, *t, *point),
            mt_det(self.p1, self.p2, self.p3, *ray) != 0,
        ensures
            r.nx == bary_u_num(*self, *ray, *t) * self.n1.x + bary_v_num(*self, *ray, *t)
                * self.n2.x + bary_w_num(*self, *ray, *t) * self.n3.x,
            r.ny == bary_u_num(*self, *ray, *t) * self.n1.y + bary_v_num(*self, *ray, *t)
                * self.n2.y + bary_w_num(*self, *ray, *t) * self.n3.y,
            r.nz == bary_u_num(*self, *ray, *t) * self.n1.z + bary_v_num(*self, *ray, *t)
                * self.n2.z + bary_w_num(*self, *ray, *t) * self.n3.z,
            r.den == bary_denom(*self) * t.den,
            r.den > 0,
    {
        let ghost tb: int = 0x400_0000_0000;
        let ghost cl: int = COORD_LIMIT as int;
        let e1 = self.p2.sub(&self.p1);
        let e2 = self.p3.sub(&self.p1);
        let cr = e1.cross(&e2);
        let d00 = e1.dot(&e1);
        let d01 = e1.dot(&e2);
        let d11 = e2.dot(&e2);
        proof {
            lemma_cross_bounds(e1, e2, 2 * cl, 2 * cl);
            lemma_dot_bounds(e1, e1, 2 * cl, 2 * cl);
            lemma_dot_bounds(e1, e2, 2 * cl, 2 * cl);
            lemma_dot_bounds(e2, e2, 2 * cl, 2 * cl);
            lemma_dot_bounds(cr, cr, 0x800_0000, 0x800_0000);
            lemma_mul_abs_bound(ray.origin.x as int, t.den as int, cl, tb);
            lemma_mul_abs_bound(ray.origin.y as int, t.den as int, cl, tb);
            lemma_mul_abs_bound(ray.origin.z as int, t.den as int, cl, tb);
            lemma_mul_abs_bound(t.num as int, ray.direction.x as int, tb, cl);
            lemma_mul_abs_bound(t.num as int, ray.direction.y as int, tb, cl);
            lemma_mul_abs_bound(t.num as int, ray.direction.z as int, tb, cl);
            lemma_mul_abs_bound(self.p1.x as int, t.den as int, cl, tb);
            lemma_mul_abs_bound(self.p1.y as int, t.den as int, cl, tb);
            lemma_mul_abs_bound(self.p1.z as int, t.den as int, cl, tb);
        }
        let v2x = point.nx - (self.p1.x as i128) * t.den;
        let v2y = point.ny - (self.p1.y as i128) * t.den;
        let v2z = point.nz - (self.p1.z as i128) * t.den;
        let ghost vb: int = 3 * (cl * tb);
        proof {
            lemma_mul_abs_bound(v2x as int, e1.x as int, vb, 2 * cl);
            lemma_mul_abs_bound(v2y as int, e1.y as int, vb, 2 * cl);
            lemma_mul_abs_bound(v2z as int, e1.z as int, vb, 2 * cl);
            lemma_mul_abs_bound(v2x as int, e2.x as int, vb, 2 * cl);
            lemma_mul_abs_bound(v2y as int, e2.y as int, vb, 2 * cl);
            lemma_mul_abs_bound(v2z as int, e2.z as int, vb, 2 * cl);
        }
        let n20 = v2x * (e1.x as i128) + v2y * (e1.y as i128) + v2z * (e1.z as i128);
        let n21 = v2x * (e2.x as i128) + v2y * (e2.y as i128) + v2z * (e2.z as i128);
        let ghost db: int = 3 * ((2 * cl) * (2 * cl));
        let ghost nb: int = 3 * (vb * (2 * cl));
        proof {
            lemma_mul_abs_bound(d11 as int, n20 as int, db, nb);
            lemma_mul_abs_bound(d01 as int, n21 as int, db, nb);
            lemma_mul_abs_bound(d00 as int, n21 as int, db, nb);
            lemma_mul_abs_bound(d01 as int, n20 as int, db, nb);
        }
        let denom_b = cr.dot(&cr);
        let ghost dbb: int = 3int * (0x800_0000int * 0x800_0000int);
        proof {
            assert(abs_le(v2x as int, vb));
            assert(abs_le(n20 as int, nb));
            assert(abs_le(d11 as int, db));
            assert(abs_le(d11 as int * (n20 as int), db * nb));
            assert(4 * (db * nb) < 0x8000_0000_0000_0000_0000_0000_0000_0000) by (nonlinear_arith)
                requires
                    db == 3int * ((2int * 4096) * (2int * 4096)),
                    nb == 3int * ((3int * (4096int * 0x400_0000_0000)) * (2int * 4096)),
            {
            }
        }
        let v_num = d11 * n20 - d01 * n21;
        let w_num = d00 * n21 - d01 * n20;
        let ghost vnb: int = 2 * (db * nb);
        proof {
            lemma_mul_abs_bound(denom_b as int, t.den as int, dbb, tb);
            lemma_bary_denom_positive(
                mt_edge(self.p1, self.p2),
                mt_edge(self.p1, self.p3),
                tvec(ray.direction),
            );
            assert(denom_b as int == bary_denom(*self));
            assert(denom_b > 0);
            assert(denom_b as int * t.den as int > 0) by (nonlinear_arith)
                requires
                    denom_b as int > 0,
                    t.den > 0,
            {
            }
        }
        let ghost ub: int = dbb * tb + 2 * vnb;
        proof {
            assert(ub < 0x4000_0000_0000_0000_0000_0000_0000_0000 && ub * cl + 2 * (vnb * cl)
                < 0x4000_0000_0000_0000_0000_0000_0000_0000) by (nonlinear_arith)
                requires
                    cl == 4096int,
                    tb == 0x400_0000_0000int,
                    vb == 3int * (cl * tb),
                    nb == 3int * (vb * (2int * cl)),
                    db == 3int * ((2int * cl) * (2int * cl)),
                    dbb == 3int * (0x800_0000int * 0x800_0000int),
                    vnb == 2int * (db * nb),
                    ub == dbb * tb + 2int * vnb,
            {
            }
        }
        let u_num = denom_b * t.den - v_num - w_num;
        proof {
            lemma_mul_abs_bound(u_num as int, self.n1.x as int, ub, cl);
            lemma_mul_abs_bound(u_num as int, self.n1.y as int, ub, cl);
            lemma_mul_abs_bound(u_num as int, self.n1.z as int, ub, cl);
            lemma_mul_abs_bound(v_num as int, self.n2.x as int, vnb, cl);
            lemma_mul_abs_bound(v_num as int, self.n2.y as int, vnb, cl);
            lemma_mul_abs_bound(v_num as int, self.n2.z as int, vnb, cl);
            lemma_mul_abs_bound(w_num as int, self.n3.x as int, vnb, cl);
            lemma_mul_abs_bound(w_num as int, self.n3.y as int, vnb, cl);
            lemma_mul_abs_bound(w_num as int, self.n3.z as int, vnb, cl);
        }
        proof {
            assert((ray.origin.x - self.p1.x) * t.den == ray.origin.x * t.den - self.p1.x * t.den)
                by (nonlinear_arith);
            assert((ray.origin.y - self.p1.y) * t.den == ray.origin.y * t.den - self.p1.y * t.den)
                by (nonlinear_arith);
            assert((ray.origin.z - self.p1.z) * t.den == ray.origin.z * t.den - self.p1.z * t.den)
                by (nonlinear_arith);
            assert(v2x as int == bary_v2(*self, *ray, *t).0);
            assert(v2y as int == bary_v2(*self, *ray, *t).1);
            assert(v2z as int == bary_v2(*self, *ray, *t).2);
            assert(n20 as int == bary_n20(*self, *ray, *t));
            assert(n21 as int == bary_n21(*self, *ray, *t));
            assert(v_num as int == bary_v_num(*self, *ray, *t));
            assert(w_num as int == bary_w_num(*self, *ray, *t));
            assert(u_num as int == bary_u_num(*self, *ray, *t));
        }
        FracVec {
            nx: u_num * (self.n1.x as i128) + v_num * (self.n2.x as i128) + w_num * (self.n3.x
                as i128),
            ny: u_num * (self.n1.y as i128) + v_num * (self.n2.y as i128) + w_num * (self.n3.y
                as i128),
            nz: u_num * (self.n1.z as i128) + v_num * (self.n2.z as i128) + w_num * (self.n3.z
                as i128),
            den: denom_b * t.den,
        }
    }

    /// The componentwise extrema of the three vertices.
    pub fn bounding_box(&self, t0: &Frac, t1: &Frac) -> (r: Option<AABB>)
        requires
            self.wf(),
        ensures
            r == Some(tri_box(self.p1, self.p2, self.p3)),
            tri_box(self.p1, self.p2, self.p3).wf(),
    {
        Some(tri_box_exec(&self.p1, &self.p2, &self.p3))
    }
}

/// A nonzero Möller–Trumbore determinant forces a positive barycentric
/// denominator: the determinant is (up to sign) `D . (e1 x e2)`, so the
/// edge cross product is nonzero and its squared length is positive.
proof fn lemma_bary_denom_positive(e1: (int, int, int), e2: (int, int, int), d: (int, int, int))
    requires
        tdot(e1, tcross(d, e2)) != 0,
    ensures
        tdot(tcross(e1, e2), tcross(e1, e2)) > 0,
{
    let c = tcross(e1, e2);
    lemma_triple_product(e1.0, e1.1, e1.2, e2.0, e2.1, e2.2, d.0, d.1, d.2);
    assert(tdot(d, c) != 0);
    assert(c.0 != 0 || c.1 != 0 || c.2 != 0) by {
        if c.0 == 0 && c.1 == 0 && c.2 == 0 {
            assert(tdot(d, c) == 0) by (nonlinear_arith)
                requires
                    c.0 == 0 && c.1 == 0 && c.2 == 0,
            {
            }
        }
    }
    assert(tdot(c, c) > 0) by (nonlinear_arith)
        requires
            c.0 != 0 || c.1 != 0 || c.2 != 0,
    {
    }
}

/// Scalar triple product identity: `e1 . (d x e2) == -(d . (e1 x e2))`.
proof fn lemma_triple_product(
    ax: int,
    ay: int,
    az: int,
    bx: int,
    by: int,
    bz: int,
    dx: int,
    dy: int,
    dz: int,
)
    ensures
        tdot((ax, ay, az), tcross((dx, dy, dz), (bx, by, bz))) == -tdot(
            (dx, dy, dz),
            tcross((ax, ay, az), (bx, by, bz)),
        ),
{
    assert(ax * (dy * bz - dz * by) == dy * (ax * bz) - dz * (ax * by)) by (nonlinear_arith);
    assert(ay * (dz * bx - dx * bz) == dz * (ay * bx) - dx * (ay * bz)) by (nonlinear_arith);
    assert(az * (dx * by - dy * bx) == dx * (az * by) - dy * (az * bx)) by (nonlinear_arith);
    assert(dx * (ay * bz - az * by) == dx * (ay * bz) - dx * (az * by)) by (nonlinear_arith);
    assert(dy * (az * bx - ax * bz) == dy * (az * bx) - dy * (ax * bz)) by (nonlinear_arith);
    assert(dz * (ax * by - ay * bx) == dz * (ax * by) - dz * (ay * bx)) by (nonlinear_arith);
}

/// The Möller–Trumbore quantities of well-formed inputs are bounded, the
/// casts in `mt_t_frac` are lossless, and a nonzero determinant gives a
/// well-formed positive-denominator parameter.
pub proof fn lemma_mt_value_bounds(p1: Vec3, p2: Vec3, p3: Vec3, ray: Ray)
    requires
        in_range(p1, COORD_LIMIT as int),
        in_range(p2, COORD_LIMIT as int),
        in_range(p3, COORD_LIMIT as int),
        ray.wf(),
    ensures
        abs_le(mt_det(p1, p2, p3, ray), 0x400_0000_0000),
        abs_le(mt_tn(p1, p2, p3, ray), 0x400_0000_0000),
        0 <= mt_d(p1, p2, p3, ray) <= 0x400_0000_0000,
        mt_t_frac(p1, p2, p3, ray).num == mt_tn(p1, p2, p3, ray),
        mt_t_frac(p1, p2, p3, ray).den == mt_d(p1, p2, p3, ray),
        mt_det(p1, p2, p3, ray) != 0 ==> mt_d(p1, p2, p3, ray) > 0 && mt_t_frac(
            p1,
            p2,
            p3,
            ray,
        ).wf(),
{
    let cl = COORD_LIMIT as int;
    let e1 = mt_edge(p1, p2);
    let e2 = mt_edge(p1, p3);
    let d = tvec(ray.direction);
    let o = tvec(ray.origin);
    let sv = tsub(o, tvec(p1));
    let h = tcross(d, e2);
    let q = tcross(sv, e1);
    lemma_mul_abs_bound(d.1, e2.2, cl, 2 * cl);
    lemma_mul_abs_bound(d.2, e2.1, cl, 2 * cl);
    lemma_mul_abs_bound(d.2, e2.0, cl, 2 * cl);
    lemma_mul_abs_bound(d.0, e2.2, cl, 2 * cl);
    lemma_mul_abs_bound(d.0, e2.1, cl, 2 * cl);
    lemma_mul_abs_bound(d.1, e2.0, cl, 2 * cl);
    lemma_mul_abs_bound(sv.1, e1.2, 2 * cl, 2 * cl);
    lemma_mul_abs_bound(sv.2, e1.1, 2 * cl, 2 * cl);
    lemma_mul_abs_bound(sv.2, e1.0, 2 * cl, 2 * cl);
    lemma_mul_abs_bound(sv.0, e1.2, 2 * cl, 2 * cl);
    lemma_mul_abs_bound(sv.0, e1.1, 2 * cl, 2 * cl);
    lemma_mul_abs_bound(sv.1, e1.0, 2 * cl, 2 * cl);
    let hb = 2 * (cl * (2 * cl));
    let qb = 2 * ((2 * cl) * (2 * cl));
    lemma_mul_abs_bound(e1.0, h.0, 2 * cl, hb);
    lemma_mul_abs_bound(e1.1, h.1, 2 * cl, hb);
    lemma_mul_abs_bound(e1.2, h.2, 2 * cl, hb);
    lemma_mul_abs_bound(e2.0, q.0, 2 * cl, qb);
    lemma_mul_abs_bound(e2.1, q.1, 2 * cl, qb);
    lemma_mul_abs_bound(e2.2, q.2, 2 * cl, qb);
    assert(3 * ((2 * cl) * hb) <= 0x400_0000_0000 && 3 * ((2 * cl) * qb) <= 0x400_0000_0000)
        by (nonlinear_arith)
        requires
            cl == 4096int,
            hb == 2 * (cl * (2 * cl)),
            qb == 2 * ((2 * cl) * (2 * cl)),
    {
    }
}

} // verus!
