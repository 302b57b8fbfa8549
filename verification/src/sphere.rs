//! Ray-sphere intersection.
//!
//! The quadratic `|O + tD - C|^2 = r^2` is solved exactly: its discriminant
//! is an integer, and the returned parameter uses the integer square root of
//! the discriminant.  When the discriminant is a perfect square — as in
//! every aligned test scenario — the returned parameter is the exact root;
//! the contract pins the result completely either way.

use vstd::prelude::*;
use crate::aabb::AABB;
use crate::frac::{abs_le, frac_le, lemma_mul_abs_bound, Frac};
use crate::hittable::HitRecord;
use crate::ray::{ray_at, Ray};
use crate::vec3::{in_range, sdot, Vec3, COORD_LIMIT};

verus! {

/// `s` is the integer square root of `n` rounded down.
pub open spec fn is_sqrt(n: int, s: int) -> bool {
    0 <= s && s * s <= n < (s + 1) * (s + 1)
}

/// The integer square root of `n` rounded down.
pub open spec fn sqrt_floor(n: int) -> int {
    choose|s: int| is_sqrt(n, s)
}

/// The rounded square root is unique.
pub proof fn lemma_sqrt_unique(n: int, s1: int, s2: int)
    by (nonlinear_arith)
    requires
        is_sqrt(n, s1),
        is_sqrt(n, s2),
    ensures
        s1 == s2,
{
}

/// Integer square root by bisection.
pub fn isqrt(n: i128) -> (s: i128)
    requires
        0 <= n < 0x40_0000_0000_0000_0000_0000_0000,
    ensures
        is_sqrt(n as int, s as int),
        s as int == sqrt_floor(n as int),
{
    let mut lo: i128 = 0;
    let mut hi: i128 = 0x8_0000_0000_0000;
    proof {
        assert((0x8_0000_0000_0000 as int) * (0x8_0000_0000_0000 as int)
            == 0x40_0000_0000_0000_0000_0000_0000) by (nonlinear_arith);
    }
    while lo + 1 < hi
        invariant
            0 <= lo < hi <= 0x8_0000_0000_0000,
            lo * lo <= n,
            n < hi * hi,
        decreases hi - lo,
    {
        let mid = lo + (hi - lo) / 2;
        proof {
            lemma_mul_abs_bound(mid as int, mid as int, 0x8_0000_0000_0000, 0x8_0000_0000_0000);
        }
        if mid * mid <= n {
            lo = mid;
        } else {
            hi = mid;
        }
    }
    proof {
        assert(is_sqrt(n as int, lo as int));
        assert(exists|r: int| is_sqrt(n as int, r));
        assert(is_sqrt(n as int, sqrt_floor(n as int)));
        lemma_sqrt_unique(n as int, lo as int, sqrt_floor(n as int));
    }
    lo
}

/// A sphere with fixed-point center and radius.
#[derive(Clone, Copy, Debug, PartialEq, Eq, Structural)]
pub struct Sphere {
    pub center: Vec3,
    pub radius: i64,
    pub material: u64,
}

/// Coefficient `a = |D|^2` of the sphere quadratic.
pub open spec fn sph_a(ray: Ray) -> int {
    sdot(ray.direction, ray.direction)
}

/// Coefficient `b = (O - C) . D` of the sphere quadratic.
pub open spec fn sph_b(sp: Sphere, ray: Ray) -> int {
    (ray.origin.x - sp.center.x) * ray.direction.x + (ray.origin.y - sp.center.y)
        * ray.direction.y + (ray.origin.z - sp.center.z) * ray.direction.z
}

/// Coefficient `c = |O - C|^2 - r^2` of the sphere quadratic.
pub open spec fn sph_c(sp: Sphere, ray: Ray) -> int {
    (ray.origin.x - sp.center.x) * (ray.origin.x - sp.center.x) + (ray.origin.y - sp.center.y)
        * (ray.origin.y - sp.center.y) + (ray.origin.z - sp.center.z) * (ray.origin.z
        - sp.center.z) - sp.radius * sp.radius
}

/// Discriminant `b^2 - a*c` of the sphere quadratic.
pub open spec fn sph_disc(sp: Sphere, ray: Ray) -> int {
    sph_b(sp, ray) * sph_b(sp, ray) - sph_a(ray) * sph_c(sp, ray)
}

/// `t` lies in the closed query window.
pub open spec fn in_window(t: Frac, tmin: Frac, tmax: Frac) -> bool {
    frac_le(tmin, t) && frac_le(t, tmax)
}

/// The root of the sphere quadratic chosen with rounded square root `s`:
/// `(-b + sgn*s) / a`.
pub open spec fn sph_root(sp: Sphere, ray: Ray, sgn: int) -> Frac {
    Frac {
        num: (sgn * sqrt_floor(sph_disc(sp, ray)) - sph_b(sp, ray)) as i128,
        den: sph_a(ray) as i128,
    }
}

/// The record a sphere hit at parameter `t` carries: the hit point, the
/// normal `(P - C) / r` and the sphere's material.
pub open spec fn sphere_record(sp: Sphere, ray: Ray, t: Frac, rec: HitRecord) -> bool {
    &&& rec.t == t
    &&& ray_at(ray, t, rec.point)
    &&& rec.normal.nx == rec.point.nx - sp.center.x * t.den
    &&& rec.normal.ny == rec.point.ny - sp.center.y * t.den
    &&& rec.normal.nz == rec.point.nz - sp.center.z * t.den
    &&& rec.normal.den == t.den * sp.radius
    &&& rec.material == sp.material
}

/// A successful sphere hit: the discriminant is nonnegative and `rec` is
/// built from the near root when it lies in the window, else from the far
/// root, which then lies in the window.
pub open spec fn sphere_hit_ok(
    sp: Sphere,
    ray: Ray,
    tmin: Frac,
    tmax: Frac,
    rec: HitRecord,
) -> bool {
    &&& sph_a(ray) > 0
    &&& sph_disc(sp, ray) >= 0
    &&& if in_window(sph_root(sp, ray, -1), tmin, tmax) {
        sphere_record(sp, ray, sph_root(sp, ray, -1), rec)
    } else {
        &&& in_window(sph_root(sp, ray, 1), tmin, tmax)
        &&& sphere_record(sp, ray, sph_root(sp, ray, 1), rec)
    }
}

/// A sphere miss: negative discriminant or both roots outside the window.
pub open spec fn sphere_hit_none(sp: Sphere, ray: Ray, tmin: Frac, tmax: Frac) -> bool {
    ||| sph_disc(sp, ray) < 0
    ||| (!in_window(sph_root(sp, ray, -1), tmin, tmax) && !in_window(
        sph_root(sp, ray, 1),
        tmin,
        tmax,
    ))
}

impl Sphere {
    /// Well-formed: in-range center, positive in-range radius.
    pub open spec fn wf(self) -> bool {
        &&& in_range(self.center, COORD_LIMIT as int)
        &&& 0 < self.radius <= COORD_LIMIT
    }

    /// A sphere with the given center, radius and material reference.
    pub fn new(center: Vec3, radius: i64, material: u64) -> (r: Sphere)
        requires
            in_range(center, COORD_LIMIT as int),
            0 < radius <= COORD_LIMIT,
        ensures
            r == (Sphere { center, radius, material }),
            r.wf(),
    {
        Sphere { center, radius, material }
    }

    /// Closest intersection of `ray` with the sphere in the closed window
    /// `[t_min, t_max]`: the near root of the quadratic is tried first, the
    /// far root when the near one misses the window.
    pub fn hit(&self, ray: &Ray, t_min: &Frac, t_max: &Frac) -> (r: Option<HitRecord>)
        requires
            self.wf(),
            ray.wf(),
            t_min.wf(),
            t_max.wf(),
        ensures
            match r {
                None => sphere_hit_none(*self, *ray, *t_min, *t_max),
                Some(rec) => sphere_hit_ok(*self, *ray, *t_min, *t_max, rec) && rec.wf(),
            },
    {
        let oc = ray.origin.sub(&self.center);
        let a = ray.direction.dot(&ray.direction);
        let b = oc.dot(&ray.direction);
        proof {
            lemma_mul_abs_bound(self.radius as int, self.radius as int, COORD_LIMIT as int, COORD_LIMIT as int);
            lemma_mul_abs_bound(oc.x as int, oc.x as int, 2 * COORD_LIMIT as int, 2 * COORD_LIMIT as int);
            lemma_mul_abs_bound(oc.y as int, oc.y as int, 2 * COORD_LIMIT as int, 2 * COORD_LIMIT as int);
            lemma_mul_abs_bound(oc.z as int, oc.z as int, 2 * COORD_LIMIT as int, 2 * COORD_LIMIT as int);
        }
        let c = oc.dot(&oc) - (self.radius as i128) * (self.radius as i128);
        proof {
            lemma_sphere_coeff_bounds(*self, *ray);
            assert(a as int == sph_a(*ray));
            assert(b as int == sph_b(*self, *ray));
            assert(c as int == sph_c(*self, *ray));
            lemma_dot_self_positive(ray.direction);
            lemma_mul_abs_bound(b as int, b as int, 0x1000_0000_0000, 0x1000_0000_0000);
            lemma_mul_abs_bound(a as int, c as int, 0x1000_0000_0000, 0x1000_0000_0000);
        }
        let disc = b * b - a * c;
        if disc < 0 {
            return None;
        }
        let s = isqrt(disc);
        proof {
            assert(disc as int <= 0x1000_0000_0000 * 0x1000_0000_0000 * 2);
            assert(s as int <= 2 * 0x1000_0000_0000) by (nonlinear_arith)
                requires
                    0 <= s as int,
                    (s as int) * (s as int) <= 0x1000_0000_0000 * 0x1000_0000_0000 * 2,
            {
            }
        }
        let near = Frac { num: -b - s, den: a };
        let far = Frac { num: -b + s, den: a };
        proof {
            assert(near.wf() && far.wf());
            assert(near == sph_root(*self, *ray, -1));
            assert(far == sph_root(*self, *ray, 1));
        }
        if t_min.le(&near) && near.le(&t_max) {
            Some(self.make_record(ray, &near))
        } else if t_min.le(&far) && far.le(&t_max) {
            Some(self.make_record(ray, &far))
        } else {
            None
        }
    }

    /// Builds the hit record for a root `t` of the quadratic.
    fn make_record(&self, ray: &Ray, t: &Frac) -> (rec: HitRecord)
        requires
            self.wf(),
            ray.wf(),
            t.wf(),
            abs_le(t.den as int, 0x1000_0000_0000),
        ensures
            sphere_record(*self, *ray, *t, rec),
            rec.wf(),
    {
        let point = ray.at(t);
        proof {
            crate::ray::lemma_at_bounds(*ray, *t);
            lemma_mul_abs_bound(self.center.x as int, t.den as int, COORD_LIMIT as int, 0x1000_0000_0000);
            lemma_mul_abs_bound(self.center.y as int, t.den as int, COORD_LIMIT as int, 0x1000_0000_0000);
            lemma_mul_abs_bound(self.center.z as int, t.den as int, COORD_LIMIT as int, 0x1000_0000_0000);
            lemma_mul_abs_bound(t.den as int, self.radius as int, 0x1000_0000_0000, COORD_LIMIT as int);
            assert(t.den * (self.radius as int) > 0) by (nonlinear_arith)
                requires
                    t.den > 0,
                    self.radius > 0,
            {
            }
        }
        let normal = crate::ray::FracVec {
            nx: point.nx - (self.center.x as i128) * t.den,
            ny: point.ny - (self.center.y as i128) * t.den,
            nz: point.nz - (self.center.z as i128) * t.den,
            den: t.den * (self.radius as i128),
        };
        HitRecord { t: *t, point, normal, material: self.material }
    }

    /// The box `center - (r, r, r)` to `center + (r, r, r)`.
    pub fn bounding_box(&self, t0: &Frac, t1: &Frac) -> (r: Option<AABB>)
        requires
            self.wf(),
        ensures
            r == Some(sphere_box(*self)),
            sphere_box(*self).wf(),
    {
        Some(
            AABB {
                min: Vec3 {
                    x: self.center.x - self.radius,
                    y: self.center.y - self.radius,
                    z: self.center.z - self.radius,
                },
                max: Vec3 {
                    x: self.center.x + self.radius,
                    y: self.center.y + self.radius,
                    z: self.center.z + self.radius,
                },
            },
        )
    }
}

/// The axis-aligned box of a sphere.
pub open spec fn sphere_box(sp: Sphere) -> AABB {
    AABB {
        min: Vec3 {
            x: (sp.center.x - sp.radius) as i64,
            y: (sp.center.y - sp.radius) as i64,
            z: (sp.center.z - sp.radius) as i64,
        },
        max: Vec3 {
            x: (sp.center.x + sp.radius) as i64,
            y: (sp.center.y + sp.radius) as i64,
            z: (sp.center.z + sp.radius) as i64,
        },
    }
}

/// The quadratic's coefficients are small: inputs are bounded by
/// `COORD_LIMIT`, so every product stays below `2^44`.
proof fn lemma_sphere_coeff_bounds(sp: Sphere, ray: Ray)
    requires
        sp.wf(),
        ray.wf(),
    ensures
        abs_le(sph_a(ray), 0x1000_0000_0000),
        abs_le(sph_b(sp, ray), 0x1000_0000_0000),
        abs_le(sph_c(sp, ray), 0x1000_0000_0000),
{
    let cl = COORD_LIMIT as int;
    lemma_mul_abs_bound(ray.direction.x as int, ray.direction.x as int, cl, cl);
    lemma_mul_abs_bound(ray.direction.y as int, ray.direction.y as int, cl, cl);
    lemma_mul_abs_bound(ray.direction.z as int, ray.direction.z as int, cl, cl);
    lemma_mul_abs_bound(ray.origin.x - sp.center.x, ray.direction.x as int, 2 * cl, cl);
    lemma_mul_abs_bound(ray.origin.y - sp.center.y, ray.direction.y as int, 2 * cl, cl);
    lemma_mul_abs_bound(ray.origin.z - sp.center.z, ray.direction.z as int, 2 * cl, cl);
    lemma_mul_abs_bound(ray.origin.x - sp.center.x, ray.origin.x - sp.center.x, 2 * cl, 2 * cl);
    lemma_mul_abs_bound(ray.origin.y - sp.center.y, ray.origin.y - sp.center.y, 2 * cl, 2 * cl);
    lemma_mul_abs_bound(ray.origin.z - sp.center.z, ray.origin.z - sp.center.z, 2 * cl, 2 * cl);
    lemma_mul_abs_bound(sp.radius as int, sp.radius as int, cl, cl);
}

/// A nonnegative integer has a rounded square root, and `sqrt_floor`
/// denotes it.
pub proof fn lemma_sqrt_exists(n: int)
    requires
        n >= 0,
    ensures
        is_sqrt(n, sqrt_floor(n)),
        sqrt_floor(n) >= 0,
    decreases n,
{
    if n == 0 {
        assert(is_sqrt(0, 0));
    } else {
        lemma_sqrt_exists(n - 1);
        let s = sqrt_floor(n - 1);
        if (s + 1) * (s + 1) <= n {
            assert(is_sqrt(n, s + 1)) by (nonlinear_arith)
                requires
                    is_sqrt(n - 1, s),
                    (s + 1) * (s + 1) <= n,
            {
            }
        } else {
            assert(is_sqrt(n, s));
        }
    }
    assert(exists|r: int| is_sqrt(n, r));
}

/// The near root of the sphere quadratic is at most the far root.
pub proof fn lemma_sphere_near_le_far(sp: Sphere, ray: Ray)
    requires
        sp.wf(),
        ray.wf(),
        sph_a(ray) > 0,
        sph_disc(sp, ray) >= 0,
    ensures
        frac_le(sph_root(sp, ray, -1), sph_root(sp, ray, 1)),
        (sph_root(sp, ray, -1)).den > 0,
        (sph_root(sp, ray, 1)).den > 0,
{
    lemma_sphere_root_bounds(sp, ray);
    let s = sqrt_floor(sph_disc(sp, ray));
    let a = sph_a(ray);
    let b = sph_b(sp, ray);
    assert((-1 * s - b) * a <= (1 * s - b) * a) by (nonlinear_arith)
        requires
            s >= 0,
            a > 0,
    {
    }
}

/// The parts of the sphere roots stay inside the fixed-point range, so the
/// casts in `sph_root` are lossless.
pub proof fn lemma_sphere_root_bounds(sp: Sphere, ray: Ray)
    requires
        sp.wf(),
        ray.wf(),
        sph_disc(sp, ray) >= 0,
    ensures
        sqrt_floor(sph_disc(sp, ray)) >= 0,
        sph_root(sp, ray, -1).num == -1 * sqrt_floor(sph_disc(sp, ray)) - sph_b(sp, ray),
        sph_root(sp, ray, 1).num == 1 * sqrt_floor(sph_disc(sp, ray)) - sph_b(sp, ray),
        sph_root(sp, ray, -1).den == sph_a(ray),
        sph_root(sp, ray, 1).den == sph_a(ray),
        sph_root(sp, ray, -1).wf() || sph_a(ray) == 0,
        sph_root(sp, ray, 1).wf() || sph_a(ray) == 0,
{
    lemma_sqrt_exists(sph_disc(sp, ray));
    lemma_sphere_coeff_bounds(sp, ray);
    let s = sqrt_floor(sph_disc(sp, ray));
    let b = sph_b(sp, ray);
    lemma_mul_abs_bound(b, b, 0x1000_0000_0000, 0x1000_0000_0000);
    lemma_mul_abs_bound(sph_a(ray), sph_c(sp, ray), 0x1000_0000_0000, 0x1000_0000_0000);
    assert(s <= 2 * 0x1000_0000_0000) by (nonlinear_arith)
        requires
            0 <= s,
            s * s <= 0x1000_0000_0000 * 0x1000_0000_0000 * 2,
    {
    }
    lemma_dot_self_positive(ray.direction);
}

/// A nonzero vector has positive squared length.
pub proof fn lemma_dot_self_positive(v: Vec3)
    by (nonlinear_arith)
    ensures
        sdot(v, v) >= 0,
        v != Vec3::spec_zero() ==> sdot(v, v) > 0,
{
}

/// Products distribute over a three-term sum.
proof fn lemma_distrib3(u: int, p1: int, p2: int, p3: int)
    by (nonlinear_arith)
    ensures
        u * p1 + u * p2 + u * p3 == u * (p1 + p2 + p3),
{
}

/// Squaring a two-term sum.
proof fn lemma_square_sum(x: int, y: int)
    by (nonlinear_arith)
    ensures
        (x + y) * (x + y) == x * x + 2 * (x * y) + y * y,
{
}

/// A hit record built from an exact root of the quadratic — one whose
/// discriminant is a perfect square — lies exactly on the sphere surface:
/// its normal `(P - C) / r` is a unit vector.
#[verifier::spinoff_prover]
#[verifier::rlimit(100)]
pub proof fn lemma_exact_root_normal_is_unit(
    sp: Sphere,
    ray: Ray,
    rec: HitRecord,
    sgn: int,
)
    requires
        sp.wf(),
        ray.wf(),
        sph_a(ray) > 0,
        sph_disc(sp, ray) >= 0,
        sqrt_floor(sph_disc(sp, ray)) * sqrt_floor(sph_disc(sp, ray)) == sph_disc(sp, ray),
        sgn == 1 || sgn == -1,
        sphere_record(sp, ray, sph_root(sp, ray, sgn), rec),
    ensures
        rec.normal.nx * rec.normal.nx + rec.normal.ny * rec.normal.ny + rec.normal.nz
            * rec.normal.nz == rec.normal.den * rec.normal.den,
{
    lemma_sphere_root_bounds(sp, ray);
    let a = sph_a(ray);
    let b = sph_b(sp, ray);
    let c = sph_c(sp, ray);
    let disc = sph_disc(sp, ray);
    let s = sqrt_floor(disc);
    let tn = sgn * s - b;
    let r = sp.radius as int;
    let t = sph_root(sp, ray, sgn);
    let ox = ray.origin.x - sp.center.x;
    let oy = ray.origin.y - sp.center.y;
    let oz = ray.origin.z - sp.center.z;
    let dx = ray.direction.x as int;
    let dy = ray.direction.y as int;
    let dz = ray.direction.z as int;
    assert(t.num == tn && t.den == a);
    // The normal's components are (oc_i * a + tn * d_i).
    assert((ray.origin.x - sp.center.x) * a == ray.origin.x * a - sp.center.x * a)
        by (nonlinear_arith);
    assert((ray.origin.y - sp.center.y) * a == ray.origin.y * a - sp.center.y * a)
        by (nonlinear_arith);
    assert((ray.origin.z - sp.center.z) * a == ray.origin.z * a - sp.center.z * a)
        by (nonlinear_arith);
    assert(rec.normal.nx == ox * a + tn * dx);
    assert(rec.normal.ny == oy * a + tn * dy);
    assert(rec.normal.nz == oz * a + tn * dz);
    assert(rec.normal.den == a * r);
    // Expand each squared component over the atoms oc_i * a and tn * d_i.
    lemma_square_sum(ox * a, tn * dx);
    lemma_square_sum(oy * a, tn * dy);
    lemma_square_sum(oz * a, tn * dz);
    // Rewrite each atom product into coefficient form.
    assert((ox * a) * (ox * a) == (a * a) * (ox * ox)) by (nonlinear_arith);
    assert((oy * a) * (oy * a) == (a * a) * (oy * oy)) by (nonlinear_arith);
    assert((oz * a) * (oz * a) == (a * a) * (oz * oz)) by (nonlinear_arith);
    assert((ox * a) * (tn * dx) == (a * tn) * (ox * dx)) by (nonlinear_arith);
    assert((oy * a) * (tn * dy) == (a * tn) * (oy * dy)) by (nonlinear_arith);
    assert((oz * a) * (tn * dz) == (a * tn) * (oz * dz)) by (nonlinear_arith);
    assert((tn * dx) * (tn * dx) == (tn * tn) * (dx * dx)) by (nonlinear_arith);
    assert((tn * dy) * (tn * dy) == (tn * tn) * (dy * dy)) by (nonlinear_arith);
    assert((tn * dz) * (tn * dz) == (tn * tn) * (dz * dz)) by (nonlinear_arith);
    // Collect the three sums against the quadratic's coefficients.
    assert(ox * ox + oy * oy + oz * oz == c + r * r);
    assert(ox * dx + oy * dy + oz * dz == b);
    assert(dx * dx + dy * dy + dz * dz == a);
    lemma_distrib3(a * a, ox * ox, oy * oy, oz * oz);
    lemma_distrib3(a * tn, ox * dx, oy * dy, oz * dz);
    lemma_distrib3(tn * tn, dx * dx, dy * dy, dz * dz);
    assert((a * a) * (ox * ox) + (a * a) * (oy * oy) + (a * a) * (oz * oz) == (a * a) * (c + r
        * r));
    assert((a * tn) * (ox * dx) + (a * tn) * (oy * dy) + (a * tn) * (oz * dz) == (a * tn) * b);
    assert((tn * tn) * (dx * dx) + (tn * tn) * (dy * dy) + (tn * tn) * (dz * dz) == (tn * tn)
        * a);
    let total = (a * a) * (c + r * r) + 2 * ((a * tn) * b) + (tn * tn) * a;
    assert(rec.normal.nx * rec.normal.nx + rec.normal.ny * rec.normal.ny + rec.normal.nz
        * rec.normal.nz == total);
    // Reduce the total to (a*r)^2 using the root equation: with s^2 = disc,
    // a*tn^2 + 2*b*tn*a + c*a^2 collapses to zero.
    let sb = (sgn * s) * b;
    assert(tn * tn == s * s - 2 * sb + b * b) by (nonlinear_arith)
        requires
            tn == sgn * s - b,
            sgn == 1 || sgn == -1,
            sb == (sgn * s) * b,
    {
    }
    assert((a * tn) * b == a * (sb - b * b)) by (nonlinear_arith)
        requires
            tn == sgn * s - b,
            sb == (sgn * s) * b,
    {
    }
    assert((a * a) * (c + r * r) == a * (c * a) + (a * r) * (a * r)) by (nonlinear_arith);
    assert((tn * tn) * a == a * (tn * tn)) by (nonlinear_arith);
    assert(a * (tn * tn) == a * (s * s - 2 * sb + b * b)) by (nonlinear_arith)
        requires
            tn * tn == s * s - 2 * sb + b * b,
    {
    }
    assert(2 * (a * (sb - b * b)) == a * (2 * (sb - b * b))) by (nonlinear_arith);
    lemma_distrib3(a, c * a, 2 * (sb - b * b), s * s - 2 * sb + b * b);
    assert(c * a == a * c) by (nonlinear_arith);
    assert(c * a + 2 * (sb - b * b) + (s * s - 2 * sb + b * b) == 0);
    assert(a * (c * a + 2 * (sb - b * b) + (s * s - 2 * sb + b * b)) == 0) by (nonlinear_arith)
        requires
            c * a + 2 * (sb - b * b) + (s * s - 2 * sb + b * b) == 0,
    {
    }
    assert(total == (a * r) * (a * r));
}

/// A tangent ray — discriminant exactly zero — hits exactly once: the two
/// roots coincide at `-b / a`, the record carries that parameter, and the
/// hit point lies exactly on the sphere, so the normal is a unit vector.
pub proof fn lemma_tangent_hit(sp: Sphere, ray: Ray, tmin: Frac, tmax: Frac, rec: HitRecord)
    requires
        sp.wf(),
        ray.wf(),
        sph_disc(sp, ray) == 0,
        sphere_hit_ok(sp, ray, tmin, tmax, rec),
    ensures
        sph_root(sp, ray, -1) == sph_root(sp, ray, 1),
        rec.t.num == -sph_b(sp, ray),
        rec.t.den == sph_a(ray),
        rec.normal.nx * rec.normal.nx + rec.normal.ny * rec.normal.ny + rec.normal.nz
            * rec.normal.nz == rec.normal.den * rec.normal.den,
{
    assert(is_sqrt(0, 0));
    lemma_sqrt_exists(0);
    lemma_sqrt_unique(0, 0, sqrt_floor(0));
    lemma_sphere_root_bounds(sp, ray);
    if in_window(sph_root(sp, ray, -1), tmin, tmax) {
        lemma_exact_root_normal_is_unit(sp, ray, rec, -1);
    } else {
        lemma_exact_root_normal_is_unit(sp, ray, rec, 1);
    }
}

/// A ray from a point at exact integer distance `dd > r` from the center,
/// pointing straight at the center, hits at parameter `(dd - r) / dd` —
/// the distance minus the radius, measured in units of the direction's
/// length — and the reported normal is a unit vector.
pub proof fn lemma_aimed_at_center_hit(
    sp: Sphere,
    ray: Ray,
    tmin: Frac,
    tmax: Frac,
    rec: HitRecord,
    dd: int,
)
    requires
        sp.wf(),
        ray.wf(),
        ray.direction.x == sp.center.x - ray.origin.x,
        ray.direction.y == sp.center.y - ray.origin.y,
        ray.direction.z == sp.center.z - ray.origin.z,
        dd > sp.radius,
        dd * dd == sph_a(ray),
        sphere_hit_ok(sp, ray, tmin, tmax, rec),
        in_window(sph_root(sp, ray, -1), tmin, tmax),
    ensures
        rec.t.num * dd == (dd - sp.radius) * rec.t.den,
        rec.t.den == dd * dd,
        rec.normal.nx * rec.normal.nx + rec.normal.ny * rec.normal.ny + rec.normal.nz
            * rec.normal.nz == rec.normal.den * rec.normal.den,
{
    let a = sph_a(ray);
    let b = sph_b(sp, ray);
    let c = sph_c(sp, ray);
    let disc = sph_disc(sp, ray);
    let r = sp.radius as int;
    let ox = ray.origin.x - sp.center.x;
    let oy = ray.origin.y - sp.center.y;
    let oz = ray.origin.z - sp.center.z;
    let dx = ray.direction.x as int;
    let dy = ray.direction.y as int;
    let dz = ray.direction.z as int;
    assert(a == dx * dx + dy * dy + dz * dz);
    assert(b == ox * dx + oy * dy + oz * dz);
    assert(c == ox * ox + oy * oy + oz * oz - r * r);
    // Pointing at the center makes b = -a and c = a - r^2.
    assert(b == -a && c == a - r * r) by (nonlinear_arith)
        requires
            a == dx * dx + dy * dy + dz * dz,
            b == ox * dx + oy * dy + oz * dz,
            c == ox * ox + oy * oy + oz * oz - r * r,
            dx == -ox,
            dy == -oy,
            dz == -oz,
    {
    }
    // So the discriminant is (dd * r)^2, a perfect square.
    assert(disc == (dd * r) * (dd * r)) by (nonlinear_arith)
        requires
            disc == b * b - a * c,
            b == -a,
            c == a - r * r,
            a == dd * dd,
    {
    }
    assert(dd > 0) by (nonlinear_arith)
        requires
            dd * dd == a,
            a > 0 || dd * dd > 0,
            dd > sp.radius,
            sp.radius > 0,
    {
    }
    assert(is_sqrt((dd * r) * (dd * r), dd * r)) by (nonlinear_arith)
        requires
            dd > 0,
            r > 0,
    {
    }
    crate::sphere::lemma_dot_self_positive(ray.direction);
    lemma_sqrt_unique(disc, dd * r, sqrt_floor(disc));
    lemma_sqrt_exists(disc);
    lemma_sphere_root_bounds(sp, ray);
    assert(rec.t == sph_root(sp, ray, -1));
    assert(rec.t.num == -(1 * (dd * r)) - b);
    assert(rec.t.num * dd == (dd - r) * rec.t.den) by (nonlinear_arith)
        requires
            rec.t.num == -(1 * (dd * r)) - b,
            rec.t.den == a,
            b == -a,
            a == dd * dd,
    {
    }
    assert(sqrt_floor(disc) * sqrt_floor(disc) == disc);
    lemma_exact_root_normal_is_unit(sp, ray, rec, -1);
}

} // verus!
