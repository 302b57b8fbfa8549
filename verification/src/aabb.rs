//! Axis-aligned bounding boxes and the slab intersection test.
//!
//! A box is the product of three closed coordinate intervals.  The slab test
//! narrows the queried parameter window axis by axis and reports a hit
//! exactly when some ray parameter lies strictly inside the narrowed window;
//! its contract states that as an explicit witness characterization, an
//! interval formulation independent of the narrowing order.

use vstd::prelude::*;
use crate::frac::{
    abs_le, frac_le, frac_lt, lemma_frac_le_lt_trans, lemma_frac_lt_le_trans, lemma_frac_total,
    Frac,
};
use crate::ray::Ray;
use crate::vec3::{in_range, Vec3, COORD_LIMIT};

verus! {

/// Largest coordinate magnitude a box corner can reach: the union of boxes
/// of in-range primitives (a sphere corner is `center ± radius`, at most
/// twice `COORD_LIMIT`), with headroom for the one-unit padding that
/// hierarchy nodes add around degenerate boxes.
pub const BOX_LIMIT: i64 = 16384;

/// An axis-aligned box `[min.x, max.x] x [min.y, max.y] x [min.z, max.z]`.
#[derive(Clone, Copy, Debug, PartialEq, Eq, Structural)]
pub struct AABB {
    pub min: Vec3,
    pub max: Vec3,
}

/// The smaller of two coordinates.
pub open spec fn coord_min(a: i64, b: i64) -> i64 {
    if a < b {
        a
    } else {
        b
    }
}

/// The larger of two coordinates.
pub open spec fn coord_max(a: i64, b: i64) -> i64 {
    if a > b {
        a
    } else {
        b
    }
}

/// The smallest box containing both `a` and `b`.
pub open spec fn box_union(a: AABB, b: AABB) -> AABB {
    AABB {
        min: Vec3 {
            x: coord_min(a.min.x, b.min.x),
            y: coord_min(a.min.y, b.min.y),
            z: coord_min(a.min.z, b.min.z),
        },
        max: Vec3 {
            x: coord_max(a.max.x, b.max.x),
            y: coord_max(a.max.y, b.max.y),
            z: coord_max(a.max.z, b.max.z),
        },
    }
}

/// Every point of `inner` lies in `outer`.
pub open spec fn contains_box(outer: AABB, inner: AABB) -> bool {
    &&& outer.min.x <= inner.min.x && inner.max.x <= outer.max.x
    &&& outer.min.y <= inner.min.y && inner.max.y <= outer.max.y
    &&& outer.min.z <= inner.min.z && inner.max.z <= outer.max.z
}

/// At parameter `t` the ray is strictly inside the slab `[lo, hi]` of one
/// axis.  An axis the ray runs parallel to constrains the ray's fixed
/// coordinate instead (its faces count as inside, so a parallel ray on a
/// face is not spuriously rejected).
pub open spec fn axis_strictly_inside(lo: int, hi: int, o: int, d: int, t: Frac) -> bool {
    if d == 0 {
        lo <= o <= hi
    } else {
        lo * t.den < o * t.den + t.num * d < hi * t.den
    }
}

/// `t` witnesses that the slab test of box `b` succeeds on the window
/// `(tmin, tmax)`: it lies strictly inside the window and strictly inside
/// every axis slab.
pub open spec fn slab_witness(b: AABB, ray: Ray, tmin: Frac, tmax: Frac, t: Frac) -> bool {
    &&& t.den > 0
    &&& frac_lt(tmin, t)
    &&& frac_lt(t, tmax)
    &&& axis_strictly_inside(b.min.x as int, b.max.x as int, ray.origin.x as int, ray.direction.x as int, t)
    &&& axis_strictly_inside(b.min.y as int, b.max.y as int, ray.origin.y as int, ray.direction.y as int, t)
    &&& axis_strictly_inside(b.min.z as int, b.max.z as int, ray.origin.z as int, ray.direction.z as int, t)
}

/// The slab test of box `b` succeeds on the window `(tmin, tmax)`: some ray
/// parameter lies strictly inside the window and all three axis slabs.
pub open spec fn aabb_hit(b: AABB, ray: Ray, tmin: Frac, tmax: Frac) -> bool {
    exists|t: Frac| #[trigger] slab_witness(b, ray, tmin, tmax, t)
}

impl AABB {
    /// Well-formed: a nonempty box with in-range corners.
    pub open spec fn wf(self) -> bool {
        &&& self.min.x <= self.max.x
        &&& self.min.y <= self.max.y
        &&& self.min.z <= self.max.z
        &&& in_range(self.min, BOX_LIMIT as int)
        &&& in_range(self.max, BOX_LIMIT as int)
    }

    /// The box with the given corners.
    pub fn new(min: Vec3, max: Vec3) -> (r: AABB)
        ensures
            r == (AABB { min, max }),
    {
        AABB { min, max }
    }

    /// The smallest box containing both arguments.
    pub fn surrounding_box(a: AABB, b: AABB) -> (r: AABB)
        ensures
            r == box_union(a, b),
            a.wf() && b.wf() ==> r.wf(),
    {
        AABB { min: a.min.min_with(&b.min), max: a.max.max_with(&b.max) }
    }

    /// The smallest box containing `self` and `box1`.
    pub fn around(&self, box1: &AABB) -> (r: AABB)
        ensures
            r == box_union(*self, *box1),
            self.wf() && box1.wf() ==> r.wf(),
    {
        AABB::surrounding_box(*self, *box1)
    }

    /// Whether every point of `other` lies in `self`.
    pub fn contains(&self, other: &AABB) -> (r: bool)
        ensures
            r == contains_box(*self, *other),
    {
        self.min.x <= other.min.x && other.max.x <= self.max.x && self.min.y <= other.min.y
            && other.max.y <= self.max.y && self.min.z <= other.min.z && other.max.z <= self.max.z
    }

    /// Slab test: narrow the window `(t_min, t_max)` by the entry and exit
    /// parameters of each axis slab and report whether it stays nonempty.
    pub fn hit(&self, ray: &Ray, t_min: &Frac, t_max: &Frac) -> (res: bool)
        requires
            self.wf(),
            ray.wf(),
            t_min.wf(),
            t_max.wf(),
        ensures
            res == aabb_hit(*self, *ray, *t_min, *t_max),
    {
        let w0 = (*t_min, *t_max);
        let r1 = slab_axis(self.min.x, self.max.x, ray.origin.x, ray.direction.x, w0);
        let w1 = match r1 {
            None => {
                proof {
                    lemma_no_witness_when_axis_empty(*self, *ray, *t_min, *t_max);
                }
                return false;
            },
            Some(w) => w,
        };
        let r2 = slab_axis(self.min.y, self.max.y, ray.origin.y, ray.direction.y, w1);
        let w2 = match r2 {
            None => {
                proof {
                    lemma_no_witness_when_axis_empty(*self, *ray, *t_min, *t_max);
                }
                return false;
            },
            Some(w) => w,
        };
        let r3 = slab_axis(self.min.z, self.max.z, ray.origin.z, ray.direction.z, w2);
        let w3 = match r3 {
            None => {
                proof {
                    lemma_no_witness_when_axis_empty(*self, *ray, *t_min, *t_max);
                }
                return false;
            },
            Some(w) => w,
        };
        let res = w3.0.lt(&w3.1);
        proof {
            if frac_lt(w3.0, w3.1) {
                let mid = frac_mid(w3.0, w3.1);
                lemma_frac_mid_between(w3.0, w3.1);
                assert(frac_lt(w2.0, mid) && frac_lt(mid, w2.1) && axis_strictly_inside(
                    self.min.z as int,
                    self.max.z as int,
                    ray.origin.z as int,
                    ray.direction.z as int,
                    mid,
                ));
                assert(frac_lt(w1.0, mid) && frac_lt(mid, w1.1) && axis_strictly_inside(
                    self.min.y as int,
                    self.max.y as int,
                    ray.origin.y as int,
                    ray.direction.y as int,
                    mid,
                ));
                assert(frac_lt(*t_min, mid) && frac_lt(mid, *t_max) && axis_strictly_inside(
                    self.min.x as int,
                    self.max.x as int,
                    ray.origin.x as int,
                    ray.direction.x as int,
                    mid,
                ));
                assert(slab_witness(*self, *ray, *t_min, *t_max, mid));
            } else {
                if aabb_hit(*self, *ray, *t_min, *t_max) {
                    let t = choose|t: Frac| slab_witness(*self, *ray, *t_min, *t_max, t);
                    assert(frac_lt(w1.0, t) && frac_lt(t, w1.1));
                    assert(frac_lt(w2.0, t) && frac_lt(t, w2.1));
                    assert(frac_lt(w3.0, t) && frac_lt(t, w3.1));
                    lemma_frac_lt_le_trans(w3.0, t, w3.1);
                }
            }
        }
        res
    }
}

/// The midpoint of two fractions.
pub open spec fn frac_mid(a: Frac, b: Frac) -> Frac {
    Frac {
        num: (a.num * b.den + b.num * a.den) as i128,
        den: (2 * a.den * b.den) as i128,
    }
}

/// The midpoint of two well-formed fractions lies strictly between them.
pub proof fn lemma_frac_mid_between(a: Frac, b: Frac)
    requires
        a.wf(),
        b.wf(),
        frac_lt(a, b),
    ensures
        frac_mid(a, b).den > 0,
        frac_lt(a, frac_mid(a, b)),
        frac_lt(frac_mid(a, b), b),
{
    crate::frac::lemma_mul_abs_bound(a.num as int, b.den as int, crate::frac::FRAC_LIMIT as int, crate::frac::FRAC_LIMIT as int);
    crate::frac::lemma_mul_abs_bound(b.num as int, a.den as int, crate::frac::FRAC_LIMIT as int, crate::frac::FRAC_LIMIT as int);
    crate::frac::lemma_mul_abs_bound(
        2 * (a.den as int),
        b.den as int,
        2 * (crate::frac::FRAC_LIMIT as int),
        crate::frac::FRAC_LIMIT as int,
    );
    let n = a.num * b.den + b.num * a.den;
    let d = 2 * a.den * b.den;
    assert(frac_mid(a, b).num == n);
    assert(frac_mid(a, b).den == d);
    assert(d > 0 && a.num * d < n * a.den && n * b.den < b.num * d) by (nonlinear_arith)
        requires
            a.den > 0,
            b.den > 0,
            a.num * b.den < b.num * a.den,
            n == a.num * b.den + b.num * a.den,
            d == 2 * a.den * b.den,
    {
    }
}

/// If some axis slab is empty because the ray runs parallel to it outside
/// the box, no parameter witnesses a slab-test hit.
proof fn lemma_no_witness_when_axis_empty(b: AABB, ray: Ray, tmin: Frac, tmax: Frac)
    requires
        (ray.direction.x == 0 && !(b.min.x <= ray.origin.x <= b.max.x)) || (ray.direction.y == 0
            && !(b.min.y <= ray.origin.y <= b.max.y)) || (ray.direction.z == 0 && !(b.min.z
            <= ray.origin.z <= b.max.z)),
    ensures
        !aabb_hit(b, ray, tmin, tmax),
{
}

/// One step of the slab test.  Returns the window narrowed by the slab of
/// one axis, or `None` when the ray runs parallel to the axis outside the
/// slab.  The strict interior of the returned window is exactly the strict
/// interior of the old window restricted to parameters strictly inside the
/// axis slab.
fn slab_axis(lo: i64, hi: i64, o: i64, d: i64, win: (Frac, Frac)) -> (r: Option<(Frac, Frac)>)
    requires
        abs_le(lo as int, BOX_LIMIT as int),
        abs_le(hi as int, BOX_LIMIT as int),
        abs_le(o as int, COORD_LIMIT as int),
        abs_le(d as int, COORD_LIMIT as int),
        win.0.wf(),
        win.1.wf(),
    ensures
        match r {
            None => d == 0 && !(lo <= o <= hi),
            Some(w) => {
                &&& w.0.wf()
                &&& w.1.wf()
                &&& forall|t: Frac|
                    t.den > 0 && #[trigger] frac_lt(w.0, t) && frac_lt(t, w.1) ==> frac_lt(
                        win.0,
                        t,
                    ) && frac_lt(t, win.1) && axis_strictly_inside(
                        lo as int,
                        hi as int,
                        o as int,
                        d as int,
                        t,
                    )
                &&& forall|t: Frac|
                    t.den > 0 && frac_lt(win.0, t) && frac_lt(t, win.1)
                        && #[trigger] axis_strictly_inside(
                        lo as int,
                        hi as int,
                        o as int,
                        d as int,
                        t,
                    ) ==> frac_lt(w.0, t) && frac_lt(t, w.1)
            },
        },
{
    if d == 0 {
        if o < lo || o > hi {
            return None;
        }
        return Some(win);
    }
    let (alo, ahi) = if d > 0 {
        (
            Frac { num: (lo as i128) - (o as i128), den: d as i128 },
            Frac { num: (hi as i128) - (o as i128), den: d as i128 },
        )
    } else {
        (
            Frac { num: (o as i128) - (hi as i128), den: -(d as i128) },
            Frac { num: (o as i128) - (lo as i128), den: -(d as i128) },
        )
    };
    let nlo = win.0.max(alo);
    let nhi = win.1.min(ahi);
    proof {
        assert forall|t: Frac| t.den > 0 implies ((frac_lt(nlo, t) && frac_lt(t, nhi)) <==> (
        frac_lt(win.0, t) && frac_lt(t, win.1) && axis_strictly_inside(
            lo as int,
            hi as int,
            o as int,
            d as int,
            t,
        ))) by {
            if d > 0 {
                assert((frac_lt(alo, t) && frac_lt(t, ahi)) == axis_strictly_inside(
                    lo as int,
                    hi as int,
                    o as int,
                    d as int,
                    t,
                )) by (nonlinear_arith)
                    requires
                        d > 0,
                        t.den > 0,
                        alo.num == lo - o,
                        alo.den == d,
                        ahi.num == hi - o,
                        ahi.den == d,
                {
                }
            } else {
                assert((frac_lt(alo, t) && frac_lt(t, ahi)) == axis_strictly_inside(
                    lo as int,
                    hi as int,
                    o as int,
                    d as int,
                    t,
                )) by (nonlinear_arith)
                    requires
                        d < 0,
                        t.den > 0,
                        alo.num == o - hi,
                        alo.den == -(d as int),
                        ahi.num == o - lo,
                        ahi.den == -(d as int),
                {
                }
            }
            if frac_lt(nlo, t) && frac_lt(t, nhi) {
                lemma_frac_le_lt_trans(win.0, nlo, t);
                lemma_frac_le_lt_trans(alo, nlo, t);
                lemma_frac_lt_le_trans(t, nhi, win.1);
                lemma_frac_lt_le_trans(t, nhi, ahi);
            }
            if frac_lt(win.0, t) && frac_lt(t, win.1) && frac_lt(alo, t) && frac_lt(t, ahi) {
                assert(frac_lt(nlo, t));
                assert(frac_lt(t, nhi));
            }
        }
    }
    Some((nlo, nhi))
}

/// A box that succeeds the slab test keeps succeeding when it grows.
pub proof fn lemma_aabb_hit_grows(small: AABB, big: AABB, ray: Ray, tmin: Frac, tmax: Frac)
    requires
        contains_box(big, small),
        aabb_hit(small, ray, tmin, tmax),
    ensures
        aabb_hit(big, ray, tmin, tmax),
{
    let t = choose|t: Frac| slab_witness(small, ray, tmin, tmax, t);
    assert(slab_witness(big, ray, tmin, tmax, t)) by {
        lemma_axis_widen(small.min.x as int, small.max.x as int, big.min.x as int, big.max.x as int, ray.origin.x as int, ray.direction.x as int, t);
        lemma_axis_widen(small.min.y as int, small.max.y as int, big.min.y as int, big.max.y as int, ray.origin.y as int, ray.direction.y as int, t);
        lemma_axis_widen(small.min.z as int, small.max.z as int, big.min.z as int, big.max.z as int, ray.origin.z as int, ray.direction.z as int, t);
    }
}

/// Strictly inside a slab stays strictly inside a wider slab.
proof fn lemma_axis_widen(lo: int, hi: int, lo2: int, hi2: int, o: int, d: int, t: Frac)
    by (nonlinear_arith)
    requires
        t.den > 0,
        lo2 <= lo,
        hi <= hi2,
        axis_strictly_inside(lo, hi, o, d, t),
    ensures
        axis_strictly_inside(lo2, hi2, o, d, t),
{
}

/// Box union is commutative.
pub proof fn lemma_union_commutative(a: AABB, b: AABB)
    ensures
        box_union(a, b) == box_union(b, a),
{
}

/// Box union is associative.
pub proof fn lemma_union_associative(a: AABB, b: AABB, c: AABB)
    ensures
        box_union(box_union(a, b), c) == box_union(a, box_union(b, c)),
{
}

/// The union of two boxes contains both.
pub proof fn lemma_union_contains(a: AABB, b: AABB)
    ensures
        contains_box(box_union(a, b), a),
        contains_box(box_union(a, b), b),
{
}

/// Containment of boxes is transitive.
pub proof fn lemma_contains_trans(a: AABB, b: AABB, c: AABB)
    requires
        contains_box(a, b),
        contains_box(b, c),
    ensures
        contains_box(a, c),
{
}

} // verus!
