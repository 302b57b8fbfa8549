use raycore::aabb::AABB;
use raycore::frac::Frac;
use raycore::hittable::Hittable;
use raycore::plane::Plane;
use raycore::ray::Ray;
use raycore::sphere::Sphere;
use raycore::triangle::{SimpleTriangle, Triangle};
use raycore::vec3::Vec3;

fn frac(num: i128, den: i128) -> Frac {
    Frac::new(num, den)
}

fn window() -> (Frac, Frac) {
    (frac(1, 1000), frac(1_000_000, 1))
}

#[test]
fn aabb_hit_agrees_with_interval_test() {
    // A unit-ish box and a ray straight through it.
    let b = AABB::new(Vec3::new(-1, -1, -1), Vec3::new(1, 1, 1));
    let ray = Ray::new(Vec3::new(-5, 0, 0), Vec3::new(1, 0, 0));
    let (tmin, tmax) = window();
    // Per-axis intervals: x in [4, 6]; y and z unconstrained (parallel,
    // origin inside the slab).  Intersection with the window is nonempty.
    assert!(b.hit(&ray, &tmin, &tmax));
    // Narrow window that ends before the box: empty intersection.
    assert!(!b.hit(&ray, &tmin, &frac(3, 1)));
    // Window starting beyond the box: empty intersection.
    assert!(!b.hit(&ray, &frac(7, 1), &tmax));
}

#[test]
fn aabb_parallel_ray_inside_slab_is_not_rejected() {
    let b = AABB::new(Vec3::new(-1, -1, -1), Vec3::new(1, 1, 1));
    // Direction has zero y and z components; the fixed coordinates sit
    // inside (even on) the slab faces, so only x constrains the ray.
    let on_face = Ray::new(Vec3::new(-5, 1, 0), Vec3::new(1, 0, 0));
    let (tmin, tmax) = window();
    assert!(b.hit(&on_face, &tmin, &tmax));
    // A parallel ray outside the slab never hits.
    let outside = Ray::new(Vec3::new(-5, 2, 0), Vec3::new(1, 0, 0));
    assert!(!b.hit(&outside, &tmin, &tmax));
}

#[test]
fn aabb_negative_direction_swaps_slab_bounds() {
    let b = AABB::new(Vec3::new(-1, -1, -1), Vec3::new(1, 1, 1));
    let ray = Ray::new(Vec3::new(5, 0, 0), Vec3::new(-1, 0, 0));
    let (tmin, tmax) = window();
    assert!(b.hit(&ray, &tmin, &tmax));
    assert!(!b.hit(&ray, &tmin, &frac(3, 1)));
}

#[test]
fn union_is_commutative_and_contains_both() {
    let a = AABB::new(Vec3::new(-3, 0, 2), Vec3::new(1, 4, 5));
    let b = AABB::new(Vec3::new(0, -2, 3), Vec3::new(2, 1, 9));
    let u1 = AABB::surrounding_box(a, b);
    let u2 = AABB::surrounding_box(b, a);
    assert_eq!(u1, u2);
    assert!(u1.contains(&a));
    assert!(u1.contains(&b));
    assert_eq!(u1.min, Vec3::new(-3, -2, 2));
    assert_eq!(u1.max, Vec3::new(2, 4, 9));
}

#[test]
fn union_is_associative() {
    let a = AABB::new(Vec3::new(-3, 0, 2), Vec3::new(1, 4, 5));
    let b = AABB::new(Vec3::new(0, -2, 3), Vec3::new(2, 1, 9));
    let c = AABB::new(Vec3::new(-9, 7, -1), Vec3::new(0, 8, 0));
    let left = AABB::surrounding_box(AABB::surrounding_box(a, b), c);
    let right = AABB::surrounding_box(a, AABB::surrounding_box(b, c));
    assert_eq!(left, right);
    assert_eq!(a.around(&b), AABB::surrounding_box(a, b));
}

#[test]
fn sphere_aimed_at_center_hits_at_distance_minus_radius() {
    // Center at distance 5 along -z, radius 2, unit direction: t = 5 - 2.
    let sp = Sphere::new(Vec3::new(0, 0, -5), 2, 7);
    let ray = Ray::new(Vec3::new(0, 0, 0), Vec3::new(0, 0, -1));
    let (tmin, tmax) = window();
    let rec = sp.hit(&ray, &tmin, &tmax).expect("front hit");
    assert_eq!(rec.t.num, 3);
    assert_eq!(rec.t.den, 1);
    assert_eq!(rec.material, 7);
    // Hit point (0, 0, -3).
    assert_eq!(rec.point.nx, 0);
    assert_eq!(rec.point.ny, 0);
    assert_eq!(rec.point.nz, -3);
    assert_eq!(rec.point.den, 1);
    // Normal (P - C) / r = (0, 0, 1): a unit vector.
    assert_eq!(rec.normal.nx, 0);
    assert_eq!(rec.normal.ny, 0);
    assert_eq!(rec.normal.nz, 2);
    assert_eq!(rec.normal.den, 2);
    let unit = rec.normal.nx * rec.normal.nx + rec.normal.ny * rec.normal.ny + rec.normal.nz
        * rec.normal.nz;
    assert_eq!(unit, rec.normal.den * rec.normal.den);
}

#[test]
fn sphere_tangent_ray_hits_exactly_once_at_tangent_point() {
    // Ray along +x grazing the sphere at its pole (0, 0, -3):
    // discriminant exactly zero, one hit, not two, not none.
    let sp = Sphere::new(Vec3::new(0, 0, -5), 2, 1);
    let ray = Ray::new(Vec3::new(-5, 0, -3), Vec3::new(1, 0, 0));
    let (tmin, tmax) = window();
    let rec = sp.hit(&ray, &tmin, &tmax).expect("tangent hit");
    assert_eq!(rec.t.num, 5);
    assert_eq!(rec.t.den, 1);
    assert_eq!((rec.point.nx, rec.point.ny, rec.point.nz, rec.point.den), (0, 0, -3, 1));
    // Beyond the tangent parameter there is no second hit.
    assert!(sp.hit(&ray, &frac(6, 1), &tmax).is_none());
}

#[test]
fn sphere_near_root_below_window_falls_through_to_far_root() {
    // Unit sphere centered at (0, 0, -1), ray from the origin along -z:
    // the near root is t = 0, excluded by t_min = 1/1000, so the far root
    // t = 2 is returned.
    let sp = Sphere::new(Vec3::new(0, 0, -1), 1, 3);
    let ray = Ray::new(Vec3::new(0, 0, 0), Vec3::new(0, 0, -1));
    let (tmin, tmax) = window();
    let rec = sp.hit(&ray, &tmin, &tmax).expect("far hit");
    assert_eq!(rec.t.num, 2);
    assert_eq!(rec.t.den, 1);
    assert_eq!((rec.point.nx, rec.point.ny, rec.point.nz, rec.point.den), (0, 0, -2, 1));
}

#[test]
fn sphere_miss_and_window_rejection() {
    let sp = Sphere::new(Vec3::new(0, 0, -5), 2, 1);
    let (tmin, tmax) = window();
    // A ray pointing away from the sphere.
    let away = Ray::new(Vec3::new(0, 0, 0), Vec3::new(0, 0, 1));
    assert!(sp.hit(&away, &tmin, &tmax).is_none());
    // A ray passing well off the sphere.
    let off = Ray::new(Vec3::new(0, 100, 0), Vec3::new(0, 0, -1));
    assert!(sp.hit(&off, &tmin, &tmax).is_none());
    // The closest hit is at t = 3: a window ending there still finds it,
    // a shorter one rejects it.
    let at = Ray::new(Vec3::new(0, 0, 0), Vec3::new(0, 0, -1));
    assert!(sp.hit(&at, &tmin, &frac(3, 1)).is_some());
    assert!(sp.hit(&at, &tmin, &frac(2, 1)).is_none());
}

#[test]
fn plane_hit_and_parallel_miss() {
    let pl = Plane::new(Vec3::new(0, -2, 0), Vec3::new(0, 1, 0), 9);
    let (tmin, tmax) = window();
    let down = Ray::new(Vec3::new(0, 4, 0), Vec3::new(0, -2, 0));
    let rec = pl.hit(&down, &tmin, &tmax).expect("plane hit");
    // (point - origin).n / (d.n) = -6 / -2 = 3, kept over denominator 2.
    assert_eq!(rec.t.num, 3 * rec.t.den);
    assert!(rec.t.den > 0);
    assert_eq!((rec.normal.nx, rec.normal.ny, rec.normal.nz, rec.normal.den), (0, 1, 0, 1));
    assert_eq!(rec.material, 9);
    let parallel = Ray::new(Vec3::new(0, 4, 0), Vec3::new(1, 0, 0));
    assert!(pl.hit(&parallel, &tmin, &tmax).is_none());
    assert!(pl.bounding_box(&tmin, &tmax).is_none());
}

#[test]
fn triangle_centroid_ray_has_equal_barycentric_weights() {
    // Centroid of (0,-3,0), (3,3,0), (-3,3,0) is (0,1,0); the ray goes
    // through it perpendicular to the triangle plane.
    let tr = SimpleTriangle::new(
        Vec3::new(0, -3, 0),
        Vec3::new(3, 3, 0),
        Vec3::new(-3, 3, 0),
        5,
    );
    let ray = Ray::new(Vec3::new(0, 1, 3), Vec3::new(0, 0, -1));
    let (tmin, tmax) = window();
    let rec = tr.hit(&ray, &tmin, &tmax).expect("centroid hit");
    assert_eq!(rec.t.num, 108);
    assert_eq!(rec.t.den, 36);
    // The flat normal is the exact edge cross product e1 x e2, here a
    // positive multiple of (0, 0, 1).
    assert_eq!((rec.normal.nx, rec.normal.ny, rec.normal.nz, rec.normal.den), (0, 0, 36, 1));
    assert_eq!(rec.material, 5);
}

#[test]
fn triangle_interpolated_normal_blends_with_thirds_at_centroid() {
    // With vertex normals along the three coordinate axes, the blend at
    // the centroid is (1/3, 1/3, 1/3): all numerators equal, each a third
    // of the denominator.
    let tr = Triangle::new(
        Vec3::new(0, -3, 0),
        Vec3::new(3, 3, 0),
        Vec3::new(-3, 3, 0),
        Vec3::new(1, 0, 0),
        Vec3::new(0, 1, 0),
        Vec3::new(0, 0, 1),
        5,
    );
    let ray = Ray::new(Vec3::new(0, 1, 3), Vec3::new(0, 0, -1));
    let (tmin, tmax) = window();
    let rec = tr.hit(&ray, &tmin, &tmax).expect("centroid hit");
    assert_eq!(rec.t.num, 108);
    assert_eq!(rec.t.den, 36);
    assert_eq!(rec.normal.nx, rec.normal.ny);
    assert_eq!(rec.normal.ny, rec.normal.nz);
    assert_eq!(3 * rec.normal.nx, rec.normal.den);
    assert!(rec.normal.den > 0);
}

#[test]
fn triangle_rejects_outside_and_degenerate() {
    let tr = SimpleTriangle::new(
        Vec3::new(0, -3, 0),
        Vec3::new(3, 3, 0),
        Vec3::new(-3, 3, 0),
        5,
    );
    let (tmin, tmax) = window();
    // Misses outside the triangle.
    let off = Ray::new(Vec3::new(100, 1, 3), Vec3::new(0, 0, -1));
    assert!(tr.hit(&off, &tmin, &tmax).is_none());
    // Parallel to the plane.
    let parallel = Ray::new(Vec3::new(0, 1, 3), Vec3::new(1, 0, 0));
    assert!(tr.hit(&parallel, &tmin, &tmax).is_none());
    // A degenerate (collinear) triangle never hits.
    let degenerate = SimpleTriangle::new(
        Vec3::new(0, 0, 0),
        Vec3::new(1, 1, 0),
        Vec3::new(2, 2, 0),
        5,
    );
    let through = Ray::new(Vec3::new(1, 1, 3), Vec3::new(0, 0, -1));
    assert!(degenerate.hit(&through, &tmin, &tmax).is_none());
    // The bounding box is the componentwise extrema of the vertices.
    let bb = tr.bounding_box(&tmin, &tmax).expect("bounded");
    assert_eq!(bb.min, Vec3::new(-3, -3, 0));
    assert_eq!(bb.max, Vec3::new(3, 3, 0));
}

#[test]
fn hittable_dispatch_matches_primitives() {
    let sp = Sphere::new(Vec3::new(0, 0, -5), 2, 7);
    let ray = Ray::new(Vec3::new(0, 0, 0), Vec3::new(0, 0, -1));
    let (tmin, tmax) = window();
    let direct = sp.hit(&ray, &tmin, &tmax);
    let via_enum = Hittable::Sphere(sp).hit(&ray, &tmin, &tmax);
    assert_eq!(direct, via_enum);
    let bb = Hittable::Sphere(sp).bounding_box(&tmin, &tmax).expect("bounded");
    assert_eq!(bb.min, Vec3::new(-2, -2, -7));
    assert_eq!(bb.max, Vec3::new(2, 2, -3));
}

#[test]
fn frac_comparisons_are_exact() {
    let a = frac(1, 3);
    let b = frac(2, 6);
    let c = frac(1, 2);
    assert!(a.eqv(&b));
    assert!(a.lt(&c));
    assert!(a.le(&c));
    assert!(!c.le(&a));
    let d = Frac::new(-3, -6);
    assert!(d.eqv(&c));
    assert!(d.den > 0);
    assert_eq!(Frac::from_int(4).num, 4);
}
