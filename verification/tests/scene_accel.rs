use raycore::bvh::BVH;
use raycore::frac::Frac;
use raycore::hittable::{hit_list, Hittable};
use raycore::light::{AreaLight, Light, PointLight};
use raycore::mesh::TriangleMesh;
use raycore::plane::Plane;
use raycore::ray::Ray;
use raycore::scene::Scene;
use raycore::sphere::Sphere;
use raycore::triangle::SimpleTriangle;
use raycore::vec3::Vec3;

fn frac(num: i128, den: i128) -> Frac {
    Frac::new(num, den)
}

fn window() -> (Frac, Frac) {
    (frac(1, 1000), frac(1_000_000, 1))
}

fn sample_shapes() -> Vec<Hittable> {
    let mut shapes = Vec::new();
    for k in 0..6i64 {
        shapes.push(Hittable::Sphere(Sphere::new(
            Vec3::new(4 * k - 12, 0, -8),
            1,
            k as u64,
        )));
    }
    shapes.push(Hittable::Sphere(Sphere::new(Vec3::new(0, 0, -20), 3, 100)));
    shapes.push(Hittable::SimpleTriangle(SimpleTriangle::new(
        Vec3::new(-2, -2, -14),
        Vec3::new(2, -2, -14),
        Vec3::new(0, 2, -14),
        200,
    )));
    shapes
}

fn sample_rays() -> Vec<Ray> {
    vec![
        Ray::new(Vec3::new(0, 0, 0), Vec3::new(0, 0, -1)),
        Ray::new(Vec3::new(-12, 0, 0), Vec3::new(0, 0, -1)),
        Ray::new(Vec3::new(8, 0, 0), Vec3::new(0, 0, -1)),
        Ray::new(Vec3::new(0, 0, 0), Vec3::new(1, 0, -8)),
        Ray::new(Vec3::new(0, 0, 0), Vec3::new(0, 1, 0)),
        Ray::new(Vec3::new(-20, 0, -8), Vec3::new(1, 0, 0)),
        Ray::new(Vec3::new(0, 0, -30), Vec3::new(0, 0, 1)),
    ]
}

#[test]
fn bvh_query_equals_linear_scan() {
    // The acceleration-correctness scenario: for every sample ray and
    // several windows, the hierarchy and the brute-force scan return the
    // same record.
    let shapes = sample_shapes();
    let tree = BVH::build(shapes.clone(), &frac(0, 1), &frac(0, 1));
    let (tmin, tmax) = window();
    for ray in sample_rays() {
        let fast = tree.hit(&ray, &tmin, &tmax);
        let slow = hit_list(&shapes, &ray, &tmin, &tmax);
        assert_eq!(fast, slow);
        let fast_short = tree.hit(&ray, &tmin, &frac(10, 1));
        let slow_short = hit_list(&shapes, &ray, &tmin, &frac(10, 1));
        assert_eq!(fast_short, slow_short);
    }
}

#[test]
fn bvh_single_and_double_leaf_trees() {
    let one = vec![Hittable::Sphere(Sphere::new(Vec3::new(0, 0, -5), 2, 1))];
    let tree = BVH::build(one.clone(), &frac(0, 1), &frac(0, 1));
    let (tmin, tmax) = window();
    let ray = Ray::new(Vec3::new(0, 0, 0), Vec3::new(0, 0, -1));
    assert_eq!(tree.hit(&ray, &tmin, &tmax), hit_list(&one, &ray, &tmin, &tmax));

    let two = vec![
        Hittable::Sphere(Sphere::new(Vec3::new(0, 0, -5), 2, 1)),
        Hittable::Sphere(Sphere::new(Vec3::new(0, 0, -12), 2, 2)),
    ];
    let tree2 = BVH::build(two.clone(), &frac(0, 1), &frac(0, 1));
    let rec = tree2.hit(&ray, &tmin, &tmax).expect("front sphere");
    assert_eq!(rec.material, 1);
    assert_eq!(rec.t.num, 3);
    assert_eq!(rec.t.den, 1);
    // Behind the first sphere the second one is found.
    let rec2 = tree2.hit(&ray, &frac(8, 1), &tmax).expect("back sphere");
    assert_eq!(rec2.material, 2);
    assert_eq!(rec2.t.num, 10);
}

#[test]
fn bvh_bounding_box_covers_scene() {
    let shapes = sample_shapes();
    let tree = BVH::build(shapes, &frac(0, 1), &frac(0, 1));
    let bb = tree.bounding_box();
    assert!(bb.min.x <= -13 && bb.max.x >= 9);
    assert!(bb.min.z <= -23 && bb.max.z >= -7);
}

#[test]
fn scene_end_to_end_single_sphere() {
    // A scene with one unit sphere at (0, 0, -1) queried from the origin
    // along -z with the t_min = 1/1000 convention: the near root t = 0 is
    // excluded and the far root t = 2 is reported.
    let mut world = Scene::new();
    world.add(Hittable::Sphere(Sphere::new(Vec3::new(0, 0, -1), 1, 42)));
    world.accelerate(&frac(0, 1), &frac(0, 1));
    let (tmin, tmax) = window();
    let ray = Ray::new(Vec3::new(0, 0, 0), Vec3::new(0, 0, -1));
    let rec = world.hit(&ray, &tmin, &tmax).expect("sphere hit");
    assert_eq!(rec.t.num, 2);
    assert_eq!(rec.t.den, 1);
    assert_eq!(rec.material, 42);
}

#[test]
fn scene_accelerate_keeps_unbounded_shapes() {
    // The plane cannot enter the hierarchy; it must still be hit after
    // acceleration.
    let mut world = Scene::new();
    world.add(Hittable::Sphere(Sphere::new(Vec3::new(0, 0, -5), 1, 1)));
    world.add(Hittable::Plane(Plane::new(Vec3::new(0, -3, 0), Vec3::new(0, 1, 0), 2)));
    world.accelerate(&frac(0, 1), &frac(0, 1));
    let (tmin, tmax) = window();
    let down = Ray::new(Vec3::new(0, 0, 0), Vec3::new(0, -1, 0));
    let rec = world.hit(&down, &tmin, &tmax).expect("plane hit");
    assert_eq!(rec.material, 2);
    assert_eq!(rec.t.num, 3);
    // The sphere still shadows the plane along -z.
    let fwd = Ray::new(Vec3::new(0, 0, 0), Vec3::new(0, 0, -1));
    let rec2 = world.hit(&fwd, &tmin, &tmax).expect("sphere hit");
    assert_eq!(rec2.material, 1);
}

#[test]
fn scene_hit_matches_scan_before_and_after_acceleration() {
    let shapes = sample_shapes();
    let mut world = Scene::new();
    for s in &shapes {
        world.add(*s);
    }
    let (tmin, tmax) = window();
    let before: Vec<_> = sample_rays()
        .into_iter()
        .map(|r| world.hit(&r, &tmin, &tmax))
        .collect();
    world.accelerate(&frac(0, 1), &frac(0, 1));
    let after: Vec<_> = sample_rays()
        .into_iter()
        .map(|r| world.hit(&r, &tmin, &tmax))
        .collect();
    for (r, (b, a)) in sample_rays().iter().zip(before.iter().zip(after.iter())) {
        let scan = hit_list(&shapes, r, &tmin, &tmax);
        assert_eq!(*b, scan);
        assert_eq!(*a, scan);
    }
}

#[test]
fn scene_clear_removes_shapes_but_keeps_lights() {
    let mut world = Scene::new();
    world.add(Hittable::Sphere(Sphere::new(Vec3::new(0, 0, -5), 1, 1)));
    world.add_light(PointLight::new(Vec3::new(-10, -10, -10), Vec3::new(1, 1, 1)));
    world.clear();
    let (tmin, tmax) = window();
    let ray = Ray::new(Vec3::new(0, 0, 0), Vec3::new(0, 0, -1));
    assert!(world.hit(&ray, &tmin, &tmax).is_none());
    assert_eq!(world.lights.len(), 1);
}

#[test]
fn mesh_insert_scales_and_translates() {
    let tri = SimpleTriangle::new(
        Vec3::new(0, -1, 0),
        Vec3::new(1, 1, 0),
        Vec3::new(-1, 1, 0),
        8,
    );
    let mesh = TriangleMesh::new(vec![tri]);
    let mut world = Scene::new();
    mesh.insert_in(&mut world, Vec3::new(0, 1, -14), 3);
    world.accelerate(&frac(0, 1), &frac(0, 1));
    let (tmin, tmax) = window();
    // The placed triangle has vertices (0,-2,-14), (3,4,-14), (-3,4,-14);
    // a ray through its interior hits it.
    let ray = Ray::new(Vec3::new(0, 1, 0), Vec3::new(0, 0, -1));
    let rec = world.hit(&ray, &tmin, &tmax).expect("mesh hit");
    assert_eq!(rec.material, 8);
    assert_eq!(rec.t.num, 14 * rec.t.den);
}

#[test]
fn lights_carry_position_and_color() {
    let p = PointLight::new(Vec3::new(1, 2, 3), Vec3::new(9, 9, 9));
    assert_eq!(p.position, Vec3::new(1, 2, 3));
    assert_eq!(p.color, Vec3::new(9, 9, 9));
    let a = AreaLight::new(Vec3::new(4, 5, 6), Vec3::new(7, 7, 7));
    assert_eq!(a.position, Vec3::new(4, 5, 6));
    let l = Light::new(Vec3::new(1, 2, 3), Vec3::new(9, 9, 9));
    assert!(matches!(l, Light::Point(_)));
}

#[test]
fn ray_at_evaluates_exactly() {
    let ray = Ray::new(Vec3::new(1, 2, 3), Vec3::new(0, 0, -2));
    let p = ray.at(&frac(7, 2));
    assert_eq!((p.nx, p.ny, p.nz, p.den), (2, 4, -8, 2));
}

#[test]
fn scene_bounding_box_is_exact_union_or_absent() {
    let mut world = Scene::new();
    world.add(Hittable::Sphere(Sphere::new(Vec3::new(0, 0, -5), 2, 1)));
    world.add(Hittable::Sphere(Sphere::new(Vec3::new(6, 1, -9), 1, 2)));
    let (tmin, tmax) = window();
    // The exact union of the two sphere boxes, no padding.
    let bb = world.bounding_box(&tmin, &tmax).expect("all shapes bounded");
    assert_eq!(bb.min, Vec3::new(-2, -2, -10));
    assert_eq!(bb.max, Vec3::new(7, 2, -3));
    // After acceleration the union is unchanged.
    world.accelerate(&frac(0, 1), &frac(0, 1));
    let bb2 = world.bounding_box(&tmin, &tmax).expect("still bounded");
    assert_eq!(bb2.min, Vec3::new(-2, -2, -10));
    assert_eq!(bb2.max, Vec3::new(7, 2, -3));
    // A plane makes the scene unbounded.
    world.add(Hittable::Plane(Plane::new(Vec3::new(0, -3, 0), Vec3::new(0, 1, 0), 3)));
    assert!(world.bounding_box(&tmin, &tmax).is_none());
    // An empty scene has no box.
    assert!(Scene::new().bounding_box(&tmin, &tmax).is_none());
}

#[test]
fn bvh_finds_flat_coplanar_triangles() {
    // A wall of coplanar axis-aligned triangles has zero-thickness boxes;
    // the one-unit node padding keeps the strict slab test from pruning
    // them, so the hierarchy agrees with the linear scan.
    let mut wall = Vec::new();
    for k in 0..4i64 {
        let x0 = 4 * k - 8;
        wall.push(Hittable::SimpleTriangle(SimpleTriangle::new(
            Vec3::new(x0, -2, -9),
            Vec3::new(x0 + 4, -2, -9),
            Vec3::new(x0 + 2, 2, -9),
            k as u64,
        )));
    }
    let tree = BVH::build(wall.clone(), &frac(0, 1), &frac(0, 1));
    let (tmin, tmax) = window();
    for x in [-7i64, -3, 1, 5] {
        let ray = Ray::new(Vec3::new(x, 0, 0), Vec3::new(0, 0, -1));
        let fast = tree.hit(&ray, &tmin, &tmax);
        let slow = hit_list(&wall, &ray, &tmin, &tmax);
        assert_eq!(fast, slow);
        assert!(fast.is_some());
        assert_eq!(fast.unwrap().t.num, 9 * fast.unwrap().t.den);
    }
    // Duplicated shapes stay duplicated: a tree over two copies of one
    // triangle still reports the hit.
    let twice = vec![wall[0], wall[0]];
    let tree2 = BVH::build(twice.clone(), &frac(0, 1), &frac(0, 1));
    let ray = Ray::new(Vec3::new(-7, 0, 0), Vec3::new(0, 0, -1));
    assert_eq!(tree2.hit(&ray, &tmin, &tmax), hit_list(&twice, &ray, &tmin, &tmax));
}
