//! Triangle meshes.
//!
//! A mesh is a flat list of triangles, kept in model coordinates.
//! `insert_in` places a scaled and translated copy of every triangle into
//! a scene, where the acceleration structure then takes over.

use vstd::prelude::*;
use crate::frac::lemma_mul_abs_bound;
use crate::hittable::Hittable;
use crate::scene::Scene;
use crate::triangle::SimpleTriangle;
use crate::vec3::{in_range, Vec3, COORD_LIMIT};

verus! {

/// A vertex scaled by `scale` and translated by `center`, as unbounded
/// integers per coordinate.
pub open spec fn placed_coord(p: int, c: int, scale: int) -> int {
    scale * p + c
}

/// The placed copy of a vertex.
pub open spec fn placed_point(p: Vec3, center: Vec3, scale: int) -> Vec3 {
    Vec3 {
        x: placed_coord(p.x as int, center.x as int, scale) as i64,
        y: placed_coord(p.y as int, center.y as int, scale) as i64,
        z: placed_coord(p.z as int, center.z as int, scale) as i64,
    }
}

/// The placed copy of a triangle.
pub open spec fn placed_triangle(tr: SimpleTriangle, center: Vec3, scale: int) -> SimpleTriangle {
    SimpleTriangle {
        p1: placed_point(tr.p1, center, scale),
        p2: placed_point(tr.p2, center, scale),
        p3: placed_point(tr.p3, center, scale),
        material: tr.material,
    }
}

/// All placed coordinates of a triangle stay inside the fixed-point
/// range.
pub open spec fn placement_fits(tr: SimpleTriangle, center: Vec3, scale: int) -> bool {
    &&& in_range(placed_point(tr.p1, center, scale), COORD_LIMIT as int)
    &&& in_range(placed_point(tr.p2, center, scale), COORD_LIMIT as int)
    &&& in_range(placed_point(tr.p3, center, scale), COORD_LIMIT as int)
}

/// A mesh of flat triangles.
#[derive(Clone, Debug)]
pub struct TriangleMesh {
    pub triangles: Vec<SimpleTriangle>,
}

impl TriangleMesh {
    /// A mesh over the given triangles.
    pub fn new(triangles: Vec<SimpleTriangle>) -> (r: TriangleMesh)
        requires
            forall|i: int| 0 <= i < triangles@.len() ==> (#[trigger] triangles@[i]).wf(),
        ensures
            r.triangles == triangles,
            r.wf(),
    {
        TriangleMesh { triangles }
    }

    /// Well-formed: every triangle is.
    pub open spec fn wf(self) -> bool {
        forall|i: int| 0 <= i < self.triangles@.len() ==> (#[trigger] self.triangles@[i]).wf()
    }

    /// Adds a copy of every triangle, scaled by `scale` and translated to
    /// `center`, to the scene.
    pub fn insert_in(&self, world: &mut Scene, center: Vec3, scale: i64)
        requires
            self.wf(),
            old(world).wf(),
            in_range(center, COORD_LIMIT as int),
            0 < scale <= COORD_LIMIT,
            forall|i: int|
                0 <= i < self.triangles@.len() ==> placement_fits(
                    #[trigger] self.triangles@[i],
                    center,
                    scale as int,
                ),
        ensures
            final(world).wf(),
            final(world).objects_view().len() == old(world).objects_view().len()
                + self.triangles@.len(),
            forall|k: int|
                0 <= k < self.triangles@.len() ==> final(world).objects_view()[old(
                    world,
                ).objects_view().len() + k] == Hittable::SimpleTriangle(
                    placed_triangle(#[trigger] self.triangles@[k], center, scale as int),
                ),
            forall|k: int|
                0 <= k < old(world).objects_view().len() ==> final(world).objects_view()[k] == old(
                    world,
                ).objects_view()[k],
            final(world).tree == old(world).tree,
            final(world).unbounded == old(world).unbounded,
            final(world).lights == old(world).lights,
    {
        let n = self.triangles.len();
        for k in 0..n
            invariant
                n == self.triangles@.len(),
                self.wf(),
                world.wf(),
                in_range(center, COORD_LIMIT as int),
                0 < scale <= COORD_LIMIT,
                forall|i: int|
                    0 <= i < self.triangles@.len() ==> placement_fits(
                        #[trigger] self.triangles@[i],
                        center,
                        scale as int,
                    ),
                world.objects_view().len() == old(world).objects_view().len() + k,
                forall|j: int|
                    0 <= j < k ==> world.objects_view()[old(world).objects_view().len() + j]
                        == Hittable::SimpleTriangle(
                        placed_triangle(#[trigger] self.triangles@[j], center, scale as int),
                    ),
                forall|j: int|
                    0 <= j < old(world).objects_view().len() ==> world.objects_view()[j] == old(
                        world,
                    ).objects_view()[j],
                world.tree == old(world).tree,
                world.unbounded == old(world).unbounded,
                world.lights == old(world).lights,
        {
            let tri = &self.triangles[k];
            proof {
                assert(placement_fits(self.triangles@[k as int], center, scale as int));
            }
            let p1 = place_point(&tri.p1, &center, scale);
            let p2 = place_point(&tri.p2, &center, scale);
            let p3 = place_point(&tri.p3, &center, scale);
            let shifted = SimpleTriangle::new(p1, p2, p3, tri.material);
            world.add(Hittable::SimpleTriangle(shifted));
        }
    }
}

/// One vertex scaled and translated, in checked fixed-point arithmetic.
fn place_point(p: &Vec3, center: &Vec3, scale: i64) -> (r: Vec3)
    requires
        in_range(*p, COORD_LIMIT as int),
        in_range(*center, COORD_LIMIT as int),
        0 < scale <= COORD_LIMIT,
        in_range(placed_point(*p, *center, scale as int), COORD_LIMIT as int),
    ensures
        r == placed_point(*p, *center, scale as int),
        in_range(r, COORD_LIMIT as int),
{
    proof {
        let cl = COORD_LIMIT as int;
        lemma_mul_abs_bound(scale as int, p.x as int, cl, cl);
        lemma_mul_abs_bound(scale as int, p.y as int, cl, cl);
        lemma_mul_abs_bound(scale as int, p.z as int, cl, cl);
    }
    Vec3 {
        x: scale * p.x + center.x,
        y: scale * p.y + center.y,
        z: scale * p.z + center.z,
    }
}

} // verus!
