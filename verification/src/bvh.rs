//! The bounding volume hierarchy.
//!
//! A binary tree over boundable shapes, built by median split on the axis
//! of greatest extent.  Every interior node carries the union of its
//! subtree's bounding boxes, padded outward by one fixed-point unit: a
//! degenerate (zero-thickness) union — a flat axis-aligned triangle, or a
//! group of coplanar ones — would otherwise never pass the strict slab
//! test, and its shapes would vanish from accelerated queries.  Traversal
//! prunes a subtree when the slab test rejects its box, queries the left
//! child first and tightens the window with the left hit before querying
//! the right child.
//!
//! The traversal contract is the acceleration-correctness statement: any
//! returned record is the hit of some shape in the tree, and no shape
//! whose hit is robust — strictly inside the window, with a box the slab
//! test cannot reject on any arising window — hits closer than the
//! returned record.  `lemma_bvh_matches_scan` turns that into agreement
//! with the brute-force linear scan.

use vstd::prelude::*;
use vstd::multiset::Multiset;
use crate::aabb::{aabb_hit, box_union, contains_box, lemma_aabb_hit_grows, AABB};
use crate::frac::{
    frac_eqv, frac_le, frac_lt, lemma_frac_le_trans, lemma_frac_lt_le_trans, lemma_frac_total,
    Frac,
};
use crate::hittable::{
    lemma_hit_deterministic, lemma_hit_exclusive, lemma_hit_narrow, lemma_hit_widen,
    lemma_hit_window, HitRecord, Hittable,
};
use crate::ray::Ray;

verus! {

/// A lower box bound moved outward by one unit, clamped to the
/// representable range.
pub open spec fn pad_lo(x: i64) -> i64 {
    if x > -crate::aabb::BOX_LIMIT {
        (x - 1) as i64
    } else {
        x
    }
}

/// An upper box bound moved outward by one unit, clamped to the
/// representable range.
pub open spec fn pad_hi(x: i64) -> i64 {
    if x < crate::aabb::BOX_LIMIT {
        (x + 1) as i64
    } else {
        x
    }
}

/// The box grown by one unit in every direction.  Interior nodes store the
/// padded union of their children's boxes, so a node box is never
/// degenerate and the strict slab test cannot spuriously reject a subtree
/// of flat shapes.
pub open spec fn pad_box(b: AABB) -> AABB {
    AABB {
        min: crate::vec3::Vec3 { x: pad_lo(b.min.x), y: pad_lo(b.min.y), z: pad_lo(b.min.z) },
        max: crate::vec3::Vec3 { x: pad_hi(b.max.x), y: pad_hi(b.max.y), z: pad_hi(b.max.z) },
    }
}

/// Padding only grows a box.
pub proof fn lemma_pad_contains(b: AABB)
    ensures
        contains_box(pad_box(b), b),
{
}

/// Padding preserves containment.
pub proof fn lemma_pad_monotone(inner: AABB, outer: AABB)
    requires
        contains_box(outer, inner),
    ensures
        contains_box(pad_box(outer), pad_box(inner)),
{
}

/// The box grown by one unit in every direction, as an executable value.
fn pad_box_of(b: &AABB) -> (r: AABB)
    requires
        b.wf(),
    ensures
        r == pad_box(*b),
        r.wf(),
{
    AABB {
        min: crate::vec3::Vec3 {
            x: if b.min.x > -crate::aabb::BOX_LIMIT { b.min.x - 1 } else { b.min.x },
            y: if b.min.y > -crate::aabb::BOX_LIMIT { b.min.y - 1 } else { b.min.y },
            z: if b.min.z > -crate::aabb::BOX_LIMIT { b.min.z - 1 } else { b.min.z },
        },
        max: crate::vec3::Vec3 {
            x: if b.max.x < crate::aabb::BOX_LIMIT { b.max.x + 1 } else { b.max.x },
            y: if b.max.y < crate::aabb::BOX_LIMIT { b.max.y + 1 } else { b.max.y },
            z: if b.max.z < crate::aabb::BOX_LIMIT { b.max.z + 1 } else { b.max.z },
        },
    }
}

/// A node of the hierarchy: a leaf wrapping one boundable shape, or an
/// interior node owning two subtrees and the padded union of their boxes.
pub enum BVH {
    Leaf(Hittable),
    Node { left: Box<BVH>, right: Box<BVH>, bbox: AABB },
}

impl BVH {
    /// The shapes stored in the subtree, left to right.
    pub open spec fn prims(self) -> Seq<Hittable>
        decreases self,
    {
        match self {
            BVH::Leaf(p) => seq![p],
            BVH::Node { left, right, bbox } => left.prims() + right.prims(),
        }
    }

    /// The box of the subtree: a leaf's shape box, or the stored padded
    /// union.
    pub open spec fn bbox_spec(self) -> AABB {
        match self {
            BVH::Leaf(p) => p.bbox(),
            BVH::Node { left, right, bbox } => bbox,
        }
    }

    /// Well-formed: leaves hold well-formed boundable shapes and every
    /// interior box is exactly the one-unit-padded union of its children's
    /// boxes.
    pub open spec fn wf(self) -> bool
        decreases self,
    {
        match self {
            BVH::Leaf(p) => p.wf() && p.boundable(),
            BVH::Node { left, right, bbox } => left.wf() && right.wf() && bbox == pad_box(
                box_union(left.bbox_spec(), right.bbox_spec()),
            ) && bbox.wf(),
        }
    }

    /// The subtree's box, as an executable value.
    pub fn bounding_box(&self) -> (r: AABB)
        requires
            self.wf(),
        ensures
            r == self.bbox_spec(),
            r.wf(),
    {
        match self {
            BVH::Leaf(p) => {
                let t0 = Frac::from_int(0);
                match p.bounding_box(&t0, &t0) {
                    Some(b) => b,
                    None => vstd::pervasive::unreached(),
                }
            },
            BVH::Node { left, right, bbox } => *bbox,
        }
    }

    /// The exact union of the shapes' own boxes in the subtree, without
    /// the nodes' one-unit padding.
    pub fn tight_box(&self) -> (r: AABB)
        requires
            self.wf(),
        ensures
            r == boxes_union(self.prims()),
            r.wf(),
        decreases *self,
    {
        match self {
            BVH::Leaf(p) => {
                let t0 = Frac::from_int(0);
                let b = match p.bounding_box(&t0, &t0) {
                    Some(b) => b,
                    None => vstd::pervasive::unreached(),
                };
                proof {
                    assert(self.prims()[0] == *p);
                }
                b
            },
            BVH::Node { left, right, bbox } => {
                let bl = left.tight_box();
                let br = right.tight_box();
                proof {
                    lemma_bvh_covers(**left);
                    lemma_bvh_covers(**right);
                    lemma_boxes_union_concat(left.prims(), right.prims());
                }
                bl.around(&br)
            },
        }
    }
}

/// Every shape box in a well-formed subtree is contained in the subtree's
/// box; under an interior node, even the padded shape box is.
pub proof fn lemma_bvh_covers(t: BVH)
    requires
        t.wf(),
    ensures
        forall|i: int|
            0 <= i < t.prims().len() ==> contains_box(t.bbox_spec(), (#[trigger] t.prims()[i]).bbox()),
        t is Node ==> forall|i: int|
            0 <= i < t.prims().len() ==> contains_box(
                t.bbox_spec(),
                pad_box((#[trigger] t.prims()[i]).bbox()),
            ),
        forall|i: int| 0 <= i < t.prims().len() ==> (#[trigger] t.prims()[i]).wf(),
        forall|i: int| 0 <= i < t.prims().len() ==> (#[trigger] t.prims()[i]).boundable(),
        t.prims().len() >= 1,
    decreases t,
{
    match t {
        BVH::Leaf(p) => {},
        BVH::Node { left, right, bbox } => {
            lemma_bvh_covers(*left);
            lemma_bvh_covers(*right);
            let u = box_union(left.bbox_spec(), right.bbox_spec());
            assert forall|i: int| 0 <= i < t.prims().len() implies contains_box(
                t.bbox_spec(),
                pad_box((#[trigger] t.prims()[i]).bbox()),
            ) && contains_box(t.bbox_spec(), (t.prims()[i]).bbox()) && (t.prims()[i]).wf() && (
            t.prims()[i]).boundable() by {
                crate::aabb::lemma_union_contains(left.bbox_spec(), right.bbox_spec());
                lemma_pad_contains(u);
                let (child, k) = if i < left.prims().len() {
                    (*left, i)
                } else {
                    (*right, i - left.prims().len())
                };
                let p = child.prims()[k];
                assert(t.prims()[i] == p);
                // The child's box sits inside the union, so its padding
                // sits inside the node's padded union.
                lemma_pad_monotone(child.bbox_spec(), u);
                match child {
                    BVH::Leaf(q) => {
                        // The leaf's box is the shape's own box.
                        assert(contains_box(pad_box(u), pad_box(p.bbox())));
                    },
                    BVH::Node { .. } => {
                        // The child already contains the padded shape box.
                        crate::aabb::lemma_contains_trans(
                            pad_box(u),
                            child.bbox_spec(),
                            pad_box(p.bbox()),
                        );
                    },
                }
                crate::aabb::lemma_contains_trans(bbox, child.bbox_spec(), p.bbox());
            }
        },
    }
}

/// A shape's hit is robust on a window when it lies strictly inside the
/// window and the shape's padded box passes the slab test on every window
/// that starts at `tmin` and ends strictly beyond the hit.  Robust hits
/// are exactly the hits that window tightening can never prune; thanks to
/// the padding, the condition is satisfiable even for flat shapes.
pub open spec fn robust_hit(p: Hittable, ray: Ray, tmin: Frac, tmax: Frac, rec: HitRecord) -> bool {
    &&& p.hit_ok(ray, tmin, tmax, rec)
    &&& frac_lt(tmin, rec.t)
    &&& frac_lt(rec.t, tmax)
    &&& forall|w: Frac|
        w.den > 0 && frac_lt(rec.t, w) && frac_le(w, tmax) ==> #[trigger] aabb_hit(
            pad_box(p.bbox()),
            ray,
            tmin,
            w,
        )
}

impl BVH {
    /// Closest intersection in the subtree: prune on the node box, query
    /// the left child, tighten the window with its hit, then query the
    /// right child and keep the closer record.
    pub fn hit(&self, ray: &Ray, t_min: &Frac, t_max: &Frac) -> (r: Option<HitRecord>)
        requires
            self.wf(),
            ray.wf(),
            t_min.wf(),
            t_max.wf(),
        ensures
            match r {
                None => true,
                Some(rec) => {
                    &&& rec.wf()
                    &&& exists|i: int|
                        0 <= i < self.prims().len() && (#[trigger] self.prims()[i]).hit_ok(
                            *ray,
                            *t_min,
                            *t_max,
                            rec,
                        )
                },
            },
            forall|i: int, rc: HitRecord|
                0 <= i < self.prims().len() && #[trigger] robust_hit(
                    self.prims()[i],
                    *ray,
                    *t_min,
                    *t_max,
                    rc,
                ) ==> r is Some && frac_le(r->0.t, rc.t),
        decreases *self,
    {
        match self {
            BVH::Leaf(p) => {
                let res = p.hit(ray, t_min, t_max);
                proof {
                    if let Some(rec) = res {
                        assert(self.prims()[0] == *p);
                    }
                    assert forall|i: int, rc: HitRecord|
                        0 <= i < self.prims().len() && #[trigger] robust_hit(
                            self.prims()[i],
                            *ray,
                            *t_min,
                            *t_max,
                            rc,
                        ) implies res is Some && frac_le(res->0.t, rc.t) by {
                        assert(self.prims()[i] == *p);
                        if let Some(rec) = res {
                            lemma_hit_deterministic(*p, *ray, *t_min, *t_max, rec, rc);
                        } else {
                            lemma_hit_exclusive(*p, *ray, *t_min, *t_max, rc);
                        }
                    }
                }
                res
            },
            BVH::Node { left, right, bbox } => {
                proof {
                    lemma_bvh_covers(*self);
                }
                if !bbox.hit(ray, t_min, t_max) {
                    proof {
                        assert forall|i: int, rc: HitRecord|
                            0 <= i < self.prims().len() && #[trigger] robust_hit(
                                self.prims()[i],
                                *ray,
                                *t_min,
                                *t_max,
                                rc,
                            ) implies Option::<HitRecord>::None is Some by {
                            assert(aabb_hit(pad_box(self.prims()[i].bbox()), *ray, *t_min, *t_max));
                            lemma_aabb_hit_grows(
                                pad_box(self.prims()[i].bbox()),
                                *bbox,
                                *ray,
                                *t_min,
                                *t_max,
                            );
                        }
                    }
                    return None;
                }
                let lres = left.hit(ray, t_min, t_max);
                match lres {
                    None => {
                        let rres = right.hit(ray, t_min, t_max);
                        proof {
                            lemma_node_result(
                                *self,
                                *ray,
                                *t_min,
                                *t_max,
                                *t_max,
                                lres,
                                rres,
                                rres,
                            );
                        }
                        rres
                    },
                    Some(lrec) => {
                        let rres = right.hit(ray, t_min, &lrec.t);
                        let out = match &rres {
                            None => Some(lrec),
                            Some(rrec) => {
                                if lrec.t.lt(&rrec.t) {
                                    Some(lrec)
                                } else {
                                    Some(*rrec)
                                }
                            },
                        };
                        proof {
                            lemma_node_result(
                                *self,
                                *ray,
                                *t_min,
                                *t_max,
                                lrec.t,
                                lres,
                                rres,
                                out,
                            );
                        }
                        out
                    },
                }
            },
        }
    }
}

/// Combining the children's results at an interior node preserves both
/// soundness and robust-minimality.
#[verifier::spinoff_prover]
proof fn lemma_node_result(
    node: BVH,
    ray: Ray,
    tmin: Frac,
    tmax: Frac,
    cut: Frac,
    lres: Option<HitRecord>,
    rres: Option<HitRecord>,
    out: Option<HitRecord>,
)
    requires
        node is Node,
        node.wf(),
        ray.wf(),
        tmin.wf(),
        tmax.wf(),
        cut.wf(),
        match lres {
            None => cut == tmax && forall|i: int, rc: HitRecord|
                0 <= i < node->left.prims().len() && #[trigger] robust_hit(
                    node->left.prims()[i],
                    ray,
                    tmin,
                    tmax,
                    rc,
                ) ==> false,
            Some(lrec) => {
                &&& lrec.wf()
                &&& cut == lrec.t
                &&& exists|i: int|
                    0 <= i < node->left.prims().len() && (#[trigger] node->left.prims()[i]).hit_ok(
                        ray,
                        tmin,
                        tmax,
                        lrec,
                    )
                &&& forall|i: int, rc: HitRecord|
                    0 <= i < node->left.prims().len() && #[trigger] robust_hit(
                        node->left.prims()[i],
                        ray,
                        tmin,
                        tmax,
                        rc,
                    ) ==> frac_le(lrec.t, rc.t)
            },
        },
        match rres {
            None => true,
            Some(rrec) => {
                &&& rrec.wf()
                &&& exists|i: int|
                    0 <= i < node->right.prims().len() && (#[trigger] node->right.prims()[i]).hit_ok(
                        ray,
                        tmin,
                        cut,
                        rrec,
                    )
            },
        },
        forall|i: int, rc: HitRecord|
            0 <= i < node->right.prims().len() && #[trigger] robust_hit(
                node->right.prims()[i],
                ray,
                tmin,
                cut,
                rc,
            ) ==> rres is Some && frac_le(rres->0.t, rc.t),
        out == (match (lres, rres) {
            (None, _) => rres,
            (Some(lrec), None) => lres,
            (Some(lrec), Some(rrec)) => if frac_lt(lrec.t, rrec.t) {
                lres
            } else {
                rres
            },
        }),
    ensures
        match out {
            None => true,
            Some(rec) => {
                &&& rec.wf()
                &&& exists|i: int|
                    0 <= i < node.prims().len() && (#[trigger] node.prims()[i]).hit_ok(
                        ray,
                        tmin,
                        tmax,
                        rec,
                    )
            },
        },
        forall|i: int, rc: HitRecord|
            0 <= i < node.prims().len() && #[trigger] robust_hit(
                node.prims()[i],
                ray,
                tmin,
                tmax,
                rc,
            ) ==> out is Some && frac_le(out->0.t, rc.t),
{
    let left = node->left;
    let right = node->right;
    let nl = left.prims().len() as int;
    lemma_bvh_covers(*left);
    lemma_bvh_covers(*right);
    if lres is Some {
        let j0 = choose|j: int|
            0 <= j < left.prims().len() && (#[trigger] left.prims()[j]).hit_ok(
                ray,
                tmin,
                tmax,
                lres->0,
            );
        lemma_hit_window(left.prims()[j0], ray, tmin, tmax, lres->0);
    }
    assert(frac_le(cut, tmax));
    // Soundness: the returned record is some shape's hit on the full window.
    if let Some(rec) = out {
        if rres is Some && out == rres {
            let rrec = rres->0;
            let j = choose|j: int|
                0 <= j < right.prims().len() && (#[trigger] right.prims()[j]).hit_ok(
                    ray,
                    tmin,
                    cut,
                    rrec,
                );
            lemma_hit_widen(right.prims()[j], ray, tmin, cut, tmax, rrec);
            assert(node.prims()[nl + j] == right.prims()[j]);
            assert(0 <= nl + j < node.prims().len() && (node.prims()[nl + j]).hit_ok(
                ray,
                tmin,
                tmax,
                rec,
            ));
        } else {
            let lrec = lres->0;
            let j = choose|j: int|
                0 <= j < left.prims().len() && (#[trigger] left.prims()[j]).hit_ok(
                    ray,
                    tmin,
                    tmax,
                    lrec,
                );
            assert(node.prims()[j] == left.prims()[j]);
            assert(0 <= j < node.prims().len() && (node.prims()[j]).hit_ok(ray, tmin, tmax, rec));
        }
    }
    // Robust-minimality.
    assert forall|i: int, rc: HitRecord|
        0 <= i < node.prims().len() && #[trigger] robust_hit(
            node.prims()[i],
            ray,
            tmin,
            tmax,
            rc,
        ) implies out is Some && frac_le(out->0.t, rc.t) by {
        let p = node.prims()[i];
        lemma_hit_window(p, ray, tmin, tmax, rc);
        if i < nl {
            assert(p == left.prims()[i]);
            assert(robust_hit(left.prims()[i], ray, tmin, tmax, rc));
            let lrec = lres->0;
            assert(lres is Some);
            assert(frac_le(lrec.t, rc.t));
            match rres {
                None => {
                    assert(out == lres);
                },
                Some(rrec) => {
                    lemma_hit_window(right.prims()[rr_witness(right, ray, tmin, cut, rrec)], ray, tmin, cut, rrec);
                    if frac_lt(lrec.t, rrec.t) {
                        assert(out == lres);
                    } else {
                        lemma_frac_total(lrec.t, rrec.t);
                        lemma_frac_le_trans(rrec.t, lrec.t, rc.t);
                    }
                },
            }
        } else {
            let j = i - nl;
            assert(p == right.prims()[j]);
            let lrec_t: Frac = if lres is Some {
                lres->0.t
            } else {
                tmax
            };
            assert(cut == lrec_t);
            lemma_frac_total(cut, rc.t);
            if frac_le(cut, rc.t) {
                // The left hit (or the window end) is already at least as
                // close as this robust hit.
                if lres is Some {
                    match rres {
                        None => {
                            assert(out == lres);
                        },
                        Some(rrec) => {
                            let k = rr_witness(right, ray, tmin, cut, rrec);
                            lemma_hit_window(right.prims()[k], ray, tmin, cut, rrec);
                            if frac_lt(lres->0.t, rrec.t) {
                                assert(out == lres);
                            } else {
                                lemma_frac_le_trans(rrec.t, cut, rc.t);
                            }
                        },
                    }
                } else {
                    // cut == tmax and rc.t < tmax <= rc.t is impossible.
                    lemma_frac_lt_le_trans(rc.t, tmax, rc.t);
                }
            } else {
                // rc.t < cut: the robust hit survives the tightened window.
                lemma_hit_narrow(p, ray, tmin, tmax, cut, rc);
                assert(robust_hit(right.prims()[j], ray, tmin, cut, rc)) by {
                    assert forall|w: Frac|
                        w.den > 0 && frac_lt(rc.t, w) && frac_le(w, cut) implies #[trigger] aabb_hit(
                        pad_box(p.bbox()),
                        ray,
                        tmin,
                        w,
                    ) by {
                        lemma_frac_le_trans(w, cut, tmax);
                    }
                }
                assert(rres is Some && frac_le(rres->0.t, rc.t));
                let rrec = rres->0;
                if lres is Some && frac_lt(lres->0.t, rrec.t) {
                    lemma_hit_window(
                        right.prims()[rr_witness(right, ray, tmin, cut, rrec)],
                        ray,
                        tmin,
                        cut,
                        rrec,
                    );
                    lemma_frac_lt_le_trans(lres->0.t, rrec.t, rc.t);
                } else {
                    assert(out == rres);
                }
            }
        }
    }
}

/// The witness index of a right-subtree hit.
pub open spec fn rr_witness(right: Box<BVH>, ray: Ray, tmin: Frac, cut: Frac, rrec: HitRecord) -> int {
    choose|j: int|
        0 <= j < right.prims().len() && (#[trigger] right.prims()[j]).hit_ok(ray, tmin, cut, rrec)
}

/// The union of the shapes' own boxes, folded left to right; the empty
/// sequence folds to a point box at the origin.
pub open spec fn boxes_union(s: Seq<Hittable>) -> AABB
    decreases s.len(),
{
    if s.len() <= 1 {
        if s.len() == 1 {
            s[0].bbox()
        } else {
            AABB {
                min: crate::vec3::Vec3 { x: 0, y: 0, z: 0 },
                max: crate::vec3::Vec3 { x: 0, y: 0, z: 0 },
            }
        }
    } else {
        box_union(boxes_union(s.drop_last()), s.last().bbox())
    }
}

/// Extending the fold by one shape unions in that shape's box.
pub proof fn lemma_boxes_union_push(s: Seq<Hittable>, x: Hittable)
    requires
        s.len() >= 1,
    ensures
        boxes_union(s.push(x)) == box_union(boxes_union(s), x.bbox()),
{
    assert(s.push(x).drop_last() =~= s);
    assert(s.push(x).last() == x);
}

/// The fold distributes over concatenation.
pub proof fn lemma_boxes_union_concat(a: Seq<Hittable>, b: Seq<Hittable>)
    requires
        a.len() >= 1,
        b.len() >= 1,
    ensures
        boxes_union(a + b) == box_union(boxes_union(a), boxes_union(b)),
    decreases b.len(),
{
    if b.len() == 1 {
        assert(a + b =~= a.push(b[0]));
        lemma_boxes_union_push(a, b[0]);
    } else {
        let bd = b.drop_last();
        lemma_boxes_union_concat(a, bd);
        assert((a + b).drop_last() =~= a + bd);
        assert((a + b).last() == b.last());
        crate::aabb::lemma_union_associative(boxes_union(a), boxes_union(bd), b.last().bbox());
    }
}

/// The fold contains every shape's box.
pub proof fn lemma_boxes_union_covers(s: Seq<Hittable>)
    requires
        s.len() >= 1,
    ensures
        forall|i: int|
            0 <= i < s.len() ==> contains_box(boxes_union(s), (#[trigger] s[i]).bbox()),
    decreases s.len(),
{
    if s.len() > 1 {
        let sd = s.drop_last();
        lemma_boxes_union_covers(sd);
        crate::aabb::lemma_union_contains(boxes_union(sd), s.last().bbox());
        assert forall|i: int| 0 <= i < s.len() implies contains_box(
            boxes_union(s),
            (#[trigger] s[i]).bbox(),
        ) by {
            if i < s.len() - 1 {
                assert(s[i] == sd[i]);
                crate::aabb::lemma_contains_trans(boxes_union(s), boxes_union(sd), sd[i].bbox());
            } else {
                assert(s[i] == s.last());
            }
        }
    }
}

/// A concatenation's multiset is the sum of the parts' multisets.
pub proof fn lemma_to_multiset_concat(a: Seq<Hittable>, b: Seq<Hittable>)
    ensures
        (a + b).to_multiset() == a.to_multiset().add(b.to_multiset()),
    decreases b.len(),
{
    broadcast use vstd::seq_lib::group_to_multiset_ensures;
    broadcast use vstd::multiset::group_multiset_axioms;

    if b.len() == 0 {
        assert(a + b =~= a);
        assert(b.to_multiset().len() == 0);
        assert(b.to_multiset() =~= Multiset::<Hittable>::empty());
        assert(a.to_multiset().add(b.to_multiset()) =~= a.to_multiset());
    } else {
        let bd = b.drop_last();
        lemma_to_multiset_concat(a, bd);
        assert(b =~= bd.push(b.last()));
        assert(a + b =~= (a + bd).push(b.last()));
        assert((a + bd).push(b.last()).to_multiset() =~= (a + bd).to_multiset().insert(b.last()));
        assert(bd.push(b.last()).to_multiset() =~= bd.to_multiset().insert(b.last()));
        assert((a + b).to_multiset() =~= a.to_multiset().add(b.to_multiset()));
    }
}

/// The coordinate of `v` along axis `0`, `1` or `2`.
fn axis_coord(v: &crate::vec3::Vec3, axis: usize) -> (r: i64)
    requires
        axis < 3,
    ensures
        r == if axis == 0 {
            v.x
        } else if axis == 1 {
            v.y
        } else {
            v.z
        },
{
    if axis == 0 {
        v.x
    } else if axis == 1 {
        v.y
    } else {
        v.z
    }
}

/// The minimum coordinate of a boundable shape's box along an axis: the
/// sort key of the median split.
fn axis_min_key(p: &Hittable, axis: usize) -> (r: i64)
    requires
        p.wf(),
        p.boundable(),
        axis < 3,
{
    let t0 = Frac::from_int(0);
    match p.bounding_box(&t0, &t0) {
        Some(b) => axis_coord(&b.min, axis),
        None => vstd::pervasive::unreached(),
    }
}

/// The axis along which the shapes' boxes extend the most: the split
/// heuristic of the builder.
fn choose_split_axis(objects: &Vec<Hittable>) -> (r: usize)
    requires
        objects@.len() >= 1,
        forall|i: int|
            0 <= i < objects@.len() ==> (#[trigger] objects@[i]).wf() && objects@[i].boundable(),
    ensures
        r < 3,
{
    let t0 = Frac::from_int(0);
    let mut bb = match objects[0].bounding_box(&t0, &t0) {
        Some(b) => b,
        None => vstd::pervasive::unreached(),
    };
    let n = objects.len();
    for k in 1..n
        invariant
            n == objects@.len(),
            forall|i: int|
                0 <= i < objects@.len() ==> (#[trigger] objects@[i]).wf()
                    && objects@[i].boundable(),
            bb.wf(),
    {
        let b = match objects[k].bounding_box(&t0, &t0) {
            Some(b) => b,
            None => vstd::pervasive::unreached(),
        };
        bb = bb.around(&b);
    }
    let ex = bb.max.x - bb.min.x;
    let ey = bb.max.y - bb.min.y;
    let ez = bb.max.z - bb.min.z;
    if ex >= ey && ex >= ez {
        0
    } else if ey >= ez {
        1
    } else {
        2
    }
}

/// Sorts the shapes by the minimum coordinate of their boxes along `axis`
/// by repeatedly extracting the least key.  The result holds exactly the
/// input shapes.
fn sort_by_axis(objects: &Vec<Hittable>, axis: usize) -> (r: Vec<Hittable>)
    requires
        forall|i: int|
            0 <= i < objects@.len() ==> (#[trigger] objects@[i]).wf() && objects@[i].boundable(),
        axis < 3,
    ensures
        r@.len() == objects@.len(),
        r@.to_multiset() == objects@.to_multiset(),
        forall|x: Hittable| r@.contains(x) <==> objects@.contains(x),
        forall|i: int| 0 <= i < r@.len() ==> (#[trigger] r@[i]).wf() && r@[i].boundable(),
{
    let mut rest: Vec<Hittable> = Vec::new();
    let n = objects.len();
    for k in 0..n
        invariant
            n == objects@.len(),
            rest@ == objects@.subrange(0, k as int),
            forall|i: int|
                0 <= i < objects@.len() ==> (#[trigger] objects@[i]).wf()
                    && objects@[i].boundable(),
    {
        rest.push(objects[k]);
        proof {
            assert(rest@ =~= objects@.subrange(0, k + 1));
        }
    }
    proof {
        assert(rest@ =~= objects@);
    }
    let mut out: Vec<Hittable> = Vec::new();
    proof {
        broadcast use vstd::seq_lib::group_to_multiset_ensures;
        broadcast use vstd::multiset::group_multiset_axioms;

        assert(out@.to_multiset().len() == 0);
        assert(out@.to_multiset() =~= Multiset::<Hittable>::empty());
        assert(out@.to_multiset().add(rest@.to_multiset()) =~= objects@.to_multiset());
    }
    while rest.len() > 0
        invariant
            out@.len() + rest@.len() == objects@.len(),
            out@.to_multiset().add(rest@.to_multiset()) == objects@.to_multiset(),
            forall|x: Hittable| (out@.contains(x) || rest@.contains(x)) <==> objects@.contains(x),
            forall|i: int| 0 <= i < out@.len() ==> (#[trigger] out@[i]).wf() && out@[i].boundable(),
            forall|i: int|
                0 <= i < rest@.len() ==> (#[trigger] rest@[i]).wf() && rest@[i].boundable(),
            axis < 3,
        decreases rest@.len(),
    {
        let mut min_idx: usize = 0;
        let mut min_key: i64 = axis_min_key(&rest[0], axis);
        let m = rest.len();
        for k in 1..m
            invariant
                m == rest@.len(),
                min_idx < m,
                forall|i: int|
                    0 <= i < rest@.len() ==> (#[trigger] rest@[i]).wf() && rest@[i].boundable(),
                axis < 3,
        {
            let key = axis_min_key(&rest[k], axis);
            if key < min_key {
                min_key = key;
                min_idx = k;
            }
        }
        let ghost old_out = out@;
        let ghost old_rest = rest@;
        let picked = rest.remove(min_idx);
        out.push(picked);
        proof {
            broadcast use vstd::seq_lib::group_to_multiset_ensures;
            broadcast use vstd::multiset::group_multiset_axioms;

            assert(picked == old_rest[min_idx as int]);
            assert(rest@ == old_rest.remove(min_idx as int));
            assert(old_rest.contains(picked));
            assert(old_rest.to_multiset().count(picked) > 0);
            assert(rest@.to_multiset() == old_rest.remove(min_idx as int).to_multiset());
            assert(rest@.to_multiset() =~= old_rest.to_multiset().remove(picked));
            assert(out@.to_multiset() == old_out.push(picked).to_multiset());
            assert(out@.to_multiset() =~= old_out.to_multiset().insert(picked));
            assert(out@.to_multiset().add(rest@.to_multiset()) =~= old_out.to_multiset().add(
                old_rest.to_multiset(),
            ));
            assert forall|x: Hittable| (out@.contains(x) || rest@.contains(x)) <==> objects@.contains(
                x,
            ) by {
                if out@.contains(x) || rest@.contains(x) {
                    if out@.contains(x) {
                        let j = choose|j: int| 0 <= j < out@.len() && out@[j] == x;
                        if j < old_out.len() {
                            assert(old_out[j] == x);
                        } else {
                            assert(x == picked);
                            assert(old_rest.contains(x));
                        }
                    } else {
                        let j = choose|j: int| 0 <= j < rest@.len() && rest@[j] == x;
                        if j < min_idx {
                            assert(old_rest[j] == x);
                        } else {
                            assert(old_rest[j + 1] == x);
                        }
                    }
                }
                if objects@.contains(x) {
                    if old_out.contains(x) {
                        let j = choose|j: int| 0 <= j < old_out.len() && old_out[j] == x;
                        assert(out@[j] == x);
                    } else {
                        let j = choose|j: int| 0 <= j < old_rest.len() && old_rest[j] == x;
                        if j == min_idx {
                            assert(out@[out@.len() - 1] == x);
                        } else if j < min_idx {
                            assert(rest@[j] == x);
                        } else {
                            assert(rest@[j - 1] == x);
                        }
                    }
                }
            }
        }
    }
    proof {
        broadcast use vstd::seq_lib::group_to_multiset_ensures;
        broadcast use vstd::multiset::group_multiset_axioms;

        assert(rest@.to_multiset().len() == 0);
        assert(rest@.to_multiset() =~= Multiset::<Hittable>::empty());
        assert(out@.to_multiset() =~= out@.to_multiset().add(rest@.to_multiset()));
    }
    out
}

impl BVH {
    /// Builds the hierarchy over a non-empty list of boundable shapes by
    /// recursive median split: sort by box minimum along the axis of
    /// greatest extent, split the list in half, and recurse; each interior
    /// node's box is the union of its children's.  The two window
    /// parameters are reserved for motion blur and unused.
    pub fn build(objects: Vec<Hittable>, t0: &Frac, t1: &Frac) -> (r: Box<BVH>)
        requires
            objects@.len() >= 1,
            forall|i: int|
                0 <= i < objects@.len() ==> (#[trigger] objects@[i]).wf()
                    && objects@[i].boundable(),
        ensures
            r.wf(),
            r.prims().len() == objects@.len(),
            r.prims().to_multiset() == objects@.to_multiset(),
            forall|x: Hittable| r.prims().contains(x) <==> objects@.contains(x),
        decreases objects@.len(),
    {
        let axis = choose_split_axis(&objects);
        let sorted = sort_by_axis(&objects, axis);
        let n = sorted.len();
        if n == 1 {
            let tree = Box::new(BVH::Leaf(sorted[0]));
            proof {
                assert(sorted@[0].wf() && sorted@[0].boundable());
                assert(tree.wf());
                assert(sorted@.contains(sorted@[0]));
                assert(tree.prims() =~= sorted@);
                assert(tree.prims().to_multiset() == objects@.to_multiset());
                assert forall|x: Hittable| tree.prims().contains(x) <==> objects@.contains(x) by {
                    if tree.prims().contains(x) {
                        assert(x == sorted@[0]);
                    }
                    if objects@.contains(x) {
                        assert(sorted@.contains(x));
                        assert(x == sorted@[0]);
                        assert(tree.prims()[0] == x);
                    }
                }
            }
            tree
        } else if n == 2 {
            let a = sorted[0];
            let b = sorted[1];
            let la = Box::new(BVH::Leaf(a));
            let lb = Box::new(BVH::Leaf(b));
            let bla = la.bounding_box();
            let blb = lb.bounding_box();
            let joint = bla.around(&blb);
            let bbox = pad_box_of(&joint);
            let tree = Box::new(BVH::Node { left: la, right: lb, bbox });
            proof {
                assert(la.wf());
                assert(lb.wf());
                assert(bla == la.bbox_spec());
                assert(joint == crate::aabb::box_union(la.bbox_spec(), lb.bbox_spec()));
                assert(bbox == pad_box(joint));
                assert(bbox.wf());
                assert(tree->bbox == bbox);
                assert(la.prims() =~= seq![a]);
                assert(lb.prims() =~= seq![b]);
                assert(tree->left == la && tree->right == lb);
                assert(tree.prims() == la.prims() + lb.prims());
                assert(tree.prims() =~= seq![a, b]);
                assert(tree.prims() =~= sorted@);
                assert(tree.prims().to_multiset() == objects@.to_multiset());
                assert(tree.wf());
                assert forall|x: Hittable| tree.prims().contains(x) <==> objects@.contains(x) by {
                    if tree.prims().contains(x) {
                        assert(x == a || x == b);
                        assert(sorted@.contains(x));
                    }
                    if objects@.contains(x) {
                        let j = choose|j: int| 0 <= j < sorted@.len() && sorted@[j] == x;
                        assert(tree.prims()[j] == x);
                    }
                }
            }
            tree
        } else {
            let mid = n / 2;
            let mut lo: Vec<Hittable> = Vec::new();
            let mut hi: Vec<Hittable> = Vec::new();
            for k in 0..mid
                invariant
                    mid < n,
                    n == sorted@.len(),
                    lo@ == sorted@.subrange(0, k as int),
                    k <= mid,
                    forall|i: int|
                        0 <= i < sorted@.len() ==> (#[trigger] sorted@[i]).wf()
                            && sorted@[i].boundable(),
            {
                lo.push(sorted[k]);
                proof {
                    assert(lo@ =~= sorted@.subrange(0, k + 1));
                }
            }
            for k in mid..n
                invariant
                    mid < n,
                    n == sorted@.len(),
                    hi@ == sorted@.subrange(mid as int, k as int),
                    mid <= k <= n,
                    forall|i: int|
                        0 <= i < sorted@.len() ==> (#[trigger] sorted@[i]).wf()
                            && sorted@[i].boundable(),
            {
                hi.push(sorted[k]);
                proof {
                    assert(hi@ =~= sorted@.subrange(mid as int, k + 1));
                }
            }
            proof {
                assert(sorted@ =~= lo@ + hi@);
            }
            let left = BVH::build(hi, t0, t1);
            let right = BVH::build(lo, t0, t1);
            let bleft = left.bounding_box();
            let bright = right.bounding_box();
            let joint = bleft.around(&bright);
            let bbox = pad_box_of(&joint);
            let tree = Box::new(BVH::Node { left, right, bbox });
            proof {
                assert(tree.wf());
                broadcast use vstd::multiset::group_multiset_axioms;

                let lp = tree->left.prims();
                let rp = tree->right.prims();
                lemma_to_multiset_concat(lp, rp);
                lemma_to_multiset_concat(lo@, hi@);
                assert(tree.prims().to_multiset() == lp.to_multiset().add(rp.to_multiset()));
                assert(lp.to_multiset().add(rp.to_multiset()) =~= lo@.to_multiset().add(
                    hi@.to_multiset(),
                ));
                assert(tree.prims().to_multiset() == objects@.to_multiset());
                assert forall|x: Hittable| tree.prims().contains(x) <==> objects@.contains(x) by {
                    let lp = tree->left.prims();
                    let rp = tree->right.prims();
                    if tree.prims().contains(x) {
                        let j = choose|j: int| 0 <= j < tree.prims().len() && tree.prims()[j] == x;
                        if j < lp.len() {
                            assert(lp[j] == x);
                            assert(lp.contains(x));
                        } else {
                            assert(rp[j - lp.len()] == x);
                            assert(rp.contains(x));
                        }
                        assert(sorted@.contains(x));
                    }
                    if objects@.contains(x) {
                        assert(sorted@.contains(x));
                        let j = choose|j: int| 0 <= j < sorted@.len() && sorted@[j] == x;
                        if j < mid {
                            assert(lo@[j] == x);
                            assert(lo@.contains(x));
                            assert(rp.contains(x));
                            let k = choose|k: int| 0 <= k < rp.len() && rp[k] == x;
                            assert(tree.prims()[lp.len() + k] == x);
                        } else {
                            assert(hi@[j - mid] == x);
                            assert(hi@.contains(x));
                            assert(lp.contains(x));
                            let k = choose|k: int| 0 <= k < lp.len() && lp[k] == x;
                            assert(tree.prims()[k] == x);
                        }
                    }
                }
            }
            tree
        }
    }
}

/// The acceleration-correctness law: on any scene and window, the
/// hierarchy and the brute-force linear scan agree.  Both hold hits over
/// the same set of shapes; under the traversal's and the scan's contracts,
/// and provided every hit in the window is robust (strictly inside the
/// window, its shape's box never pruned by a slab test on an arising
/// window), the two queries return a hit for exactly the same rays, with
/// exactly the same closest parameter.
pub proof fn lemma_bvh_matches_scan(
    tree_prims: Seq<Hittable>,
    scan_prims: Seq<Hittable>,
    ray: Ray,
    tmin: Frac,
    tmax: Frac,
    rb: Option<HitRecord>,
    rs: Option<HitRecord>,
)
    requires
        ray.wf(),
        forall|x: Hittable| tree_prims.contains(x) <==> scan_prims.contains(x),
        forall|i: int| 0 <= i < scan_prims.len() ==> (#[trigger] scan_prims[i]).wf(),
        // The hierarchy's contract: any result is a real hit, and no
        // robust hit is closer.
        rb is Some ==> exists|i: int|
            0 <= i < tree_prims.len() && (#[trigger] tree_prims[i]).hit_ok(
                ray,
                tmin,
                tmax,
                rb->0,
            ),
        forall|i: int, rc: HitRecord|
            0 <= i < tree_prims.len() && #[trigger] robust_hit(tree_prims[i], ray, tmin, tmax, rc)
                ==> rb is Some && frac_le(rb->0.t, rc.t),
        // The scan's contract: misses are universal, results are real
        // hits, and no hit is closer.
        rs is None ==> forall|i: int|
            0 <= i < scan_prims.len() ==> (#[trigger] scan_prims[i]).hit_none(ray, tmin, tmax),
        rs is Some ==> exists|i: int|
            0 <= i < scan_prims.len() && (#[trigger] scan_prims[i]).hit_ok(
                ray,
                tmin,
                tmax,
                rs->0,
            ),
        rs is Some ==> forall|i: int, r2: HitRecord|
            0 <= i < scan_prims.len() && #[trigger] scan_prims[i].hit_ok(ray, tmin, tmax, r2)
                ==> frac_le(rs->0.t, r2.t),
        // Robustness of every hit in the window.
        forall|i: int, rc: HitRecord|
            0 <= i < scan_prims.len() && #[trigger] scan_prims[i].hit_ok(ray, tmin, tmax, rc)
                ==> robust_hit(scan_prims[i], ray, tmin, tmax, rc),
    ensures
        rb is Some <==> rs is Some,
        rb is Some ==> frac_eqv(rb->0.t, rs->0.t),
{
    if rs is Some {
        let srec = rs->0;
        let i = choose|i: int|
            0 <= i < scan_prims.len() && (#[trigger] scan_prims[i]).hit_ok(ray, tmin, tmax, srec);
        assert(robust_hit(scan_prims[i], ray, tmin, tmax, srec));
        assert(scan_prims.contains(scan_prims[i]));
        assert(tree_prims.contains(scan_prims[i]));
        let j = choose|j: int| 0 <= j < tree_prims.len() && tree_prims[j] == scan_prims[i];
        assert(robust_hit(tree_prims[j], ray, tmin, tmax, srec));
        assert(rb is Some && frac_le(rb->0.t, srec.t));
    }
    if rb is Some {
        let brec = rb->0;
        let j = choose|j: int|
            0 <= j < tree_prims.len() && (#[trigger] tree_prims[j]).hit_ok(ray, tmin, tmax, brec);
        assert(tree_prims.contains(tree_prims[j]));
        assert(scan_prims.contains(tree_prims[j]));
        let i = choose|i: int| 0 <= i < scan_prims.len() && scan_prims[i] == tree_prims[j];
        assert(scan_prims[i].hit_ok(ray, tmin, tmax, brec));
        if rs is None {
            lemma_hit_exclusive(scan_prims[i], ray, tmin, tmax, brec);
        } else {
            assert(frac_le(rs->0.t, brec.t));
        }
    }
}

} // verus!
