//! The scene aggregate: the top-level entry point for ray queries.
//!
//! A scene collects shapes and lights during construction.  `accelerate`
//! partitions the shapes into boundable and unbounded ones, builds a
//! bounding volume hierarchy over the boundable set and keeps the
//! unbounded shapes in a flat list; afterwards the scene is queried
//! read-only.  `hit` tracks the globally closest hit across the hierarchy
//! and the flat lists.

use vstd::prelude::*;
use vstd::multiset::Multiset;
use crate::aabb::AABB;
use crate::bvh::{robust_hit, BVH};
use crate::frac::{frac_le, lemma_frac_le_trans, lemma_frac_total, Frac};
use crate::hittable::{
    hit_list, lemma_hit_exclusive, lemma_hit_window, HitRecord, Hittable,
};
use crate::light::PointLight;
use crate::ray::Ray;

verus! {

/// A collection of shapes and lights, with an optional acceleration
/// structure over the boundable shapes.
pub struct Scene {
    /// Shapes added since construction or since the last acceleration.
    pub objects: Vec<Hittable>,
    /// The hierarchy over the boundable shapes, once accelerated.
    pub tree: Option<Box<BVH>>,
    /// Unbounded shapes set aside by acceleration.
    pub unbounded: Vec<Hittable>,
    /// The scene's light sources.
    pub lights: Vec<PointLight>,
}


/// The boundable shapes of a sequence, in order.
pub open spec fn boundables(s: Seq<Hittable>) -> Seq<Hittable>
    decreases s.len(),
{
    if s.len() == 0 {
        Seq::empty()
    } else if s.last().boundable() {
        boundables(s.drop_last()).push(s.last())
    } else {
        boundables(s.drop_last())
    }
}

/// The unboundable shapes of a sequence, in order.
pub open spec fn unboundables(s: Seq<Hittable>) -> Seq<Hittable>
    decreases s.len(),
{
    if s.len() == 0 {
        Seq::empty()
    } else if !s.last().boundable() {
        unboundables(s.drop_last()).push(s.last())
    } else {
        unboundables(s.drop_last())
    }
}

/// Appending one shape extends the matching side of the partition.
proof fn lemma_partition_push(s: Seq<Hittable>, x: Hittable)
    ensures
        boundables(s.push(x)) == if x.boundable() {
            boundables(s).push(x)
        } else {
            boundables(s)
        },
        unboundables(s.push(x)) == if x.boundable() {
            unboundables(s)
        } else {
            unboundables(s).push(x)
        },
{
    assert(s.push(x).drop_last() =~= s);
    assert(s.push(x).last() == x);
}

/// The partition splits the sequence's multiset in two.
proof fn lemma_partition_multiset(s: Seq<Hittable>)
    ensures
        s.to_multiset() == boundables(s).to_multiset().add(unboundables(s).to_multiset()),
    decreases s.len(),
{
    broadcast use vstd::seq_lib::group_to_multiset_ensures;
    broadcast use vstd::multiset::group_multiset_axioms;

    if s.len() == 0 {
        assert(s.to_multiset().len() == 0);
        assert(boundables(s).to_multiset().len() == 0);
        assert(unboundables(s).to_multiset().len() == 0);
        assert(s.to_multiset() =~= boundables(s).to_multiset().add(
            unboundables(s).to_multiset(),
        ));
    } else {
        let sd = s.drop_last();
        lemma_partition_multiset(sd);
        assert(s =~= sd.push(s.last()));
        assert(sd.push(s.last()).to_multiset() =~= sd.to_multiset().insert(s.last()));
        if s.last().boundable() {
            assert(boundables(sd).push(s.last()).to_multiset() =~= boundables(
                sd,
            ).to_multiset().insert(s.last()));
        } else {
            assert(unboundables(sd).push(s.last()).to_multiset() =~= unboundables(
                sd,
            ).to_multiset().insert(s.last()));
        }
        assert(s.to_multiset() =~= boundables(s).to_multiset().add(
            unboundables(s).to_multiset(),
        ));
    }
}

/// Both sides of the partition hold well-formed shapes of the stated
/// kind.
proof fn lemma_partition_props(s: Seq<Hittable>)
    requires
        forall|i: int| 0 <= i < s.len() ==> (#[trigger] s[i]).wf(),
    ensures
        forall|j: int|
            0 <= j < boundables(s).len() ==> (#[trigger] boundables(s)[j]).wf() && boundables(
                s,
            )[j].boundable(),
        forall|j: int|
            0 <= j < unboundables(s).len() ==> (#[trigger] unboundables(s)[j]).wf()
                && !unboundables(s)[j].boundable(),
    decreases s.len(),
{
    if s.len() > 0 {
        let sd = s.drop_last();
        assert(forall|i: int| 0 <= i < sd.len() ==> sd[i] == s[i]);
        lemma_partition_props(sd);
        assert forall|j: int| 0 <= j < boundables(s).len() implies (
        #[trigger] boundables(s)[j]).wf() && boundables(s)[j].boundable() by {
            if s.last().boundable() && j == boundables(s).len() - 1 {
                assert(boundables(s)[j] == s.last());
            } else {
                assert(boundables(s)[j] == boundables(sd)[j]);
            }
        }
        assert forall|j: int| 0 <= j < unboundables(s).len() implies (
        #[trigger] unboundables(s)[j]).wf() && !unboundables(s)[j].boundable() by {
            if !s.last().boundable() && j == unboundables(s).len() - 1 {
                assert(unboundables(s)[j] == s.last());
            } else {
                assert(unboundables(s)[j] == unboundables(sd)[j]);
            }
        }
    }
}

/// A boundable element of the sequence appears among its boundables.
proof fn lemma_boundables_contains(s: Seq<Hittable>, i: int)
    requires
        0 <= i < s.len(),
        s[i].boundable(),
    ensures
        boundables(s).contains(s[i]),
    decreases s.len(),
{
    let sd = s.drop_last();
    if i == s.len() - 1 {
        assert(boundables(s)[boundables(s).len() - 1] == s[i]);
    } else {
        assert(sd[i] == s[i]);
        lemma_boundables_contains(sd, i);
        let j = choose|j: int| 0 <= j < boundables(sd).len() && boundables(sd)[j] == s[i];
        assert(boundables(s)[j] == s[i]);
    }
}

impl Scene {
    /// Well-formed: every stored shape is, and so is the hierarchy.
    pub open spec fn wf(self) -> bool {
        &&& forall|i: int| 0 <= i < self.objects@.len() ==> (#[trigger] self.objects@[i]).wf()
        &&& forall|i: int| 0 <= i < self.unbounded@.len() ==> (#[trigger] self.unbounded@[i]).wf()
        &&& match self.tree {
            Some(t) => t.wf(),
            None => true,
        }
    }

    /// The shapes in the hierarchy, or none before acceleration.
    pub open spec fn tree_prims(self) -> Seq<Hittable> {
        match self.tree {
            Some(t) => t.prims(),
            None => Seq::empty(),
        }
    }

    /// The shapes scanned linearly: the unbounded list and the plain
    /// object list.
    pub open spec fn flat_prims(self) -> Seq<Hittable> {
        self.unbounded@ + self.objects@
    }

    /// Every shape the scene holds.
    pub open spec fn all_prims(self) -> Seq<Hittable> {
        self.tree_prims() + self.flat_prims()
    }

    /// Whether the scene has been accelerated.
    pub open spec fn accelerated(self) -> bool {
        self.tree is Some
    }

    /// The spec view of the plain object list.
    pub open spec fn objects_view(self) -> Seq<Hittable> {
        self.objects@
    }

    /// An empty scene.
    pub fn new() -> (r: Scene)
        ensures
            r.wf(),
            r.all_prims() =~= Seq::<Hittable>::empty(),
            r.objects_view() =~= Seq::<Hittable>::empty(),
            !r.accelerated(),
            r.lights@ =~= Seq::<PointLight>::empty(),
    {
        Scene { objects: Vec::new(), tree: None, unbounded: Vec::new(), lights: Vec::new() }
    }

    /// Removes every shape; the lights stay.
    pub fn clear(&mut self)
        ensures
            final(self).wf(),
            final(self).all_prims() =~= Seq::<Hittable>::empty(),
            !final(self).accelerated(),
            final(self).lights == old(self).lights,
    {
        self.objects = Vec::new();
        self.tree = None;
        self.unbounded = Vec::new();
    }

    /// Adds a shape to the scene.
    pub fn add(&mut self, object: Hittable)
        requires
            old(self).wf(),
            object.wf(),
        ensures
            final(self).wf(),
            final(self).objects_view() == old(self).objects_view().push(object),
            final(self).tree == old(self).tree,
            final(self).unbounded == old(self).unbounded,
            final(self).lights == old(self).lights,
    {
        self.objects.push(object);
    }

    /// Adds a light to the scene.
    pub fn add_light(&mut self, light: PointLight)
        ensures
            final(self).lights@ == old(self).lights@.push(light),
            final(self).objects == old(self).objects,
            final(self).tree == old(self).tree,
            final(self).unbounded == old(self).unbounded,
    {
        self.lights.push(light);
    }

    /// Builds the hierarchy: partitions the plain shapes into boundable
    /// and unbounded, builds the tree over the boundable set — which must
    /// be nonempty — and appends the unbounded rest, in order, to the flat
    /// list.  The shapes the scene holds are preserved exactly.  The two
    /// window parameters are reserved for motion blur and unused.
    pub fn accelerate(&mut self, t0: &Frac, t1: &Frac)
        requires
            old(self).wf(),
            !old(self).accelerated(),
            exists|i: int|
                0 <= i < old(self).objects_view().len() && (#[trigger] old(self).objects_view()[i]).boundable(),
        ensures
            final(self).wf(),
            final(self).accelerated(),
            final(self).objects_view() =~= Seq::<Hittable>::empty(),
            final(self).tree_prims().to_multiset() == boundables(
                old(self).objects_view(),
            ).to_multiset(),
            final(self).unbounded@ == old(self).unbounded@ + unboundables(
                old(self).objects_view(),
            ),
            final(self).all_prims().to_multiset() == old(self).all_prims().to_multiset(),
            forall|x: Hittable|
                final(self).all_prims().contains(x) <==> old(self).all_prims().contains(x),
            final(self).lights == old(self).lights,
    {
        let ghost orig = self.objects@;
        proof {
            lemma_partition_props(orig);
        }
        let mut nodes: Vec<Hittable> = Vec::new();
        let mut extra: Vec<Hittable> = Vec::new();
        let n = self.objects.len();
        for k in 0..n
            invariant
                n == self.objects@.len(),
                self.objects@ == orig,
                self.tree == old(self).tree,
                self.unbounded == old(self).unbounded,
                self.lights == old(self).lights,
                forall|i: int| 0 <= i < self.objects@.len() ==> (#[trigger] self.objects@[i]).wf(),
                nodes@ == boundables(orig.subrange(0, k as int)),
                extra@ == unboundables(orig.subrange(0, k as int)),
        {
            let obj = self.objects[k];
            proof {
                let pre = orig.subrange(0, k as int);
                assert(orig.subrange(0, k + 1) =~= pre.push(orig[k as int]));
                lemma_partition_push(pre, orig[k as int]);
            }
            match obj.bounding_box(t0, t1) {
                Some(b) => nodes.push(obj),
                None => extra.push(obj),
            }
        }
        proof {
            assert(orig.subrange(0, n as int) =~= orig);
            assert(nodes@ == boundables(orig));
            assert(extra@ == unboundables(orig));
            let i0 = choose|i: int| 0 <= i < orig.len() && (#[trigger] orig[i]).boundable();
            lemma_boundables_contains(orig, i0);
            assert(nodes@.len() >= 1);
        }
        let ghost extra_contents = extra@;
        let tree = BVH::build(nodes, t0, t1);
        let ghost old_unbounded = self.unbounded@;
        let m = extra.len();
        for k in 0..m
            invariant
                m == extra_contents.len(),
                extra@ == extra_contents,
                self.objects@ == orig,
                self.tree == old(self).tree,
                self.lights == old(self).lights,
                self.unbounded@ == old_unbounded + extra_contents.subrange(0, k as int),
                forall|i: int|
                    0 <= i < extra_contents.len() ==> (#[trigger] extra_contents[i]).wf(),
                forall|i: int|
                    0 <= i < old_unbounded.len() ==> (#[trigger] old_unbounded[i]).wf(),
        {
            let e = extra[k];
            self.unbounded.push(e);
            proof {
                assert(self.unbounded@ =~= old_unbounded + extra_contents.subrange(0, k + 1));
            }
        }
        proof {
            assert(self.unbounded@ =~= old_unbounded + extra_contents);
        }
        self.tree = Some(tree);
        self.objects = Vec::new();
        proof {
            broadcast use vstd::seq_lib::group_to_multiset_ensures;
            broadcast use vstd::multiset::group_multiset_axioms;

            assert forall|i: int| 0 <= i < self.unbounded@.len() implies (
            #[trigger] self.unbounded@[i]).wf() by {
                if i < old_unbounded.len() {
                    assert(self.unbounded@[i] == old_unbounded[i]);
                } else {
                    assert(self.unbounded@[i] == extra_contents[i - old_unbounded.len()]);
                }
            }
            // The multiset of every shape the scene holds is unchanged:
            // the tree holds the boundables, the flat list gains the
            // unboundables, and the partition splits the old objects.
            crate::bvh::lemma_to_multiset_concat(self.tree_prims(), self.flat_prims());
            crate::bvh::lemma_to_multiset_concat(self.unbounded@, self.objects@);
            crate::bvh::lemma_to_multiset_concat(old_unbounded, extra_contents);
            crate::bvh::lemma_to_multiset_concat(old(self).tree_prims(), old(self).flat_prims());
            crate::bvh::lemma_to_multiset_concat(old(self).unbounded@, old(self).objects@);
            lemma_partition_multiset(orig);
            assert(self.objects@.to_multiset().len() == 0);
            assert(self.objects@.to_multiset() =~= Multiset::<Hittable>::empty());
            assert(old(self).tree_prims().to_multiset().len() == 0);
            assert(old(self).tree_prims().to_multiset() =~= Multiset::<Hittable>::empty());
            assert(self.all_prims().to_multiset() =~= old(self).all_prims().to_multiset());
            assert forall|x: Hittable| self.all_prims().contains(x) <==> old(
                self,
            ).all_prims().contains(x) by {
                assert(self.all_prims().to_multiset().count(x) == old(
                    self,
                ).all_prims().to_multiset().count(x));
            }
        }
    }

    /// The closest hit in the whole scene on the closed window
    /// `[t_min, t_max]`: the hierarchy's answer and the flat lists'
    /// answers, combined by taking the smallest parameter.
    pub fn hit(&self, ray: &Ray, t_min: &Frac, t_max: &Frac) -> (r: Option<HitRecord>)
        requires
            self.wf(),
            ray.wf(),
            t_min.wf(),
            t_max.wf(),
        ensures
            match r {
                None => true,
                Some(rec) => {
                    &&& rec.wf()
                    &&& exists|i: int|
                        0 <= i < self.all_prims().len() && (#[trigger] self.all_prims()[i]).hit_ok(
                            *ray,
                            *t_min,
                            *t_max,
                            rec,
                        )
                },
            },
            forall|i: int, r2: HitRecord|
                0 <= i < self.flat_prims().len() && #[trigger] self.flat_prims()[i].hit_ok(
                    *ray,
                    *t_min,
                    *t_max,
                    r2,
                ) ==> r is Some && frac_le(r->0.t, r2.t),
            forall|i: int, rc: HitRecord|
                0 <= i < self.tree_prims().len() && #[trigger] robust_hit(
                    self.tree_prims()[i],
                    *ray,
                    *t_min,
                    *t_max,
                    rc,
                ) ==> r is Some && frac_le(r->0.t, rc.t),
    {
        let tres = match &self.tree {
            Some(t) => t.hit(ray, t_min, t_max),
            None => None,
        };
        let ures = hit_list(&self.unbounded, ray, t_min, t_max);
        let ores = hit_list(&self.objects, ray, t_min, t_max);
        let step = closer(tres, ures);
        let out = closer(step, ores);
        proof {
            let tp = self.tree_prims();
            let up = self.unbounded@;
            let op = self.objects@;
            if let Some(rec) = out {
                if tres is Some && rec == tres->0 {
                    let j = choose|j: int|
                        0 <= j < tp.len() && (#[trigger] tp[j]).hit_ok(*ray, *t_min, *t_max, rec);
                    assert(self.all_prims()[j] == tp[j]);
                } else if ures is Some && rec == ures->0 {
                    let j = choose|j: int|
                        0 <= j < up.len() && (#[trigger] up[j]).hit_ok(*ray, *t_min, *t_max, rec);
                    assert(self.flat_prims()[j] == up[j]);
                    assert(self.all_prims()[tp.len() + j] == up[j]);
                } else {
                    let j = choose|j: int|
                        0 <= j < op.len() && (#[trigger] op[j]).hit_ok(*ray, *t_min, *t_max, rec);
                    assert(self.flat_prims()[up.len() + j] == op[j]);
                    assert(self.all_prims()[tp.len() + up.len() + j] == op[j]);
                }
            }
            assert forall|i: int, r2: HitRecord|
                0 <= i < self.flat_prims().len() && #[trigger] self.flat_prims()[i].hit_ok(
                    *ray,
                    *t_min,
                    *t_max,
                    r2,
                ) implies out is Some && frac_le(out->0.t, r2.t) by {
                if i < up.len() {
                    assert(self.flat_prims()[i] == up[i]);
                    lemma_hit_window(up[i], *ray, *t_min, *t_max, r2);
                    if ures is None {
                        lemma_hit_exclusive(up[i], *ray, *t_min, *t_max, r2);
                    }
                    assert(frac_le(ures->0.t, r2.t));
                    lemma_frac_le_trans(out->0.t, step->0.t, ures->0.t);
                    lemma_frac_le_trans(out->0.t, ures->0.t, r2.t);
                } else {
                    assert(self.flat_prims()[i] == op[i - up.len()]);
                    lemma_hit_window(op[i - up.len()], *ray, *t_min, *t_max, r2);
                    if ores is None {
                        lemma_hit_exclusive(op[i - up.len()], *ray, *t_min, *t_max, r2);
                    }
                    assert(frac_le(ores->0.t, r2.t));
                    lemma_frac_le_trans(out->0.t, ores->0.t, r2.t);
                }
            }
            assert forall|i: int, rc: HitRecord|
                0 <= i < self.tree_prims().len() && #[trigger] robust_hit(
                    self.tree_prims()[i],
                    *ray,
                    *t_min,
                    *t_max,
                    rc,
                ) implies out is Some && frac_le(out->0.t, rc.t) by {
                crate::bvh::lemma_bvh_covers(*self.tree->0);
                lemma_hit_window(self.tree_prims()[i], *ray, *t_min, *t_max, rc);
                assert(tres is Some && frac_le(tres->0.t, rc.t));
                lemma_frac_le_trans(out->0.t, step->0.t, tres->0.t);
                lemma_frac_le_trans(out->0.t, tres->0.t, rc.t);
            }
        }
        out
    }

    /// Whether every shape in the scene has finite extent.
    pub open spec fn all_boundable(self) -> bool {
        forall|i: int|
            0 <= i < self.all_prims().len() ==> (#[trigger] self.all_prims()[i]).boundable()
    }

    /// The exact union of every shape's own box, or `None` exactly when
    /// the scene is empty or holds a shape of infinite extent.  The two
    /// window parameters are reserved for motion blur and unused.
    pub fn bounding_box(&self, t0: &Frac, t1: &Frac) -> (r: Option<AABB>)
        requires
            self.wf(),
        ensures
            r is Some <==> (self.all_prims().len() > 0 && self.all_boundable()),
            r is Some ==> r->0 == crate::bvh::boxes_union(self.all_prims()) && r->0.wf(),
            r is Some ==> forall|i: int|
                0 <= i < self.all_prims().len() ==> crate::aabb::contains_box(
                    r->0,
                    (#[trigger] self.all_prims()[i]).bbox(),
                ),
    {
        let ghost all = self.all_prims();
        let ghost tp = self.tree_prims();
        let ghost up = self.unbounded@;
        let ghost op = self.objects@;
        let mut acc: Option<AABB> = match &self.tree {
            Some(t) => {
                proof {
                    crate::bvh::lemma_bvh_covers(**t);
                    assert(all.subrange(0, tp.len() as int) =~= tp);
                    assert forall|i: int| 0 <= i < tp.len() implies (
                    #[trigger] all[i]).boundable() by {
                        assert(all[i] == tp[i]);
                    }
                }
                Some(t.tight_box())
            },
            None => None,
        };
        let n = self.unbounded.len();
        for k in 0..n
            invariant
                n == up.len(),
                self.wf(),
                up == self.unbounded@,
                op == self.objects@,
                tp == self.tree_prims(),
                all == self.all_prims(),
                forall|i: int| 0 <= i < tp.len() + k ==> (#[trigger] all[i]).boundable(),
                match acc {
                    None => tp.len() + k == 0,
                    Some(bb) => tp.len() + k >= 1 && bb.wf() && bb == crate::bvh::boxes_union(
                        all.subrange(0, tp.len() + k),
                    ),
                },
        {
            let obj = &self.unbounded[k];
            let ghost idx = tp.len() + k as int;
            proof {
                assert(all[idx] == up[k as int]);
            }
            match obj.bounding_box(t0, t1) {
                None => {
                    proof {
                        assert(!all[idx].boundable());
                    }
                    return None;
                },
                Some(b) => {
                    proof {
                        assert(all.subrange(0, idx + 1) =~= all.subrange(0, idx).push(all[idx]));
                    }
                    acc = match acc {
                        None => {
                            proof {
                                assert(all.subrange(0, idx + 1)[0] == all[idx]);
                            }
                            Some(b)
                        },
                        Some(bb) => {
                            proof {
                                crate::bvh::lemma_boxes_union_push(
                                    all.subrange(0, idx),
                                    all[idx],
                                );
                            }
                            Some(bb.around(&b))
                        },
                    };
                },
            }
        }
        let m = self.objects.len();
        for k in 0..m
            invariant
                m == op.len(),
                n == up.len(),
                self.wf(),
                up == self.unbounded@,
                op == self.objects@,
                tp == self.tree_prims(),
                all == self.all_prims(),
                forall|i: int| 0 <= i < tp.len() + up.len() + k ==> (#[trigger] all[i]).boundable(),
                match acc {
                    None => tp.len() + up.len() + k == 0,
                    Some(bb) => tp.len() + up.len() + k >= 1 && bb.wf() && bb
                        == crate::bvh::boxes_union(all.subrange(0, tp.len() + up.len() + k)),
                },
        {
            let obj = &self.objects[k];
            let ghost idx = tp.len() + up.len() + k as int;
            proof {
                assert(all[idx] == op[k as int]);
            }
            match obj.bounding_box(t0, t1) {
                None => {
                    proof {
                        assert(!all[idx].boundable());
                    }
                    return None;
                },
                Some(b) => {
                    proof {
                        assert(all.subrange(0, idx + 1) =~= all.subrange(0, idx).push(all[idx]));
                    }
                    acc = match acc {
                        None => {
                            proof {
                                assert(all.subrange(0, idx + 1)[0] == all[idx]);
                            }
                            Some(b)
                        },
                        Some(bb) => {
                            proof {
                                crate::bvh::lemma_boxes_union_push(
                                    all.subrange(0, idx),
                                    all[idx],
                                );
                            }
                            Some(bb.around(&b))
                        },
                    };
                },
            }
        }
        proof {
            assert(all.subrange(0, all.len() as int) =~= all);
            if acc is Some {
                crate::bvh::lemma_boxes_union_covers(all);
            }
        }
        acc
    }
}

/// The closer of two optional hits; the first wins a tie.
fn closer(a: Option<HitRecord>, b: Option<HitRecord>) -> (r: Option<HitRecord>)
    requires
        a is Some ==> a->0.wf(),
        b is Some ==> b->0.wf(),
    ensures
        r is Some <==> (a is Some || b is Some),
        r is Some ==> r == a || r == b,
        a is Some ==> r is Some && r->0.wf() && frac_le(r->0.t, a->0.t),
        b is Some ==> r is Some && r->0.wf() && frac_le(r->0.t, b->0.t),
{
    match (&a, &b) {
        (None, _) => b,
        (Some(x), None) => a,
        (Some(x), Some(y)) => {
            proof {
                lemma_frac_total(x.t, y.t);
            }
            if x.t.le(&y.t) {
                a
            } else {
                b
            }
        },
    }
}

} // verus!
