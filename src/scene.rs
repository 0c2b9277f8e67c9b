use vstd::prelude::*;

use crate::bvh::{all_objects, contains_spec, encloses, first_hit, hit_outcome, union_all, Aabb, BVH};
use crate::vec::{copy_all, Vec3};

verus! {

/// Raised when objects are added to, or a hierarchy built for, a scene whose
/// hierarchy is already built.
#[derive(Debug, Clone, Copy, PartialEq, Eq)]
pub struct NotEditable;

/// What a linear scan shows: the hit of the first object whose probe hits,
/// or the background when every probe misses.
pub open spec fn first_probe_hit<O, C, F: Fn(&O) -> Option<C>>(objects: Seq<O>, probe: F, background: C, r: C) -> bool {
    (exists|i: int|
        0 <= i < objects.len() && probe.ensures((&objects[i],), Some(r)) && forall|j: int|
            0 <= j < i ==> #[trigger] probe.ensures((&objects[j],), None::<C>))
    || (r == background && forall|i: int| 0 <= i < objects.len() ==> #[trigger] probe.ensures((&objects[i],), None::<C>))
}

/// A batch of objects with their boxes and a background; once its hierarchy
/// is built the scene is read-only.
pub struct ObjectsScene<O, C> {
    objects: Vec<O>,
    boxes: Vec<Aabb>,
    centers: Vec<Vec3<i64>>,
    background: C,
    accelerator: Option<BVH>,
}

impl<O, C: Copy> ObjectsScene<O, C> {
    pub closed spec fn objects_view(&self) -> Seq<O> {
        self.objects@
    }

    pub closed spec fn boxes_view(&self) -> Seq<Aabb> {
        self.boxes@
    }

    pub closed spec fn centers_view(&self) -> Seq<Vec3<i64>> {
        self.centers@
    }

    /// The hierarchy, once built.
    pub closed spec fn accelerator_view(&self) -> Option<BVH> {
        self.accelerator
    }

    pub closed spec fn background_view(&self) -> C {
        self.background
    }

    pub closed spec fn is_built(&self) -> bool {
        self.accelerator is Some
    }

    pub closed spec fn wf(&self) -> bool {
        &&& self.objects@.len() == self.boxes@.len()
        &&& self.centers@.len() == self.boxes@.len()
        &&& self.accelerator matches Some(b) ==> b.wf() && b.boxes_view() == self.boxes@
    }

    pub fn new(background: C) -> (r: Self)
        ensures
            r.wf(),
            r.objects_view().len() == 0,
            !r.is_built(),
            r.background_view() == background,
    {
        ObjectsScene { objects: Vec::new(), boxes: Vec::new(), centers: Vec::new(), background, accelerator: None }
    }

    /// Adds an object with its box and the key of its center.
    pub fn add(&mut self, object: O, bounds: Aabb, center: Vec3<i64>) -> (r: Result<(), NotEditable>)
        requires
            old(self).wf(),
        ensures
            final(self).wf(),
            r is Err <==> old(self).is_built(),
            final(self).is_built() == old(self).is_built(),
            final(self).background_view() == old(self).background_view(),
            r is Ok ==> final(self).objects_view() == old(self).objects_view().push(object),
            r is Ok ==> final(self).boxes_view() == old(self).boxes_view().push(bounds),
            r is Ok ==> final(self).centers_view() == old(self).centers_view().push(center),
            r is Err ==> final(self).objects_view() == old(self).objects_view() && final(self).boxes_view() == old(self).boxes_view(),
    {
        if self.accelerator.is_some() {
            return Err(NotEditable);
        }
        self.objects.push(object);
        self.boxes.push(bounds);
        self.centers.push(center);
        Ok(())
    }

    /// Builds the hierarchy over the objects; the scene is read-only after.
    pub fn build_bvh<F: Fn(Aabb) -> u8>(&mut self, widest_axis: &F) -> (r: Result<(), NotEditable>)
        requires
            old(self).wf(),
            forall|b: Aabb| #[trigger] widest_axis.requires((b,)),
        ensures
            final(self).wf(),
            r is Err <==> old(self).is_built(),
            final(self).is_built(),
            r is Ok ==> (final(self).accelerator_view() matches Some(b) && b.built_from(
                old(self).boxes_view(),
                old(self).centers_view(),
                *widest_axis,
            )),
            final(self).objects_view() == old(self).objects_view(),
            final(self).boxes_view() == old(self).boxes_view(),
            final(self).background_view() == old(self).background_view(),
    {
        if self.accelerator.is_some() {
            return Err(NotEditable);
        }
        let boxes = copy_all(self.boxes.as_slice());
        let bvh = BVH::new(boxes, &self.centers, widest_axis);
        self.accelerator = Some(bvh);
        Ok(())
    }

    pub fn set_background(&mut self, background: C)
        ensures
            final(self).background_view() == background,
            final(self).objects_view() == old(self).objects_view(),
            final(self).boxes_view() == old(self).boxes_view(),
            final(self).is_built() == old(self).is_built(),
            old(self).wf() ==> final(self).wf(),
    {
        self.background = background;
    }

    /// The color seen at `p`: the hit of an object that holds `p` (through
    /// the hierarchy once built, else the first in order), or the background
    /// when no object whose box holds `p` is hit.
    pub fn hit<F: Fn(&O) -> Option<C>>(&self, p: Vec3<i64>, probe: &F) -> (r: C)
        requires
            self.wf(),
            forall|o: &O| #[trigger] probe.requires((o,)),
        ensures
            (exists|i: int| 0 <= i < self.objects_view().len() && #[trigger] probe.ensures((&self.objects_view()[i],), Some(r)))
            || (r == self.background_view() && forall|i: int|
                0 <= i < self.objects_view().len() && contains_spec(self.boxes_view()[i], p)
                    ==> #[trigger] probe.ensures((&self.objects_view()[i],), None::<C>)),
            !self.is_built() ==> first_probe_hit(self.objects_view(), *probe, self.background_view(), r),
    {
        let objects = &self.objects;
        let one = |i: usize| -> (r: Option<C>)
            requires
                i < objects@.len(),
            ensures
                probe.ensures((&objects@[i as int],), r),
            { probe(&objects[i]) };
        let n = objects.len();
        let found = match &self.accelerator {
            Some(bvh) => {
                let found = bvh.hit(p, &one);
                proof {
                    assert(hit_outcome(all_objects(n as nat), self.boxes@, p, one, found));
                    if found is Some {
                        let i = choose|i: usize| #[trigger] all_objects(n as nat).contains(i) && contains_spec(self.boxes@[i as int], p) && one.ensures((i,), found);
                        assert(probe.ensures((&self.objects@[i as int],), found));
                        assert(exists|k: int| 0 <= k < self.objects@.len() && #[trigger] probe.ensures((&self.objects@[k],), found));
                    } else {
                        assert forall|i: int| 0 <= i < objects@.len() && contains_spec(self.boxes@[i], p)
                            implies #[trigger] probe.ensures((&objects@[i],), None::<C>) by {
                            assert(all_objects(n as nat).contains(i as usize));
                        }
                    }
                }
                found
            },
            None => {
                let found = first_hit(n, &one);
                proof {
                    if found is Some {
                        let i = choose|i: usize| i < n && one.ensures((i,), found) && forall|j: usize| j < i ==> #[trigger] one.ensures((j,), None::<C>);
                        assert(probe.ensures((&self.objects@[i as int],), found));
                        assert(exists|k: int| 0 <= k < self.objects@.len() && #[trigger] probe.ensures((&self.objects@[k],), found));
                        assert forall|j: int| 0 <= j < i implies #[trigger] probe.ensures((&self.objects@[j],), None::<C>) by {
                            assert(one.ensures((j as usize,), None::<C>));
                        }
                    } else {
                        assert forall|i: int| 0 <= i < objects@.len()
                            implies #[trigger] probe.ensures((&objects@[i],), None::<C>) by {
                            assert(one.ensures((i as usize,), None::<C>));
                        }
                    }
                }
                found
            },
        };
        match found {
            Some(c) => {
                assert(self.objects_view() == self.objects@);
                assert(exists|k: int| 0 <= k < self.objects_view().len() && #[trigger] probe.ensures((&self.objects_view()[k],), Some(c)));
                c
            },
            None => {
                assert(self.objects_view() == self.objects@);
                assert(self.boxes_view() == self.boxes@);
                self.background
            },
        }
    }

    /// The box that covers every object, or none for an empty scene.
    pub fn bounding_box(&self) -> (r: Option<Aabb>)
        requires
            self.wf(),
        ensures
            r is None <==> self.boxes_view().len() == 0,
            r matches Some(b) ==> b == union_all(self.boxes_view()),
            r matches Some(b) ==> forall|i: int| 0 <= i < self.boxes_view().len() ==> encloses(b, #[trigger] self.boxes_view()[i]),
    {
        match &self.accelerator {
            Some(bvh) => bvh.bounding_box(),
            None => {
                if self.boxes.len() == 0 {
                    return None;
                }
                let mut acc = self.boxes[0];
                let mut i: usize = 1;
                assert(self.boxes@.subrange(0, 1) =~= seq![self.boxes@[0]]);
                while i < self.boxes.len()
                    invariant
                        1 <= i <= self.boxes@.len(),
                        acc == union_all(self.boxes@.subrange(0, i as int)),
                        forall|a: int| 0 <= a < i ==> encloses(acc, #[trigger] self.boxes@[a]),
                    decreases self.boxes@.len() - i,
                {
                    acc = acc.union(&self.boxes[i]);
                    i = i + 1;
                    assert(self.boxes@.subrange(0, i as int).drop_last() =~= self.boxes@.subrange(0, i - 1));
                }
                assert(self.boxes@.subrange(0, i as int) =~= self.boxes@);
                Some(acc)
            },
        }
    }
}


} // verus!
