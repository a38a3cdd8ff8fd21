//! The scene aggregate: a collection of spheres sharing a material
//! arena, answering intersection queries with the closest hit.
//!
//! Materials are owned once by the scene and addressed by index, so many
//! spheres may share one material and the whole scene is plain read-only
//! data.  The aggregate's `hit` scans every member — never exiting on the
//! first hit — narrowing the far end of the interval to each accepted
//! candidate; `lemma_list_hit_nearest` states the law this guarantees.

use vstd::prelude::*;
use crate::vec3::dot_s;
use crate::ray::{Ray, Raym};
use crate::hittable::{HitRecord, HitRecm, T_LIMIT, ray_ok_s, rec_view};
use crate::sphere::{
    Sphere, Spherem, sphere_wf_s, sphere_hit_s, lemma_sphere_hit_narrow, lemma_sphere_hit_range,
};
use crate::material::{Material, material_wf_s};

verus! {

/// One step of the closest-hit fold: scan members from `i` on, keeping
/// the best record so far and the parameter of its hit as the new far
/// end of the interval.
pub open spec fn list_hit_from_s(
    objs: Seq<Spherem>,
    i: int,
    r: Raym,
    t_min: int,
    closest: int,
    best: Option<HitRecm>,
) -> Option<HitRecm>
    decreases objs.len() - i,
{
    if i < 0 || i >= objs.len() {
        best
    } else {
        match sphere_hit_s(objs[i], r, t_min, closest) {
            Option::Some(h) => list_hit_from_s(objs, i + 1, r, t_min, h.t, Option::Some(h)),
            Option::None => list_hit_from_s(objs, i + 1, r, t_min, closest, best),
        }
    }
}

/// The aggregate's answer: the closest-hit fold over all members,
/// starting from the caller's interval.
pub open spec fn list_hit_s(objs: Seq<Spherem>, r: Raym, t_min: int, t_max: int) -> Option<
    HitRecm,
> {
    list_hit_from_s(objs, 0, r, t_min, t_max, Option::None)
}

pub struct HittableList {
    pub objects: Vec<Sphere>,
    pub materials: Vec<Material>,
}

impl HittableList {
    /// The models of the member spheres.
    pub open spec fn objs_s(&self) -> Seq<Spherem> {
        self.objects@.map_values(|s: Sphere| s@)
    }

    /// The material arena.
    pub open spec fn mats_s(&self) -> Seq<Material> {
        self.materials@
    }

    /// A scene the renderer accepts: every sphere in range, every
    /// material index valid, every material well formed.
    pub open spec fn wf_s(&self) -> bool {
        &&& forall|i: int|
            0 <= i < self.objs_s().len() ==> sphere_wf_s(#[trigger] self.objs_s()[i])
        &&& forall|i: int|
            0 <= i < self.objs_s().len() ==> 0 <= (#[trigger] self.objs_s()[i]).mat
                < self.mats_s().len()
        &&& forall|i: int|
            0 <= i < self.mats_s().len() ==> material_wf_s(#[trigger] self.mats_s()[i])
    }

    pub fn new() -> (r: HittableList)
        ensures
            r.objs_s() == Seq::<Spherem>::empty(),
            r.mats_s() == Seq::<Material>::empty(),
            r.wf_s(),
    {
        let r = HittableList { objects: Vec::new(), materials: Vec::new() };
        proof {
            assert(r.objs_s() =~= Seq::<Spherem>::empty());
            assert(r.mats_s() =~= Seq::<Material>::empty());
        }
        r
    }

    /// Places a material in the arena and returns its handle.
    pub fn add_material(&mut self, m: Material) -> (idx: usize)
        requires
            old(self).wf_s(),
            material_wf_s(m),
        ensures
            final(self).wf_s(),
            final(self).mats_s() == old(self).mats_s().push(m),
            final(self).objs_s() == old(self).objs_s(),
            idx as int == old(self).mats_s().len(),
    {
        let idx = self.materials.len();
        self.materials.push(m);
        proof {
            assert(self.objs_s() =~= old(self).objs_s());
            assert forall|i: int| 0 <= i < self.mats_s().len() implies material_wf_s(
                #[trigger] self.mats_s()[i],
            ) by {
                if i < old(self).mats_s().len() {
                    assert(material_wf_s(old(self).mats_s()[i]));
                }
            }
        }
        idx
    }

    /// Adds a sphere whose material handle points into the arena.
    pub fn add(&mut self, object: Sphere)
        requires
            old(self).wf_s(),
            sphere_wf_s(object@),
            (object.mat as int) < old(self).mats_s().len(),
        ensures
            final(self).wf_s(),
            final(self).objs_s() == old(self).objs_s().push(object@),
            final(self).mats_s() == old(self).mats_s(),
    {
        self.objects.push(object);
        proof {
            assert(self.objs_s() =~= old(self).objs_s().push(object@));
        }
    }

    /// Removes every sphere; the material arena is kept.
    pub fn clear(&mut self)
        requires
            old(self).wf_s(),
        ensures
            final(self).wf_s(),
            final(self).objs_s() == Seq::<Spherem>::empty(),
            final(self).mats_s() == old(self).mats_s(),
    {
        self.objects.clear();
        proof {
            assert(self.objs_s() =~= Seq::<Spherem>::empty());
            assert forall|i: int| 0 <= i < self.mats_s().len() implies material_wf_s(
                #[trigger] self.mats_s()[i],
            ) by {
                assert(material_wf_s(old(self).mats_s()[i]));
            }
        }
    }

    /// Scans every member and reports the closest accepted hit, exactly
    /// the closest-hit fold `list_hit_s`.
    pub fn hit(&self, r: &Ray, t_min: i64, t_max: i64) -> (result: Option<HitRecord>)
        requires
            self.wf_s(),
            ray_ok_s(r@),
            0 <= t_min <= t_max <= T_LIMIT,
        ensures
            rec_view(result) == list_hit_s(self.objs_s(), r@, t_min as int, t_max as int),
            result matches Some(rec) ==> t_min <= rec.t <= t_max && 0 <= (rec.mat as int)
                < self.mats_s().len(),
    {
        let ghost objs = self.objs_s();
        let mut result: Option<HitRecord> = Option::None;
        let mut closest: i64 = t_max;
        let mut idx: usize = 0;
        while idx < self.objects.len()
            invariant
                self.wf_s(),
                ray_ok_s(r@),
                objs == self.objs_s(),
                0 <= idx <= self.objects.len(),
                0 <= t_min <= closest <= t_max <= T_LIMIT,
                list_hit_from_s(objs, idx as int, r@, t_min as int, closest as int,
                    rec_view(result)) == list_hit_s(objs, r@, t_min as int, t_max as int),
                result matches Some(rec) ==> closest == rec.t && t_min <= rec.t <= t_max && 0 <= (
                rec.mat as int) < self.mats_s().len(),
                result is None ==> closest == t_max,
            decreases self.objects.len() - idx,
        {
            proof {
                assert(objs[idx as int] == self.objects@[idx as int]@);
            }
            let candidate: Option<HitRecord> = self.objects[idx].hit(r, t_min, closest);
            match candidate {
                Option::Some(rec) => {
                    proof {
                        assert(sphere_hit_s(objs[idx as int], r@, t_min as int, closest as int)
                            == Option::Some(rec@));
                    }
                    result = Option::Some(rec);
                    closest = rec.t;
                },
                Option::None => {},
            }
            idx = idx + 1;
        }
        result
    }
}

/// The nearest-surface law of the aggregate: what the fold reports is a
/// hit that some member reports over the caller's whole interval, and no
/// member reports a closer one; and when the fold reports nothing, no
/// member hits at all.  The aggregate never returns a merely
/// first-encountered hit.
pub proof fn lemma_list_hit_nearest(objs: Seq<Spherem>, r: Raym, t_min: int, t_max: int)
    requires
        t_min <= t_max,
        dot_s(r.dir, r.dir) >= 1,
    ensures
        list_hit_s(objs, r, t_min, t_max) matches Some(h) ==> {
            &&& t_min <= h.t <= t_max
            &&& exists|j: int|
                0 <= j < objs.len() && #[trigger] sphere_hit_s(objs[j], r, t_min, t_max)
                    == Option::Some(h)
            &&& forall|j: int|
                0 <= j < objs.len() ==> match #[trigger] sphere_hit_s(objs[j], r, t_min, t_max) {
                    Option::Some(g) => h.t <= g.t,
                    Option::None => true,
                }
        },
        list_hit_s(objs, r, t_min, t_max) is None ==> forall|j: int|
            0 <= j < objs.len() ==> #[trigger] sphere_hit_s(objs[j], r, t_min, t_max) is None,
{
    lemma_fold_nearest(objs, 0, r, t_min, t_max, t_max, Option::None);
}

/// The induction behind `lemma_list_hit_nearest`, generalized over the
/// fold's accumulator.
proof fn lemma_fold_nearest(
    objs: Seq<Spherem>,
    i: int,
    r: Raym,
    t_min: int,
    t_max: int,
    closest: int,
    best: Option<HitRecm>,
)
    requires
        dot_s(r.dir, r.dir) >= 1,
        0 <= i <= objs.len(),
        t_min <= closest <= t_max,
        best matches Some(b) ==> closest == b.t && t_min <= b.t <= t_max && exists|j: int|
            0 <= j < i && #[trigger] sphere_hit_s(objs[j], r, t_min, t_max) == Option::Some(b),
        best is None ==> closest == t_max && forall|j: int|
            0 <= j < i ==> #[trigger] sphere_hit_s(objs[j], r, t_min, t_max) is None,
        forall|j: int|
            0 <= j < i ==> match #[trigger] sphere_hit_s(objs[j], r, t_min, t_max) {
                Option::Some(g) => closest <= g.t,
                Option::None => true,
            },
    ensures
        list_hit_from_s(objs, i, r, t_min, closest, best) matches Some(h) ==> {
            &&& t_min <= h.t <= t_max
            &&& exists|j: int|
                0 <= j < objs.len() && #[trigger] sphere_hit_s(objs[j], r, t_min, t_max)
                    == Option::Some(h)
            &&& forall|j: int|
                0 <= j < objs.len() ==> match #[trigger] sphere_hit_s(objs[j], r, t_min, t_max) {
                    Option::Some(g) => h.t <= g.t,
                    Option::None => true,
                }
        },
        list_hit_from_s(objs, i, r, t_min, closest, best) is None ==> best is None && forall|
            j: int,
        |
            0 <= j < objs.len() ==> #[trigger] sphere_hit_s(objs[j], r, t_min, t_max) is None,
    decreases objs.len() - i,
{
    if i == objs.len() {
    } else {
        lemma_sphere_hit_narrow(objs[i], r, t_min, closest, t_max);
        lemma_sphere_hit_range(objs[i], r, t_min, t_max);
        match sphere_hit_s(objs[i], r, t_min, closest) {
            Option::Some(h) => {
                assert(sphere_hit_s(objs[i], r, t_min, t_max) == Option::Some(h));
                assert(forall|j: int|
                    0 <= j < i + 1 ==> match #[trigger] sphere_hit_s(objs[j], r, t_min, t_max) {
                        Option::Some(g) => h.t <= g.t,
                        Option::None => true,
                    });
                lemma_fold_nearest(objs, i + 1, r, t_min, t_max, h.t, Option::Some(h));
            },
            Option::None => {
                if best is None {
                    assert forall|j: int| 0 <= j < i + 1 implies #[trigger] sphere_hit_s(
                        objs[j],
                        r,
                        t_min,
                        t_max,
                    ) is None by {
                        if j == i {
                            match sphere_hit_s(objs[i], r, t_min, t_max) {
                                Option::Some(g) => {
                                    assert(g.t > closest && g.t <= t_max && closest == t_max);
                                    assert(false);
                                },
                                Option::None => {},
                            }
                        }
                    }
                }
                lemma_fold_nearest(objs, i + 1, r, t_min, t_max, closest, best);
            },
        }
    }
}

} // verus!
