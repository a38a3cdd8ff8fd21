//! The intersection record and the surface protocol's domain.
//!
//! A surface's `hit` reports the nearest valid intersection of a ray in a
//! closed parameter interval, filling in the hit point, the oriented
//! normal, the parameter, the front-face flag and the index of the
//! surface's material in the scene's material arena.

use vstd::prelude::*;
use crate::fixed::ONE;
use crate::vec3::{Vec3, Vec3m, Point3, amax, dot_s, vneg_s, vzero, dot};
use crate::ray::{Ray, Raym};

verus! {

/// Bound on the components of scene geometry (sphere centers and radii)
/// and of ray origins and directions accepted by intersection queries;
/// what the machine's fixed-point range forces.
pub const COORD_LIMIT: i64 = 0x400_0000;

/// Bound on the ray parameters accepted by intersection queries; rays
/// are traced no farther than this.
pub const T_LIMIT: i64 = 0x100_0000;

/// A ray that an intersection query accepts: components in range and a
/// direction that is not degenerate.
pub open spec fn ray_ok_s(r: Raym) -> bool {
    amax(r.origin) <= COORD_LIMIT as int && amax(r.dir) <= COORD_LIMIT as int && dot_s(r.dir, r.dir)
        >= 1
}

/// A hit is on the front face when the ray runs against the geometric
/// outward normal.
pub open spec fn front_face_s(dir: Vec3m, outward: Vec3m) -> bool {
    dot_s(dir, outward) < 0
}

/// The stored normal always opposes the incoming ray: the outward normal
/// on a front-face hit, its negation on a back-face hit.  The dielectric
/// refraction-ratio logic assumes this orientation.
pub open spec fn oriented_normal_s(dir: Vec3m, outward: Vec3m) -> Vec3m {
    if front_face_s(dir, outward) {
        outward
    } else {
        vneg_s(outward)
    }
}

/// The mathematical-integer model of an intersection record.
pub ghost struct HitRecm {
    pub p: Vec3m,
    pub normal: Vec3m,
    pub t: int,
    pub front_face: bool,
    pub mat: int,
}

#[derive(Clone, Copy, Debug, PartialEq, Eq, Structural)]
pub struct HitRecord {
    pub p: Point3,
    pub normal: Vec3,
    pub t: i64,
    pub front_face: bool,
    pub mat: usize,
}

impl View for HitRecord {
    type V = HitRecm;

    open spec fn view(&self) -> HitRecm {
        HitRecm {
            p: self.p@,
            normal: self.normal@,
            t: self.t as int,
            front_face: self.front_face,
            mat: self.mat as int,
        }
    }
}

/// Lifts an optional record to its model.
pub open spec fn rec_view(o: Option<HitRecord>) -> Option<HitRecm> {
    match o {
        Option::Some(h) => Option::Some(h@),
        Option::None => Option::None,
    }
}

impl HitRecord {
    /// A blank record, overwritten on each candidate hit.
    pub fn new() -> (r: HitRecord)
        ensures
            r@ == (HitRecm {
                p: vzero(),
                normal: vzero(),
                t: 0,
                front_face: false,
                mat: 0,
            }),
    {
        HitRecord {
            p: Vec3 { x: 0, y: 0, z: 0 },
            normal: Vec3 { x: 0, y: 0, z: 0 },
            t: 0,
            front_face: false,
            mat: 0,
        }
    }

    /// Stores the front-face flag and the ray-opposing normal computed
    /// from the geometric outward normal.
    pub fn set_face_normal(&mut self, r: &Ray, outward_normal: &Vec3)
        requires
            amax(r@.dir) * amax(outward_normal@) <= 0x2000_0000_0000_0000 * (ONE as int),
            amax(outward_normal@) <= 0x4000_0000_0000_0000,
        ensures
            final(self)@.front_face == front_face_s(r@.dir, outward_normal@),
            final(self)@.normal == oriented_normal_s(r@.dir, outward_normal@),
            final(self)@.p == old(self)@.p,
            final(self)@.t == old(self)@.t,
            final(self)@.mat == old(self)@.mat,
    {
        let d: i64 = dot(&r.direction(), outward_normal);
        self.front_face = d < 0;
        self.normal = if self.front_face {
            *outward_normal
        } else {
            outward_normal.neg()
        };
    }
}

} // verus!
