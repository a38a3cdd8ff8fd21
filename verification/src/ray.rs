//! Rays: an origin plus a direction, parameterized by a scalar `t`.

use vstd::prelude::*;
use crate::fixed::{ONE, iabs};
use crate::vec3::{Vec3, Vec3m, Point3, amax, vadd_s, vscale_s};

verus! {

/// The mathematical-integer model of a ray.
pub ghost struct Raym {
    pub origin: Vec3m,
    pub dir: Vec3m,
}

#[derive(Clone, Copy, Debug, PartialEq, Eq, Structural)]
pub struct Ray {
    origin: Point3,
    dir: Vec3,
}

impl View for Ray {
    type V = Raym;

    closed spec fn view(&self) -> Raym {
        Raym { origin: self.origin@, dir: self.dir@ }
    }
}

/// The point a ray reaches at parameter `t`: `origin + t * direction`.
pub open spec fn at_s(r: Raym, t: int) -> Vec3m {
    vadd_s(r.origin, vscale_s(r.dir, t))
}

impl Ray {
    pub fn new(origin: Point3, dir: Vec3) -> (r: Ray)
        ensures
            r@ == (Raym { origin: origin@, dir: dir@ }),
    {
        Ray { origin, dir }
    }

    pub fn origin(&self) -> (r: Point3)
        ensures
            r@ == self@.origin,
    {
        self.origin
    }

    pub fn direction(&self) -> (r: Vec3)
        ensures
            r@ == self@.dir,
    {
        self.dir
    }

    /// The point reached at parameter `t`.
    pub fn at(&self, t: i64) -> (r: Point3)
        requires
            amax(self@.dir) * iabs(t as int) <= (i64::MAX as int) * (ONE as int),
            amax(self@.origin) + (amax(self@.dir) * iabs(t as int)) / (ONE as int) <= i64::MAX,
        ensures
            r@ == at_s(self@, t as int),
            amax(r@) <= amax(self@.origin) + (amax(self@.dir) * iabs(t as int)) / (ONE as int),
    {
        let stepped: Vec3 = self.dir.scale(t);
        self.origin.add(stepped)
    }
}

} // verus!
