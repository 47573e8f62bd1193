//! A parametric line: origin plus parameter times direction.

use crate::fixed::fits_i64;
use crate::fixed::fmul;
use crate::vec3::svadd;
use crate::vec3::svscale;
use crate::vec3::Vec3;
use crate::vec3::V3;
use vstd::prelude::*;

verus! {

/// The mathematical value of a ray.
pub struct RayS {
    pub origin: V3,
    pub direction: V3,
}

/// A ray; the direction need not be unit length.
#[derive(Clone, Copy, Debug, PartialEq, Eq, Structural)]
pub struct Ray {
    pub origin: Vec3,
    pub direction: Vec3,
}

impl View for Ray {
    type V = RayS;

    open spec fn view(&self) -> RayS {
        RayS { origin: self.origin@, direction: self.direction@ }
    }
}

/// The point a ray reaches at parameter `t`.
pub open spec fn sray_at(r: RayS, t: int) -> V3 {
    svadd(r.origin, svscale(r.direction, t))
}

impl Ray {
    /// A ray out of an origin along a direction.
    pub fn new(origin: Vec3, direction: Vec3) -> (r: Ray)
        ensures
            r@.origin == origin@,
            r@.direction == direction@,
    {
        Ray { origin, direction }
    }

    /// The point the ray reaches at parameter `t`.
    pub fn at(&self, t: i64) -> (p: Vec3)
        requires
            fits_i64(fmul(self@.direction.x, t as int)),
            fits_i64(fmul(self@.direction.y, t as int)),
            fits_i64(fmul(self@.direction.z, t as int)),
            fits_i64(self@.origin.x + fmul(self@.direction.x, t as int)),
            fits_i64(self@.origin.y + fmul(self@.direction.y, t as int)),
            fits_i64(self@.origin.z + fmul(self@.direction.z, t as int)),
        ensures
            p@ == sray_at(self@, t as int),
    {
        self.origin.add(self.direction.scale(t))
    }
}

} // verus!
