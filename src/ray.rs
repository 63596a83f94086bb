//! Rays: an origin and a direction.
use vstd::prelude::*;
use crate::fixed::in_range;
use crate::vec3::{add_spec, scale_spec, Vec3};

verus! {

#[derive(Clone, Copy, Debug, PartialEq, Eq, Structural)]
pub struct Ray3 {
    pub origin: Vec3,
    pub direction: Vec3,
}

/// The point `origin + t * direction`.
pub open spec fn at_spec(ray: Ray3, t: int) -> Vec3 {
    add_spec(ray.origin, scale_spec(t, ray.direction))
}

impl Ray3 {
    pub open spec fn wf(self) -> bool {
        self.origin.wf() && self.direction.wf()
    }

    pub fn at(&self, t: i64) -> (r: Vec3)
        requires
            self.wf(),
            in_range(t as int),
        ensures
            r == at_spec(*self, t as int),
            r.wf(),
    {
        self.origin.add(self.direction.scale(t))
    }
}

} // verus!
