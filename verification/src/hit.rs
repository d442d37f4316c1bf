use vstd::prelude::*;
use crate::dist::Dist;
use crate::ray::{Ray, Scaled};

verus! {

/// Where a ray struck a surface.
///
/// `pos` and `norm` hold numerators over `dist.den`: the struck point is
/// `pos / dist.den`, and the shading normal there points along `norm`.
#[derive(Clone, Copy, Debug)]
pub struct HitRecord {
    pub dist: Dist,
    pub pos: Scaled,
    pub norm: Scaled,
    /// The place of the struck object in its scene, where it has one.
    pub obj: Option<u32>,
}

/// Something that a ray can strike.
pub trait Hittable {
    type Result;

    /// The rays that `hit` accepts.
    spec fn hit_ready(&self, ray: Ray) -> bool;

    /// What `hit` returns.
    spec fn hit_spec(&self, ray: Ray) -> Option<Self::Result>;

    fn hit(&self, ray: Ray) -> (r: Option<Self::Result>)
        requires
            self.hit_ready(ray),
        ensures
            r == self.hit_spec(ray),
    ;
}

/// Something whose strikes are reported as records.
pub trait RefHittable {

}

impl<T: Hittable<Result = HitRecord>> RefHittable for T {

}

} // verus!
