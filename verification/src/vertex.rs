use vstd::prelude::*;
use crate::vec::Vec3;

verus! {

/// A corner of a mesh: a point and the shading normal there. The normal is
/// any lattice vector along its direction.
#[derive(Debug, Clone, Copy)]
pub struct Vertex {
    pub pos: Vec3,
    pub norm: Vec3,
}

impl Vertex {
    /// Point and normal are in range.
    pub open spec fn wf(self) -> bool {
        self.pos.in_range() && self.norm.in_range()
    }
}

} // verus!
