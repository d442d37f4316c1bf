use vstd::prelude::*;
use crate::vec::{Vec3, Vector};

verus! {

/// The smallest step of the lattice: the smallest determinant at which a
/// triangle counts as facing a ray, and the number of lengths of its
/// direction by which a ray is moved off the surface that it leaves.
pub const EPSILON: i64 = 1;

/// The octant of a vector as a number below eight: one is added for a
/// negative first component, two for a negative second, four for a negative
/// third.
pub open spec fn octant(v: Vector) -> int {
    (if v.x < 0 {
        1int
    } else {
        0int
    }) + (if v.y < 0 {
        2int
    } else {
        0int
    }) + (if v.z < 0 {
        4int
    } else {
        0int
    })
}

/// The diagonal of the octant `q`: each component is `-1` where the octant
/// has that component negative, else `1`.
pub open spec fn diagonal(q: int) -> Vector {
    Vector {
        x: if q % 2 == 1 {
            -1
        } else {
            1
        },
        y: if (q / 2) % 2 == 1 {
            -1
        } else {
            1
        },
        z: if (q / 4) % 2 == 1 {
            -1
        } else {
            1
        },
    }
}

/// The octant in which `v` lies.
pub fn quadrant(v: Vec3) -> (q: usize)
    ensures
        q == octant(v@),
        q < 8,
{
    let mut q: usize = 0;
    if v.x < 0 {
        q = q + 1;
    }
    if v.y < 0 {
        q = q + 2;
    }
    if v.z < 0 {
        q = q + 4;
    }
    q
}

/// A vector that lies in the octant `q`.
pub fn quadrant_dir(q: usize) -> (v: Vec3)
    requires
        q < 8,
    ensures
        v@ == diagonal(q as int),
        octant(v@) == q,
{
    let x: i64 = if q % 2 == 1 {
        -1
    } else {
        1
    };
    let y: i64 = if (q / 2) % 2 == 1 {
        -1
    } else {
        1
    };
    let z: i64 = if (q / 4) % 2 == 1 {
        -1
    } else {
        1
    };
    Vec3::new(x, y, z)
}

} // verus!
