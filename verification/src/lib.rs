//! The tracing core of a path tracer, in exact arithmetic.
//!
//! Points and directions are vectors of integers on a lattice, with
//! coordinates of a magnitude up to `vec::COORD_MAX`. A ray's direction is any
//! lattice vector, of any length, and a distance along a ray is a fraction of
//! two integers that counts lengths of the direction. Every test of a ray
//! against a box or a triangle is decided without rounding: products are
//! compared, never quotients. What needs real numbers (unit vectors, areas,
//! colours, the camera) is left to the program around this library, which
//! moves between its own units and the lattice.
//!
//! A hierarchy of bounding boxes (`bvh`) is built over the triangles of each
//! mesh (`mesh`) and over the meshes of a scene (`scene`). Searching it gives
//! the nearest strike of a ray; `nearest` holds the proof of that.

pub mod aabb;
pub mod algebra;
pub mod bvh;
pub mod color;
pub mod dist;
pub mod hit;
pub mod image;
pub mod material;
pub mod mesh;
pub mod nearest;
pub mod ray;
pub mod scene;
pub mod triangle;
pub mod utils;
pub mod vec;
pub mod vertex;
