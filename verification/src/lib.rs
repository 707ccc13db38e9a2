//! The combinatorial core of a path tracer: box algebra, the bounding volume
//! hierarchy with its construction and traversal protocols, closest-hit
//! selection and the control of the recursive integrator.
//!
//! Every quantity that the renderer measures (a coordinate, a ray parameter, a
//! cost) appears here as a [`vectors::Scalar`]: an order key. The caller maps
//! its numbers onto keys by any encoding that preserves their order, and
//! performs the arithmetic itself; the library takes every decision that
//! depends only on the order of such values and on the shape of the scene.

pub mod vectors;
pub mod aabb;
pub mod bvh;
pub mod split;
pub mod builder;
pub mod progress;
pub mod hittable;
pub mod traverse;
pub mod nearest;
pub mod ray;
pub mod material;
pub mod sphere;
pub mod quad;
pub mod texture;
pub mod viewport;
