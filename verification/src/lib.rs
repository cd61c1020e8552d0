//! A path tracer core on a fixed-point lattice: axis-aligned boxes, bounding
//! volume hierarchies and their traversal, the nearest-hit query and the
//! radiance integrator, with every result stated as a contract.
//!
//! All quantities are integers. A scalar is a signed number of ticks, with
//! [`vec3::ONE`] ticks to the unit. Coordinates are `i32`, and the two ends of
//! the `i32` range play the part of the two infinities. Ray parameters are
//! `i64` ticks: the point of a ray at the parameter `t` is
//! `origin + direction * t / ONE`.
//!
//! - [`vec3`], [`axis`], [`slab`], [`aabb`], [`ray`]: vectors, boxes, rays and
//!   the exact ray-box test.
//! - [`hittable`], [`material`], [`texture`]: what shapes, materials and
//!   textures can do, and the laws that the hierarchies rely on in a shape.
//! - [`bvh`]: the hierarchy as a tree that owns its shapes; [`bvh::sah`] and
//!   [`bvh2`]: the hierarchy in a flat array, split by the surface area
//!   heuristic or at the median; [`bvh::layout`]: what the two flat
//!   hierarchies share, and the laws of building and walking them.
//! - [`integrator`]: the radiance along a ray, and the way from samples to
//!   the bytes of an image.
//! - [`scene`], [`geometry`], [`direction`], [`perlin`], [`random`],
//!   [`sorting`], [`util`]: the scene, the triangle, the vector of length
//!   one along a vector, the noise lattice, the random numbers drawn, stable
//!   sorting, and joins over lists of shapes.

pub mod aabb;
pub mod axis;
pub mod bvh;
pub mod bvh2;
pub mod direction;
pub mod geometry;
pub mod hittable;
pub mod integrator;
pub mod material;
pub mod perlin;
pub mod random;
pub mod ray;
pub mod scene;
pub mod slab;
pub mod sorting;
pub mod texture;
pub mod util;
pub mod vec3;
