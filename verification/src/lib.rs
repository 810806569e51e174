//! A sphere ray tracer whose arithmetic is IEEE 754 binary32, carried out on
//! bit patterns and verified down to the rounding of every operation.
//!
//! The numbers: `format` says what a bit pattern denotes, `exact` what it
//! means to round to nearest, `round` and `arith` carry the operations out,
//! `evaluate` and `accuracy` say when a result is exact and how far off it
//! can be otherwise.
//!
//! The tracer: `vec`, `ray` and `camera` hold the geometry, `scene` the
//! spheres and the light that comes back along a ray, `material` what a
//! surface does to it, `sampler` the supply of random samples, and `render`
//! the way from a scene to the bytes of an image. `intersection` states what
//! rounding leaves of the geometry of a ray and a sphere.
pub mod accuracy;
pub mod arith;
pub mod bits;
pub mod camera;
pub mod evaluate;
pub mod exact;
pub mod format;
pub mod intersection;
pub mod material;
pub mod ray;
pub mod render;
pub mod round;
pub mod sampler;
pub mod scene;
pub mod vec;

pub use camera::Camera;
pub use format::Binary32;
pub use material::{Lambertian, Material, Reflective, Surface};
pub use ray::Ray;
pub use render::{pixel, render};
pub use sampler::Sampler;
pub use scene::{HitRecord, Hitable, Objects, Sphere};
pub use vec::{Axis, Vec3};
