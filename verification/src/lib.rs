//! A path tracer in fixed-point arithmetic.
//!
//! Rays are fired from a camera into a scene of spheres and quads, followed
//! through the scatter events that their materials decide, and averaged into
//! the pixels of a plain PPM image. Every real quantity is an integer count
//! of millionths; every decision between hit and miss, inside and outside,
//! front and back is taken on exact integers. The random numbers of a path
//! come from the `rand` crate; each function that draws them has a twin that
//! takes them as arguments.

pub mod camera;
pub mod hit;
pub mod material;
pub mod quad;
pub mod ray;
pub mod sphere;
pub mod util;
pub mod vec3;
