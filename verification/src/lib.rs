//! A small offline path tracer over exact fixed-point arithmetic: a camera
//! casts jittered rays into a scene of spheres, follows diffuse bounces to
//! a depth limit, and quantises the averaged colours into 8-bit pixels.
//! Scalars are signed counts of 1/65536, so every operation has an exact
//! integer specification.

pub mod camera;
pub mod fixed;
pub mod ray;
pub mod rtweekend;
pub mod vec3;
