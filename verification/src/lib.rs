//! A sphere-scene Monte-Carlo path tracer on fixed-point arithmetic.
//!
//! All geometry and color values are carried as signed 64-bit integers in
//! micro-units: the integer `1_000_000` stands for the real value `1.0`.
//! Every arithmetic step of the renderer is specified exactly over
//! mathematical integers and verified, including truncating fixed-point
//! multiplication and division and the integer square root.

pub mod camera;
pub mod fixed;
pub mod hittable;
pub mod material;
pub mod ray;
pub mod render;
pub mod rng;
pub mod vec3;

pub use fixed::SCALE;

