//! A small stochastic ray tracer on fixed-point numbers.
//!
//! Every quantity is a [`scalar::Scalar`]: a 64-bit integer read as a multiple
//! of 2^-32 whose arithmetic saturates at the ends of its range, which stand
//! for the infinities. The contracts of the crate are stated over these
//! integers, so each result is fixed bit for bit by the arguments and by the
//! random draws that went into it.
//!
//! A square of a number below 2^-16 is below one step. Lengths, unit
//! vectors, mirrored directions and the quadratic of a sphere are therefore
//! taken of the scaled vector: the vector times the power of two that brings
//! its largest component to one half or more. Every vector but zero has a
//! length and a unit vector, however short it is.
//!
//! Functions that draw random numbers come in pairs: one takes the draw as an
//! argument and has an exact contract, the other makes the draw and promises
//! a result that some draw gives.
//!
//! - [`scalar`]: the numbers and their arithmetic.
//! - [`vec3`]: vectors, points and colours.
//! - [`interval`], [`ray`], [`utils`]: ranges, rays, and conversions.
//! - [`hit`], [`sphere`]: what a ray hits, and the scene that finds the
//!   nearest hit.
//! - [`material`]: how a surface scatters a ray.
//! - [`camera`]: primary rays, the colour that a ray brings back, and the
//!   rendered image.
//! - [`ppm`]: the text of the image.
pub mod camera;
pub mod hit;
pub mod interval;
pub mod material;
pub mod ppm;
pub mod ray;
pub mod scalar;
pub mod sphere;
pub mod utils;
pub mod vec3;
