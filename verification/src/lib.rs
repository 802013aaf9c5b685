//! A Monte-Carlo path tracer for scenes of spheres and planes.
//!
//! Rays start at a camera, hit the nearest surface, and go on as its material
//! decides, until they fade, run out of bounces or leave into the sky.
//!
//! Every number is a binary64 value carried as its bit pattern
//! ([`scalar::Scalar`]). The arithmetic on it is integer code, and each
//! result is proved to be the exact one rounded to nearest, ties to even.
//!
//! - Numbers: [`scalar`], [`equality`], [`rounding`], [`arith`], [`convert`].
//! - How far rounding leads from the exact results: [`accuracy`],
//!   [`estimate`], [`norm`].
//! - Geometry and light: [`vec3`], [`ray`], [`color`], [`camera`],
//!   [`object`], [`sphere`], [`plane`].
//! - Random numbers: [`random`].
//! - Rendering: [`tracer`], [`render`].

pub mod scalar;
pub mod equality;
pub mod rounding;
pub mod arith;
pub mod convert;
pub mod accuracy;
pub mod estimate;
pub mod norm;
pub mod vec3;
pub mod color;
pub mod ray;
pub mod random;
pub mod object;
pub mod sphere;
pub mod plane;
pub mod camera;
pub mod tracer;
pub mod render;
