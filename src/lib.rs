//! Exposure-bracket HDR imaging on integer data: median-threshold-bitmap
//! alignment, Robertson response calibration, radiance merging, exposure
//! fusion and tonemapping, each stated against a mathematical model and
//! verified.
//!
//! Everything is integer or fixed point. Left out, because they rest on
//! real logarithms, real powers or floating-point least squares: Debevec
//! response calibration, the Drago and Mantiuk tonemaps, and gamma
//! correction (with its getter and setter); the linear tonemap has a gamma
//! of one.

pub mod image;
pub mod arith;
pub mod mtb;
pub mod pyramid;
pub mod align;
pub mod merge;
pub mod tonemap;
pub mod blend;
pub mod fusion;
pub mod calibrate;
pub mod pipeline;
