//! Grayscale rendering of the Mandelbrot set by independent horizontal bands.
//!
//! The crate holds what is exact about the renderer: how a pair of values is
//! read from a text, how long an orbit is followed and what is reported of
//! it, how an escape iteration becomes an intensity, where each pixel lies in
//! the buffer, how a raster is cut into bands, and how a band and a whole
//! raster are filled. The arithmetic on points of the complex plane is handed
//! in by the caller as functions: a coordinate mapper, an escape-time
//! evaluator, and the step and the divergence test of the recurrence.

pub mod bands;
pub mod dispatch;
pub mod escape;
pub mod pair;
pub mod raster;
