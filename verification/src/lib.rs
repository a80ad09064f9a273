//! A Mandelbrot-set renderer built on fixed-point plane coordinates.
//!
//! The complex plane is modelled in millionths: a coordinate is an `i64`
//! counting 1/1_000_000 units, so every computation is exact integer
//! arithmetic.  The crate provides the escape-time test, the pixel-to-plane
//! coordinate mapping, the rasteriser that fills a grayscale buffer, the
//! parsers for the command-line arguments, and the greatest-common-divisor
//! behind the calculator form.

pub mod escape;
pub mod gcd;
pub mod mapping;
pub mod parse;
pub mod plane;
pub mod render;
