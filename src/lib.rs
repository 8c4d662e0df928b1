//! Escape-time rendering of the Mandelbrot set into a grayscale buffer.
//!
//! The library holds the integer side of the renderer: the rule that turns an
//! escape count into a pixel intensity, the row-major rasterizer that fills a
//! buffer from a per-pixel evaluator, the partition of an image into
//! horizontal bands for independent workers, and the splitting of
//! `"AxB"`-style coordinate pairs.

pub mod bands;
pub mod parse;
pub mod raster;
mod utf8_bounds;
