//! Chunked escape-time rasterization engine for the Mandelbrot set.
//!
//! The engine works on plain integer data: a raster is partitioned into
//! rectangular chunks, each chunk carries a grid of escape-time counters,
//! the counters are colored through a fixed 16-entry palette, and the
//! colored chunks are merged into one contiguous RGB pixel buffer.
//! Evaluating the escape-time recurrence itself is floating-point work and
//! is done by the caller, which hands the resulting counter grids in.

pub mod assemble;
pub mod chunks;
pub mod errors;
pub mod palette;
pub mod raster;
pub mod render;
