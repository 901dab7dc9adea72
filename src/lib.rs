//! An in-memory raster image engine: pixel formats, scanline-based image
//! buffers, geometric transforms and separable filtered resampling.

pub mod format;
pub mod image;
pub mod kernel;
pub mod coeffs;
pub mod resample;
pub mod transform;
