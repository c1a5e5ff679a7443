//! Decoding of chunked, deflate-compressed raster images into pixel grids.
//!
//! The pipeline runs framing (`chunk`), classification (`model`), assembly
//! and decompression (`png`), scanline reconstruction (`filter`) and
//! colour resolution, ending in an `Image`.

pub mod chunk;
pub mod error;
pub mod filter;
pub mod model;
pub mod png;
pub mod image;
