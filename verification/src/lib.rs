//! Image effects and classifier decision logic for an RGBA safety filter.
//!
//! Images are row-major RGBA8 byte buffers. Numbers that are no integers
//! (a blur radius, the classifier's scores) are IEEE 754 binary32 numbers,
//! carried as their bit patterns and computed with in integer arithmetic.
//! Every routine states its result as a mathematical function of its
//! input, and is proved to compute it without overflow or out-of-bounds
//! access.

pub mod error;
pub mod raster;
pub mod pixelate;
pub mod binary32;
pub mod kernel;
pub mod blur;
pub mod resize;
pub mod preprocess;
pub mod rounding;
pub mod addition;
pub mod multiplication;
pub mod conversion;
pub mod division;
pub mod yuv;
pub mod classify;
pub mod engine;
pub mod timer;
pub mod laws;
