//! Verified integer kernels for a vision post-processing pipeline:
//! detection filtering and greedy suppression over integer score keys,
//! channel swapping, colour mapping of 8-bit depth images, box outlines,
//! and the index arithmetic of resampling and back-projection.
//!
//! Images are `grid::Frame` values, which hold their samples in an
//! `ndarray` array. Scores enter as integer keys (`score`), and the overlap
//! of two boxes as a yes or no, so that every decision here is exact.

pub mod error;
pub mod channels;
pub mod colormap;
pub mod draw;
pub mod filter;
pub mod grid;
pub mod nms;
pub mod nms_laws;
pub mod resample;
pub mod score;
