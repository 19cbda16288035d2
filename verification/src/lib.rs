//! Verified core of a brain-extraction pipeline for 3-D medical scans.
//!
//! The library turns raw per-voxel model logits into a clean binary brain
//! mask and a masked image volume: thresholding, 6-connected component
//! labeling with largest-component selection, and mask application.
//! Voxel intensities are carried as IEEE-754 single-precision bit patterns,
//! so that selection and comparison are exact while the library itself
//! stays within integer arithmetic.

pub mod components;
pub mod fbits;
pub mod paths;
pub mod pipeline;
pub mod postprocess;
pub mod volume;
