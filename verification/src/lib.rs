//! Silence detection and timeline segmentation for recorded video.
//!
//! Times are whole microseconds and amplitudes are thousandths of one step of
//! a signed 16-bit sample, so that everything here is integer arithmetic.

pub mod analysis;
pub mod error;
pub mod export;
pub mod timeline;
