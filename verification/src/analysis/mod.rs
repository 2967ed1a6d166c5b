//! Analysis of the decoded audio: silence detection and waveform peaks.

pub mod rms;
pub mod silence_detection;
pub mod waveform;

pub use rms::calculate_rms;
pub use silence_detection::{analyze_silence_rms, detect_silence, SilenceDetectionConfig};
pub use waveform::{extract_waveform, WaveformData};
