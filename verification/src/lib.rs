//! Onset and peak analysis of audio on fixed-point samples.
//!
//! Samples are signed 16-bit values `x` standing for the amplitude
//! `x / FULL_SCALE`; dimensionless settings (ratios, thresholds) are given in
//! signed thousandths. Every decision the analysis makes is taken on exact integer
//! arithmetic, so each contract states the result over mathematical integers.

pub mod fixed;
pub mod structures;
pub mod finders;
pub mod models;
pub mod transient;
pub mod peaks;

pub use fixed::{FULL_SCALE, PARTS, magnitude};
pub use structures::SampleRange;
pub use finders::{find_peak_sample, find_previous_zero};
pub use models::{AudioInfo, TransientSettings};
pub use transient::{find_init, onset_search_ends, rms_window_size};
pub use peaks::{SUPPRESSION_WIDTH, pick_peaks, overtone_candidates};
