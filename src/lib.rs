//! Offline bitcrushing: a multi-channel 16-bit signal is resampled to a low
//! rate, requantized to a coarse bit depth, and resampled back to a standard
//! output rate.

pub mod pipeline;
pub mod requantize;
pub mod resample;
pub mod sound;

pub use pipeline::{process, OUTPUT_RATE};
pub use requantize::{requantize, requantize_sample, SAMPLE_BITS};
pub use resample::{lerp, resample, resampled_count, Interpolation};
pub use sound::{Channel, Sound};
