//! Detection core for finding highlight moments in long recordings.
//!
//! The library fuses two signals — loudness dynamics in the audio track and
//! activity bursts in a chat transcript — into a ranked list of time ranges
//! with explainable scores.  All quantities are integers: times are in
//! milliseconds, amplitudes in 1/32768 steps of full scale, ratios in
//! per-mille, and scores in centi-points (0..=10000 standing for 0..=100).

pub mod audio;
pub mod chat;
pub mod highlight;
pub mod license;
pub mod pro;
pub mod stats;
pub mod text;
pub mod timefmt;
pub mod vad;
pub mod video;
