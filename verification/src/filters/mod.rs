//! Filters: they take one waveform at a time.

pub mod biquad;
pub mod biquad_laws;
pub mod limiter;
pub mod limiter_laws;
pub mod tubestage;
