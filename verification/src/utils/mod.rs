//! Pieces that the filters and processors are built from.

pub mod dc_gain;
pub mod resampling;
pub mod window;
