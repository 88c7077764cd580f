//! Processors: they take a whole chunk of audio, all channels at once.

pub mod declipper;
pub mod expander;
pub mod expander_dynamics;
pub mod expander_laws;
pub mod truepeak;
