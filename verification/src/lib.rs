pub mod arith;
pub mod config;
pub mod config_laws;
pub mod exact;
pub mod filters;
pub mod fixed;
pub mod fixed_laws;
pub mod prcfmt;
pub mod processors;
pub mod reals;
pub mod utils;
