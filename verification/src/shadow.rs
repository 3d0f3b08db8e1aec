//! Shadow runs: what a patch would do.
pub mod config;
pub mod laws;
pub mod runner;
pub mod summary;
