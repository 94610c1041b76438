//! Series of fixed-width records at fixed intervals.

pub mod file;
pub mod nffile;
