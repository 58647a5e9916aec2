//! Handing events out in open formats.

pub mod file;
pub mod parquet;
