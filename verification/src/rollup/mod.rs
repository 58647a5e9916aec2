//! Hourly rollups.

pub mod builder;
pub mod hourly;
pub mod meaning;
pub mod reader;
pub mod segment;
pub mod totals;
pub mod upkeep;
pub mod watermark;
pub mod worker;
pub mod writer;
