//! Merging small segments into larger ones.

pub mod planner;
pub mod worker;
