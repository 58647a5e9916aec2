//! An embedded, append-only usage database for billing workloads: the rules by
//! which events are accepted, stored, rolled up, compacted and queried.

pub mod admin;
pub mod api;
pub mod bytes;
pub mod calendar;
pub mod clock;
pub mod compact;
pub mod export;
pub mod hours;
pub mod ingest;
pub mod lists;
pub mod model;
pub mod names;
pub mod period;
pub mod quantity;
pub mod query;
pub mod rollup;
pub mod runtime;
pub mod storage;
pub mod text;
pub mod textmap;
pub mod textset;
