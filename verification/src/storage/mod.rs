//! What is kept on disk.

pub mod columns;
pub mod compression;
pub mod dedupe_index;
pub mod encoding;
pub mod generations;
pub mod manifest;
pub mod payload;
pub mod segment_format;
pub mod segment_reader;
pub mod segment_writer;
pub mod wire;
