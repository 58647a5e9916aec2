//! Taking events in.

pub mod dedupe;
pub mod flusher;
pub mod memtable;
pub mod partition;
pub mod wal;
pub mod writer;
