//! Settings.

use vstd::prelude::*;

verus! {

/// When a batch counts as being in the log.
#[derive(Debug, Clone, Copy, PartialEq, Eq, Structural)]
pub enum DurabilityMode {
    /// When it has reached the disk.
    Strict,
    /// When it has been handed to the operating system.
    Fast,
}

/// The settings of a database.
#[derive(Debug, PartialEq, Eq)]
pub struct Config {
    pub db_root: String,
    /// How large the memtable may grow before it is flushed.
    pub max_memtable_size_bytes: usize,
    pub http_bind_address: String,
    /// How many event ids the dedupe cache expects. It grows where more come.
    pub dedupe_capacity: usize,
    /// Over how many buckets a new database spreads its accounts.
    pub default_bucket_count: u32,
    /// How long an hour is waited for before it is rolled up.
    pub rollup_safety_lag_ms: i64,
    /// How long an event may wait in the memtable before it is flushed.
    pub memtable_max_age_ms: i64,
    pub durability_mode: DurabilityMode,
}

impl Clone for Config {
    fn clone(&self) -> (r: Self)
        ensures
            r.db_root@ == self.db_root@,
            r.max_memtable_size_bytes == self.max_memtable_size_bytes,
            r.http_bind_address@ == self.http_bind_address@,
            r.dedupe_capacity == self.dedupe_capacity,
            r.default_bucket_count == self.default_bucket_count,
            r.rollup_safety_lag_ms == self.rollup_safety_lag_ms,
            r.memtable_max_age_ms == self.memtable_max_age_ms,
            r.durability_mode == self.durability_mode,
    {
        Config {
            db_root: self.db_root.clone(),
            max_memtable_size_bytes: self.max_memtable_size_bytes,
            http_bind_address: self.http_bind_address.clone(),
            dedupe_capacity: self.dedupe_capacity,
            default_bucket_count: self.default_bucket_count,
            rollup_safety_lag_ms: self.rollup_safety_lag_ms,
            memtable_max_age_ms: self.memtable_max_age_ms,
            durability_mode: self.durability_mode,
        }
    }
}

impl Default for Config {
    fn default() -> (r: Self)
        ensures
            r.db_root@ == "./data"@,
            r.max_memtable_size_bytes == 64 * 1024 * 1024,
            r.http_bind_address@ == "127.0.0.1:8080"@,
            r.dedupe_capacity == 1_000_000,
            r.default_bucket_count == 256,
            r.rollup_safety_lag_ms == 300_000,
            r.memtable_max_age_ms == 300_000,
            r.durability_mode == DurabilityMode::Strict,
    {
        Config {
            db_root: "./data".to_owned(),
            max_memtable_size_bytes: 67_108_864,
            http_bind_address: "127.0.0.1:8080".to_owned(),
            dedupe_capacity: 1_000_000,
            default_bucket_count: 256,
            rollup_safety_lag_ms: 300_000,
            memtable_max_age_ms: 300_000,
            durability_mode: DurabilityMode::Strict,
        }
    }
}

} // verus!
