//! What is kept in memory and how states are saved.

use std::collections::HashMap;

use usagedb::compact::planner::CompactionPlanner;
use usagedb::compact::worker::{merge_events, CompactionWorker};
use usagedb::hours::start_of_unit;
use usagedb::ingest::dedupe::{DedupeResult, HotDedupe};
use usagedb::ingest::memtable::Memtable;
use usagedb::ingest::partition::partition_by_bucket;
use usagedb::ingest::wal::{wal_file_id, wal_file_name, Wal};
use usagedb::model::dimensions::SmallDimensions;
use usagedb::model::event::{EventKind, UsageEvent};
use usagedb::model::ids::{
    bucket_for_account, AccountId, EventId, MeterId, ModelId, ProductId, SourceId, SubscriptionId,
    Unit,
};
use usagedb::rollup::watermark::WatermarkTracker;
use usagedb::rollup::worker::{LiveState, RollupWorker, TickDecision};
use usagedb::runtime::config::{Config, DurabilityMode};
use usagedb::runtime::recovery::{compute_event_hashes, Recovery};
use usagedb::runtime::state::{seal_of, settle};
use usagedb::storage::generations::{
    generation_file_name, generation_of_file, generations_to_prune, generations_to_try, plan_load,
    pointer_text, read_pointer, LoadPlan,
};
use usagedb::storage::manifest::Manifest;
use usagedb::text::{parse_int, signed_decimal_of, IntFault};
use usagedb::textmap::TextMap;
use usagedb::textset::TextSet;

fn make_event(id: &str, account: &str, ts: i64, qty: i128) -> UsageEvent {
    UsageEvent {
        event_id: EventId(id.to_string()),
        kind: EventKind::Usage,
        correction_ref: None,
        account_id: AccountId(account.to_string()),
        subscription_id: Some(SubscriptionId("sub_1".to_string())),
        product_id: ProductId("ai_gateway".to_string()),
        meter_id: MeterId("tokens.input".to_string()),
        timestamp_ms: ts,
        quantity: qty,
        unit: Unit("token".to_string()),
        source: SourceId("test".to_string()),
        model_id: Some(ModelId("sonnet-4".to_string())),
        dimensions: SmallDimensions::default(),
        ingested_at_ms: ts,
    }
}

// ---------------------------------------------------------------------------
// Buckets
// ---------------------------------------------------------------------------

#[test]
fn bucket_is_deterministic_for_a_given_account_and_count() {
    let acc = AccountId("acc_12345".to_string());
    let b1 = bucket_for_account(&acc, 64);
    let b2 = bucket_for_account(&acc, 64);
    assert_eq!(b1, b2, "same account + same bucket_count must yield same bucket");
    assert!(b1 < 64);
}

#[test]
fn bucket_changes_with_bucket_count() {
    let acc = AccountId("acc_constant".to_string());
    let b64 = bucket_for_account(&acc, 64);
    let b256 = bucket_for_account(&acc, 256);
    assert!(b64 < 64);
    assert!(b256 < 256);
}

#[test]
fn zero_bucket_count_yields_zero() {
    let acc = AccountId("acc_x".to_string());
    assert_eq!(bucket_for_account(&acc, 0), 0);
}

#[test]
fn bucket_distribution_is_roughly_uniform() {
    let bucket_count = 64u32;
    let mut counts: HashMap<u32, usize> = HashMap::new();
    for i in 0..10_000 {
        let acc = AccountId(format!("acc_{}", i));
        let b = bucket_for_account(&acc, bucket_count);
        *counts.entry(b).or_insert(0) += 1;
    }
    assert_eq!(counts.len(), bucket_count as usize, "every bucket should see traffic");
    let min = *counts.values().min().unwrap();
    let max = *counts.values().max().unwrap();
    assert!(min >= 80, "min bucket count {} too low — distribution skewed", min);
    assert!(max <= 240, "max bucket count {} too high — distribution skewed", max);
}

#[test]
fn bucket_is_the_digest_modulo_the_count() {
    let digest = blake3::hash(b"acc_12345");
    let mut head = [0u8; 4];
    head.copy_from_slice(&digest.as_bytes()[..4]);
    let bucket = bucket_for_account(&AccountId("acc_12345".into()), 1000);
    assert_eq!(bucket, u32::from_le_bytes(head) % 1000);
}

#[test]
fn partition_keeps_order_within_a_bucket() {
    let events: Vec<UsageEvent> =
        (0..30).map(|i| make_event(&format!("e{i}"), &format!("acc_{i}"), i, 1)).collect();
    let parts = partition_by_bucket(events, 4);
    let total: usize = parts.iter().map(|p| p.events.len()).sum();
    assert_eq!(total, 30);
    for p in &parts {
        assert!(p.events.iter().all(|e| bucket_for_account(&e.account_id, 4) == p.bucket));
        assert!(p.events.windows(2).all(|w| w[0].timestamp_ms < w[1].timestamp_ms));
    }
}

// ---------------------------------------------------------------------------
// The log
// ---------------------------------------------------------------------------

#[test]
fn wal_rotate_seals_active_file_and_starts_new_one() {
    let mut wal = Wal::open(&vec![], 0);
    let starting_id = wal.active_id;
    let mut on_disk = vec![starting_id];

    let sealed_id = wal.rotate();
    on_disk.push(wal.active_id);
    assert_eq!(sealed_id, starting_id);
    assert_eq!(wal.active_id, starting_id + 1);

    let ids = Wal::list_files_after(&on_disk, 0);
    assert!(ids.contains(&sealed_id), "sealed file should still be on disk");
    assert!(ids.contains(&wal.active_id), "active file should be on disk");
}

#[test]
fn delete_files_through_removes_sealed_only() {
    let mut wal = Wal::open(&vec![], 0);
    let id1 = wal.active_id;
    let sealed = wal.rotate();
    assert_eq!(sealed, id1);
    let id2 = wal.active_id;
    let mut on_disk = vec![id1, id2];

    let gone = Wal::delete_files_through(&on_disk, sealed);
    on_disk.retain(|id| !gone.contains(id));

    let remaining = Wal::list_files_after(&on_disk, 0);
    assert!(!remaining.contains(&id1), "sealed file should be deleted");
    assert!(remaining.contains(&id2), "active file must be kept");
}

#[test]
fn log_files_have_numbered_names() {
    assert_eq!(wal_file_name(7), "wal-000007.jsonl");
    assert_eq!(wal_file_id("wal-000007.jsonl"), Some(7));
    assert_eq!(wal_file_id(&wal_file_name(u64::MAX)), Some(u64::MAX));
    assert_eq!(wal_file_id("wal-.jsonl"), None);
    assert_eq!(wal_file_id("other"), None);
    assert_eq!(Wal::open(&vec![4, 9, 2], 3).active_id, 9);
    assert_eq!(Wal::list_files_after(&vec![4, 9, 2], 2), vec![4, 9]);
}

// ---------------------------------------------------------------------------
// Dedupe and memtable
// ---------------------------------------------------------------------------

#[test]
fn dedupe_classify_does_not_mutate() {
    let mut dedupe = HotDedupe::new(100);
    let (h, p) = (123u128, 456u128);
    assert_eq!(dedupe.classify(h, p), DedupeResult::NewEvent);
    assert_eq!(dedupe.classify(h, p), DedupeResult::NewEvent);

    dedupe.commit(h, p);
    assert_eq!(dedupe.classify(h, p), DedupeResult::ExactDuplicate);
}

#[test]
fn dedupe_forgets_nothing() {
    let mut dedupe = HotDedupe::new(2);
    for id in 0u128..50 {
        assert_eq!(dedupe.check_and_insert(id, id + 100), DedupeResult::NewEvent);
    }
    for id in 0u128..50 {
        assert_eq!(dedupe.classify(id, id + 100), DedupeResult::ExactDuplicate);
        assert_eq!(dedupe.check_and_insert(id, 7), DedupeResult::PayloadConflict);
    }
    dedupe.commit_at(3, 7, 0);
    assert_eq!(dedupe.classify(3, 103), DedupeResult::ExactDuplicate);
    assert_eq!(HotDedupe::default().classify(3, 103), DedupeResult::NewEvent);
    assert_eq!(HotDedupe::new(usize::MAX).classify(3, 103), DedupeResult::NewEvent);
}

#[test]
fn memtable_snapshot_preserves_state() {
    let mut mt = Memtable::new();
    mt.insert(make_event("e1", "a", 1, 10));
    mt.insert(make_event("e2", "a", 2, 20));

    let snap = mt.snapshot();
    assert_eq!(snap.len(), 2);
    assert_eq!(mt.len(), 2);
}

#[test]
fn memtable_knows_its_oldest_events() {
    let mut mt = Memtable::new();
    assert_eq!((mt.oldest_insert_at_ms(), mt.min_event_timestamp_ms()), (None, None));
    mt.insert_at(make_event("e1", "a", 50, 10), 1000);
    mt.insert_at(make_event("e2", "a", 20, 20), 2000);
    assert_eq!((mt.oldest_insert_at_ms(), mt.min_event_timestamp_ms()), (Some(1000), Some(20)));
    assert!(mt.size_bytes() >= 2 * Memtable::estimate_event_size(&make_event("e1", "a", 0, 0)));
    let drained = mt.drain_all();
    assert_eq!(drained.len(), 2);
    assert!(mt.is_empty());
    assert_eq!(mt.size_bytes(), 0);
    mt.insert_at(make_event("e3", "a", 5, 1), 3000);
    mt.restore(drained, 4000);
    assert_eq!((mt.len(), mt.min_event_timestamp_ms()), (3, Some(5)));
    let mut now = Memtable::new();
    now.insert(make_event("e", "a", 1, 1));
    assert!(now.oldest_insert_at_ms().unwrap() > 1_600_000_000_000);
}

#[test]
fn hashes_tell_payloads_apart() {
    let a = make_event("e", "acc", 1, 1);
    let mut later = make_event("e", "acc", 1, 1);
    later.ingested_at_ms = 99;
    assert_eq!(compute_event_hashes(&a), compute_event_hashes(&later));
    let b = make_event("e", "acc", 1, 2);
    assert_eq!(compute_event_hashes(&a).0, compute_event_hashes(&b).0);
    assert_ne!(compute_event_hashes(&a).1, compute_event_hashes(&b).1);
    let mut head = [0u8; 16];
    head.copy_from_slice(&blake3::hash(b"e").as_bytes()[..16]);
    assert_eq!(compute_event_hashes(&a).0, u128::from_le_bytes(head));
    assert_eq!(Recovery::new("root".into()).db_root, "root");
}

// ---------------------------------------------------------------------------
// Saved states
// ---------------------------------------------------------------------------

#[test]
fn save_creates_generation_files() {
    let m = Manifest::default();
    let m = m.to_save();
    assert_eq!(generation_file_name(m.current_generation), "manifest-000001.json");
    assert_eq!(m.current_generation, 1);

    let m = m.to_save();
    assert_eq!(generation_file_name(m.current_generation), "manifest-000002.json");
    assert_eq!(m.current_generation, 2);

    let contents = pointer_text(m.current_generation);
    assert_eq!(contents.trim(), "2");
}

#[test]
fn load_rolls_back_through_corrupt_generations() {
    let order = generations_to_try(&vec![1, 2, 3], Some(3));
    assert_eq!(order, vec![3, 2, 1]);
    let readable = |g: &u64| *g != 3;
    assert_eq!(order.into_iter().find(readable), Some(2));
}

#[test]
fn load_fails_closed_when_no_generation_is_valid() {
    let pointer = read_pointer("1\n");
    assert_eq!(pointer, Some(1));
    // There are states to try, so the database is not taken for a new one.
    assert_eq!(plan_load(&vec![1], pointer, false), LoadPlan::Generations(vec![1]));
}

#[test]
fn load_migrates_legacy_manifest() {
    let legacy = Manifest { bucket_count: 64, ..Manifest::default() };
    assert_eq!(plan_load(&vec![], None, true), LoadPlan::Legacy);
    let loaded = legacy.to_save();
    assert_eq!(loaded.bucket_count, 64);
    assert_eq!(loaded.current_generation, 1);
    assert_eq!(plan_load(&vec![1], Some(1), false), LoadPlan::Generations(vec![1]));
}

#[test]
fn load_returns_none_for_fresh_db() {
    assert_eq!(plan_load(&vec![], None, false), LoadPlan::Fresh);
}

#[test]
fn old_generations_get_pruned() {
    let mut m = Manifest::default();
    let mut kept: Vec<u64> = Vec::new();
    for _ in 0..12 {
        m = m.to_save();
        kept.push(m.current_generation);
        let gone = generations_to_prune(&kept, m.current_generation);
        kept.retain(|g| !gone.contains(g));
    }
    assert!(kept.len() <= 10, "expected at most 10 generation files, got {:?}", kept);
    assert!(!kept.contains(&1));
    assert!(!kept.contains(&2));
    assert!(kept.contains(&12));
}

#[test]
fn recovery_starts_fresh_when_no_manifest_exists() {
    assert_eq!(plan_load(&vec![], None, false), LoadPlan::Fresh);
    let manifest = Manifest::default();
    assert!(manifest.raw_segments.is_empty());
}

#[test]
fn generation_files_are_told_by_their_names() {
    assert_eq!(generation_of_file("manifest-000012.json"), Some(12));
    assert_eq!(generation_of_file(&generation_file_name(1_234_567)), Some(1_234_567));
    assert_eq!(generation_of_file("CURRENT"), None);
    assert_eq!(generation_of_file("manifest-x.json"), None);
    assert_eq!(read_pointer("not a number"), None);
    assert_eq!(read_pointer(&pointer_text(77)), Some(77));
    assert_eq!(generations_to_try(&vec![5, 2, 9], Some(5)), vec![5, 2]);
}

#[test]
fn commit_manifest_if_skips_save_when_closure_returns_none() {
    let mut manifest = Manifest { current_generation: 3, ..Manifest::default() };
    settle(&mut manifest, None);
    assert_eq!(manifest.current_generation, 3);
    assert_eq!(manifest.closed_periods.len(), 0);
}

// ---------------------------------------------------------------------------
// Workers
// ---------------------------------------------------------------------------

#[test]
fn ticks_wait_for_what_is_open() {
    let hour = 3_600_000;
    let worker = RollupWorker::new(1_000, 5_000);
    let manifest = Manifest::default();
    let live = |active: u64, oldest: Option<i64>, min: Option<i64>| LiveState {
        active_wal_id: active,
        oldest_insert_at_ms: oldest,
        min_event_timestamp_ms: min,
    };
    let at = 10 * hour;
    assert!(matches!(
        worker.decide(at + 999, &manifest, &live(1, None, None)),
        TickDecision::Roll { from_ms: 0, to_ms } if to_ms == 9 * hour
    ));
    assert!(matches!(
        worker.decide(at + 1_000, &manifest, &live(1, None, None)),
        TickDecision::Roll { from_ms: 0, to_ms } if to_ms == at
    ));
    assert!(matches!(
        worker.decide(at + 1_000, &manifest, &live(1, Some(at), Some(2 * hour + 5))),
        TickDecision::Roll { from_ms: 0, to_ms } if to_ms == 2 * hour
    ));
    assert!(matches!(
        worker.decide(at, &manifest, &live(1, Some(at - 5_001), Some(1))),
        TickDecision::ForceFlush
    ));
    assert!(matches!(worker.decide(at, &manifest, &live(2, None, None)), TickDecision::InFlight));
    assert_eq!(start_of_unit(-1, hour), 0);
    assert_eq!(start_of_unit(hour + 5, hour), hour);
}

#[test]
fn compaction_is_planned_by_bucket() {
    let planner = CompactionPlanner::new();
    assert!(planner.plan_compaction(&[]).is_empty());
    let worker = CompactionWorker::new(2, 30_000);
    let record = worker.run_compaction(vec!["a".into(), "b".into()], "c".into(), 5);
    assert_eq!(record.old_segments, vec!["a", "b"]);
    assert_eq!(record.new_segments, vec!["c"]);
    assert_eq!(record.committed_at_ms, 5);
    let merged = merge_events(vec![
        make_event("b", "acc", 2, 1),
        make_event("a", "acc", 1, 1),
        make_event("b", "acc", 2, 1),
    ]);
    assert_eq!(merged.len(), 2);
    assert_eq!(merged[0].event_id.0, "a");
}

#[test]
fn watermarks_are_kept_by_partition() {
    let mut tracker = WatermarkTracker::new();
    assert_eq!(tracker.get_watermark("p"), None);
    tracker.update_watermark("p", 5);
    tracker.update_watermark("q", 6);
    tracker.update_watermark("p", 7);
    assert_eq!(tracker.get_watermark("p"), Some(7));
    assert_eq!(tracker.get_watermark("q"), Some(6));
}

// ---------------------------------------------------------------------------
// Settings and small parts
// ---------------------------------------------------------------------------

#[test]
fn settings_have_defaults() {
    let c = Config::default();
    assert_eq!(c.db_root, "./data");
    assert_eq!(c.max_memtable_size_bytes, 64 * 1024 * 1024);
    assert_eq!(c.http_bind_address, "127.0.0.1:8080");
    assert_eq!(c.dedupe_capacity, 1_000_000);
    assert_eq!(c.default_bucket_count, 256);
    assert_eq!((c.rollup_safety_lag_ms, c.memtable_max_age_ms), (300_000, 300_000));
    assert_eq!(c.durability_mode, DurabilityMode::Strict);
    assert_eq!(c.clone(), c);
}

#[test]
fn maps_and_sets_of_texts_are_ordered() {
    let mut m: TextMap<i64> = TextMap::new();
    assert_eq!(m.insert("b".into(), 1), None);
    assert_eq!(m.insert("a".into(), 2), None);
    assert_eq!(m.insert("b".into(), 3), Some(1));
    assert_eq!((m.len(), m.key_at(0).as_str(), *m.value_at(1)), (2, "a", 3));
    assert!(m.contains_key("a") && !m.contains_key("c"));
    let mut s = TextSet::new();
    s.insert("y".into());
    s.insert("x".into());
    s.insert("y".into());
    assert_eq!((s.len(), s.at(0).as_str(), s.at(1).as_str()), (2, "x", "y"));
    assert!(s.contains("x") && !s.contains("z"));
}

#[test]
fn numbers_are_read_and_written() {
    assert_eq!(parse_int("-42", -100, 100), Ok(-42));
    assert_eq!(parse_int("", 0, 9), Err(IntFault::Empty));
    assert_eq!(parse_int("1x", 0, 9), Err(IntFault::InvalidDigit));
    assert_eq!(parse_int("10", 0, 9), Err(IntFault::TooLarge));
    assert_eq!(parse_int("-10", -9, 9), Err(IntFault::TooSmall));
    assert_eq!(signed_decimal_of(i128::MIN), i128::MIN.to_string());
}

#[test]
fn flush_seals_unless_held() {
    assert_eq!(seal_of(5, 0), 5);
    assert_eq!(seal_of(5, 5), 5);
    assert_eq!(seal_of(5, 6), 0);
}
