//! Whole flows on a database whose files are held in memory.

use std::collections::{HashMap, HashSet};

use chrono::{NaiveDate, TimeZone, Utc};

use usagedb::admin::{
    check_deep, check_summary, export_report, inspect_segment, rebuild_range, segment_file_name,
    verify_period, verify_segment, CheckedSegment,
};
use usagedb::api::http::{IngestBatchRequest, IngestBatchResponse};
use usagedb::api::http_server::{admit_batch, commit_batch, sort_batch};
use usagedb::api::queries::{corrections_plan, parse_range, sum_plan};
use usagedb::api::reports::{
    account_period, explain_account, extract_quantity_sum, freeze_period, verify_account,
};
use usagedb::compact::planner::CompactionPlanner;
use usagedb::compact::worker::{merge_events, CompactionTickStats, CompactionWorker};
use usagedb::export::parquet::{collect_events, table_of};
use usagedb::ingest::dedupe::{DedupeResult, HotDedupe};
use usagedb::ingest::flusher::build_segment_meta;
use usagedb::ingest::memtable::Memtable;
use usagedb::ingest::partition::{commit_flush, flush_parts};
use usagedb::ingest::wal::Wal;
use usagedb::model::dimensions::SmallDimensions;
use usagedb::model::event::{CorrectionRef, EventKind, UsageEvent};
use usagedb::model::ids::{
    bucket_for_account, AccountId, EventId, MeterId, ModelId, ProductId, SourceId, SubscriptionId,
    Unit,
};
use usagedb::period::{close_period, parse_period, reopen_period, CloseOutcome, PeriodReport};
use usagedb::query::executor::{execute_plan, CellValue, QueryRow};
use usagedb::query::plan::{AggregationFunction, QueryFilter, QueryPlan, QuerySource};
use usagedb::query::pruning::relevant_segments;
use usagedb::rollup::hourly::HourlyRollupRecord;
use usagedb::rollup::reader::RollupSegmentReader;
use usagedb::rollup::worker::{
    commit_tick, force_drain_memtable, rebuild_rollups, roll_hours, segments_in_range, LiveState,
    LoadedSegment, RollupTickStats, RollupWorker, TickDecision,
};
use usagedb::rollup::writer::write_rollup_segment;
use usagedb::runtime::recovery::compute_event_hashes;
use usagedb::runtime::replay::{
    commit_entries, index_entries_of, replay_log, segment_entries, segments_to_scan,
};
use usagedb::runtime::state::{seal_of, settle, FlushMessage};
use usagedb::storage::dedupe_index::{index_path, write_dedupe_index};
use usagedb::storage::generations::{plan_load, pointer_text, read_pointer, LoadPlan};
use usagedb::storage::manifest::{Manifest, SegmentKind};
use usagedb::storage::segment_reader::RawSegmentReader;
use usagedb::storage::segment_writer::RawSegmentWriter;
use usagedb::textmap::TextMap;

const HOUR_MS: i64 = 3_600_000;

struct Db {
    manifest: Manifest,
    memtable: Memtable,
    dedupe: HotDedupe,
    wal: Wal,
    held_from: u64,
    /// The log's files, by their numbers.
    log: HashMap<u64, Vec<UsageEvent>>,
    files: HashMap<String, Vec<u8>>,
    next_id: u32,
    max_memtable_size_bytes: usize,
}

impl Db {
    fn new(bucket_count: u32) -> Db {
        Db {
            manifest: Manifest { bucket_count, ..Manifest::default() },
            memtable: Memtable::new(),
            dedupe: HotDedupe::new(1000),
            wal: Wal::open(&vec![], 0),
            held_from: 0,
            log: HashMap::new(),
            files: HashMap::new(),
            next_id: 0,
            max_memtable_size_bytes: 64 * 1024 * 1024,
        }
    }

    fn fresh_id(&mut self, kind: &str) -> String {
        self.next_id += 1;
        format!("{}_{:04}", kind, self.next_id)
    }

    fn save(&mut self) {
        let saved = self.manifest.to_save();
        settle(&mut self.manifest, Some(saved));
    }

    fn write_raw(&mut self, segment_id: &str, events: &[UsageEvent], bucket: u32) {
        let mut writer = RawSegmentWriter::new();
        for e in events {
            writer.write_event(e);
        }
        let file = writer.finish().unwrap();
        let meta = build_segment_meta(segment_id, events, bucket, file.checksum);
        self.files.insert(segment_file_name(segment_id, SegmentKind::Raw), file.bytes);
        self.manifest.raw_segments.push(meta);
    }

    fn commit_segment(&mut self, events: &[UsageEvent], bucket: u32) -> String {
        let id = self.fresh_id("raw");
        self.write_raw(&id, events, bucket);
        self.save();
        id
    }

    fn raw_events(&self, id: &str) -> Vec<UsageEvent> {
        let name = segment_file_name(id, SegmentKind::Raw);
        RawSegmentReader::new(&self.files[&name]).unwrap().into_events()
    }

    fn rollup_records(&self, id: &str) -> Vec<HourlyRollupRecord> {
        let meta = self.manifest.rollup_segments.iter().find(|m| m.segment_id == id).unwrap();
        let name = segment_file_name(id, SegmentKind::Rollup);
        RollupSegmentReader::open(&self.files[&name], meta.checksum).unwrap().into_records()
    }

    /// What a plan reads.
    fn load(&self, plan: &QueryPlan) -> (Vec<HourlyRollupRecord>, Vec<UsageEvent>) {
        let buckets = self.manifest.bucket_count;
        let mut records = Vec::new();
        for id in relevant_segments(plan, &self.manifest.rollup_segments, buckets) {
            records.extend(self.rollup_records(&id));
        }
        let mut events = Vec::new();
        for id in relevant_segments(plan, &self.manifest.raw_segments, buckets) {
            events.extend(self.raw_events(&id));
        }
        events.extend(self.memtable.snapshot());
        (records, events)
    }

    fn query(&self, plan: &QueryPlan) -> Vec<QueryRow> {
        let (records, events) = self.load(plan);
        execute_plan(plan, self.manifest.watermarks.hourly_rollup_ms, &records, &events)
    }

    fn sum(&self, plan: &QueryPlan) -> i128 {
        extract_quantity_sum(&self.query(plan))
    }

    /// What is there of an account, unfiltered.
    fn load_account(
        &self,
        account: &str,
        from: i64,
        to: i64,
    ) -> (Vec<HourlyRollupRecord>, Vec<UsageEvent>) {
        self.load(&sum_plan(account, from, to, QuerySource::RollupHourly))
    }

    fn tick(&mut self, worker: &RollupWorker, now: i64) -> (RollupTickStats, Option<FlushMessage>) {
        let live = LiveState {
            active_wal_id: self.wal.active_id,
            oldest_insert_at_ms: self.memtable.oldest_insert_at_ms(),
            min_event_timestamp_ms: self.memtable.min_event_timestamp_ms(),
        };
        let decision = worker.decide(now, &self.manifest, &live);
        let watermark = self.manifest.watermarks.hourly_rollup_ms;
        match decision {
            TickDecision::ForceFlush => {
                let msg = force_drain_memtable(&mut self.memtable, &mut self.wal);
                (decision.stats(watermark, 0, 0), msg)
            }
            TickDecision::Roll { from_ms, to_ms } => {
                let mut segments = Vec::new();
                for id in segments_in_range(&self.manifest.raw_segments, from_ms, to_ms) {
                    let events = self.raw_events(&id);
                    segments.push(LoadedSegment { segment_id: id, events });
                }
                let (rollups, hours) = roll_hours(
                    from_ms,
                    to_ms,
                    &segments,
                    &self.manifest.rollup_segments,
                    self.manifest.bucket_count.max(1),
                );
                let mut metas = Vec::new();
                for r in &rollups {
                    let id = self.fresh_id("rollup");
                    let file = write_rollup_segment(&r.records);
                    assert_eq!(file.row_count as usize, r.records.len());
                    metas.push(r.segment_meta(&id, file.checksum));
                    self.files.insert(segment_file_name(&id, SegmentKind::Rollup), file.bytes);
                }
                let written = metas.len();
                commit_tick(&mut self.manifest, metas, to_ms);
                self.save();
                (decision.stats(watermark, written, hours as usize), None)
            }
            _ => (decision.stats(watermark, 0, 0), None),
        }
    }

    fn ingest(&mut self, request: IngestBatchRequest, now: i64) -> (IngestBatchResponse, Option<FlushMessage>) {
        let (classified, rejected) = admit_batch(request.events, &self.manifest, now);
        let sorted = sort_batch(&self.dedupe, classified);
        let accepted = sorted.new_events.len();
        let active = self.wal.active_id;
        for c in &sorted.new_events {
            self.log.entry(active).or_default().push(c.event.clone());
        }
        let (duplicates, conflicts) = (sorted.duplicates, sorted.conflicts);
        let drained = commit_batch(
            &mut self.dedupe,
            &mut self.memtable,
            &mut self.wal,
            sorted.new_events,
            now,
            self.max_memtable_size_bytes,
        );
        (IngestBatchResponse { accepted, duplicates, conflicts, rejected }, drained)
    }

    fn flush(&mut self, msg: FlushMessage) {
        let before = self.manifest.raw_segments.len();
        for part in flush_parts(msg.events, self.manifest.bucket_count) {
            let id = self.fresh_id("raw");
            self.write_raw(&id, &part.events, part.bucket);
            let entries = index_entries_of(&part.events);
            self.files.insert(index_path(&id), write_dedupe_index(&entries));
        }
        let metas = self.manifest.raw_segments.split_off(before);
        let sealed = seal_of(msg.sealed_wal_id, self.held_from);
        commit_flush(&mut self.manifest, metas, sealed);
        self.save();
        let ids: Vec<u64> = self.log.keys().copied().collect();
        for id in Wal::delete_files_through(&ids, sealed) {
            self.log.remove(&id);
        }
    }

    /// The segments could not be written.
    fn flush_fails(&mut self, msg: FlushMessage, now: i64) {
        self.memtable.restore(msg.events, now);
        self.held_from = self.wal.active_id;
    }

    /// Starts up again: what is known, and what is in the memtable.
    fn restart(&self, now: i64) -> (HotDedupe, Memtable) {
        let mut dedupe = HotDedupe::new(10_000);
        for id in segments_to_scan(&self.manifest.raw_segments, now) {
            let index = self.files.get(&index_path(&id));
            let segment = &self.files[&segment_file_name(&id, SegmentKind::Raw)];
            let entries = segment_entries(index.map(|v| v.as_slice()), segment).unwrap();
            commit_entries(&mut dedupe, &entries);
        }
        let mut memtable = Memtable::new();
        let ids: Vec<u64> = self.log.keys().copied().collect();
        for id in Wal::list_files_after(&ids, self.manifest.last_sealed_wal_id) {
            replay_log(&mut dedupe, &mut memtable, self.log[&id].clone(), now);
        }
        (dedupe, memtable)
    }

    fn compact(&mut self, worker: &CompactionWorker, now: i64) -> CompactionTickStats {
        let due = worker.due_segments(&self.manifest, now);
        for id in &due {
            self.files.remove(&segment_file_name(id, SegmentKind::Raw));
        }
        let replacements_finalized = worker.finalize_replacements(&mut self.manifest, now);
        let planner = CompactionPlanner {
            max_small_segments: worker.max_small_segments,
            ..CompactionPlanner::new()
        };
        let plans = planner.plan_compaction(&self.manifest.raw_segments);
        let compactions_committed = plans.len();
        for ids in plans {
            let mut all = Vec::new();
            let mut bucket = 0;
            for id in &ids {
                bucket = self.manifest.raw_segments.iter().find(|m| &m.segment_id == id).unwrap().bucket;
                all.extend(self.raw_events(id));
            }
            let merged = merge_events(all);
            let id = self.fresh_id("compacted");
            self.write_raw(&id, &merged, bucket);
            let meta = self.manifest.raw_segments.pop().unwrap();
            worker.commit_compaction(&mut self.manifest, ids, meta, now);
        }
        CompactionTickStats { compactions_committed, replacements_finalized }
    }

    fn close(&mut self, account: &str, period: &str, now: i64) -> CloseOutcome {
        let (year, month) = parse_period(period).unwrap();
        let (from, to) = usagedb::calendar::month_bounds(year, month);
        let (records, events) = self.load_account(account, from, to);
        let watermark = self.manifest.watermarks.hourly_rollup_ms;
        let entry = freeze_period(account, year, month, now, watermark, &records, &events);
        close_period(&mut self.manifest, entry)
    }

    fn reopen(&mut self, account: &str, period: &str) -> bool {
        let (year, month) = parse_period(period).unwrap();
        reopen_period(&mut self.manifest, account, year, month)
    }

    fn period(&self, account: &str, period: &str) -> PeriodReport {
        let (year, month) = parse_period(period).unwrap();
        let (from, to) = usagedb::calendar::month_bounds(year, month);
        let (records, events) = self.load_account(account, from, to);
        account_period(&self.manifest, account, year, month, &records, &events)
    }
}

fn make_event(id: &str, account: &str, ts: i64, qty: i128) -> UsageEvent {
    UsageEvent {
        event_id: EventId(id.to_string()),
        kind: EventKind::Usage,
        correction_ref: None,
        account_id: AccountId(account.to_string()),
        subscription_id: Some(SubscriptionId("sub".into())),
        product_id: ProductId("prod".into()),
        meter_id: MeterId("meter".into()),
        timestamp_ms: ts,
        quantity: qty,
        unit: Unit("token".into()),
        source: SourceId("test".into()),
        model_id: Some(ModelId("m1".into())),
        dimensions: SmallDimensions::default(),
        ingested_at_ms: ts,
    }
}

fn make_event_with_source(
    id: &str,
    account: &str,
    ts: i64,
    qty: i128,
    source: &str,
    unit: &str,
) -> UsageEvent {
    UsageEvent {
        source: SourceId(source.into()),
        unit: Unit(unit.into()),
        ..make_event(id, account, ts, qty)
    }
}

fn make_correction(id: &str, account: &str, ts: i64, qty: i128, original: &str, reason: &str) -> UsageEvent {
    UsageEvent {
        kind: EventKind::Correction,
        correction_ref: Some(CorrectionRef {
            original_event_id: EventId(original.into()),
            reason: reason.into(),
        }),
        ..make_event(id, account, ts, qty)
    }
}

fn bucket_of(account: &str, count: u32) -> u32 {
    bucket_for_account(&AccountId(account.into()), count)
}

fn sum_metrics() -> TextMap<AggregationFunction> {
    let mut m = TextMap::new();
    m.insert("quantity".to_string(), AggregationFunction::Sum);
    m
}

fn plan_of(source: QuerySource, account: &str, from_ms: i64, to_ms: i64) -> QueryPlan {
    QueryPlan {
        source,
        account_id: Some(account.to_string()),
        from_ms,
        to_ms,
        filters: vec![],
        group_by: vec![],
        metrics: sum_metrics(),
        limit: None,
    }
}

fn filter(field: &str, values: &[&str]) -> QueryFilter {
    QueryFilter {
        field: field.to_string(),
        values: values.iter().map(|v| v.to_string()).collect(),
    }
}

fn text_cell(row: &QueryRow, name: &str) -> String {
    match row {
        QueryRow::Values(cells) => match cells.get(name) {
            Some(CellValue::Text(t)) => t.clone(),
            _ => String::new(),
        },
        QueryRow::Event(_) => String::new(),
    }
}

fn sums_by(rows: &[QueryRow], column: &str) -> HashMap<String, i128> {
    rows.iter()
        .map(|r| (text_cell(r, column), text_cell(r, "quantity").parse().unwrap_or(0)))
        .collect()
}

fn rollup_worker() -> RollupWorker {
    RollupWorker::new(0, i64::MAX)
}

fn batch(events: Vec<UsageEvent>) -> IngestBatchRequest {
    IngestBatchRequest { events }
}

/// The first second of a day.
fn ts_at(year: i32, month: u32, day: u32) -> i64 {
    let dt = NaiveDate::from_ymd_opt(year, month, day).unwrap().and_hms_opt(0, 0, 0).unwrap();
    Utc.from_utc_datetime(&dt).timestamp_millis()
}

const NOW: i64 = 1_780_000_000_000;

// ---------------------------------------------------------------------------
// Rollups
// ---------------------------------------------------------------------------

#[test]
fn tick_seals_completed_hours_and_advances_watermark() {
    let mut db = Db::new(4);
    let hour100 = 100 * HOUR_MS;
    let events: Vec<UsageEvent> = (0..10)
        .map(|i| make_event(&format!("evt_{i}"), &format!("acc_{}", i % 3), hour100 + i, 100 + i as i128))
        .collect();
    let mut by_bucket: HashMap<u32, Vec<UsageEvent>> = HashMap::new();
    for e in &events {
        by_bucket.entry(bucket_for_account(&e.account_id, 4)).or_default().push(e.clone());
    }
    for (bucket, evs) in &by_bucket {
        db.commit_segment(evs, *bucket);
    }

    let (stats, _) = db.tick(&rollup_worker(), (101 * HOUR_MS) + 1);
    assert!(stats.segments_written > 0, "tick must write at least one rollup segment");
    assert_eq!(stats.watermark_ms, 101 * HOUR_MS, "watermark must advance to target_hour");
    assert_eq!(db.manifest.watermarks.hourly_rollup_ms, 101 * HOUR_MS);
    assert_eq!(db.manifest.rollup_segments.len(), by_bucket.len());

    let total: i128 = db.manifest.rollup_segments.iter().map(|s| s.quantity_sum.unwrap_or(0)).sum();
    let expected: i128 = events.iter().map(|e| e.quantity).sum();
    assert_eq!(total, expected, "rollup quantity sum must equal raw event sum");
}

#[test]
fn second_tick_is_noop_for_the_same_window() {
    let mut db = Db::new(2);
    let hour = 50 * HOUR_MS;
    let events: Vec<UsageEvent> =
        (0..5).map(|i| make_event(&format!("e{i}"), "acc_a", hour + i, 10)).collect();
    db.commit_segment(&events, bucket_of("acc_a", 2));

    let (first, _) = db.tick(&rollup_worker(), (51 * HOUR_MS) + 1);
    assert!(first.segments_written > 0);
    let (second, _) = db.tick(&rollup_worker(), (51 * HOUR_MS) + 1);
    assert_eq!(second.segments_written, 0, "second tick must not duplicate work");
    assert_eq!(second.hours_processed, 0);
    assert_eq!(db.manifest.rollup_segments.len(), first.segments_written);
}

/// Whatever a pass has done, the next one finds nothing to do.
#[test]
fn second_pass_does_nothing() {
    let mut db = Db::new(2);
    let worker = RollupWorker::new(0, 1);
    let (idle, _) = db.tick(&worker, 0);
    assert_eq!(db.tick(&worker, 0).0, idle);
    db.memtable.insert_at(make_event("stale", "acc", 100, 1), NOW);
    let (first, msg) = db.tick(&worker, NOW + 5);
    assert!(first.forced_flush);
    let before = db.manifest.clone();
    let (second, none) = db.tick(&worker, NOW + 5);
    assert!(second.skipped_for_in_flight && none.is_none());
    assert_eq!((second.segments_written, second.hours_processed), (0, 0));
    assert_eq!(db.tick(&worker, NOW + 5).0, second);
    assert_eq!(db.manifest.rollup_segments.len(), before.rollup_segments.len());
    db.flush(msg.unwrap());
    assert!(db.tick(&worker, NOW + 5).0.segments_written > 0);
    let (last, _) = db.tick(&worker, NOW + 5);
    assert_eq!((last.segments_written, last.hours_processed), (0, 0));
}

#[test]
fn query_through_rollup_returns_same_sum_as_raw() {
    let mut db = Db::new(2);
    let hour = 200 * HOUR_MS;
    let events: Vec<UsageEvent> =
        (0..20).map(|i| make_event(&format!("e{i}"), "acc_q", hour + i * 1000, 7)).collect();
    db.commit_segment(&events, bucket_of("acc_q", 2));
    db.tick(&rollup_worker(), (201 * HOUR_MS) + 1);

    let raw_sum = db.sum(&plan_of(QuerySource::RawEvents, "acc_q", hour, hour + HOUR_MS));
    let rollup_sum = db.sum(&plan_of(QuerySource::RollupHourly, "acc_q", hour, hour + HOUR_MS));
    assert_eq!(raw_sum, rollup_sum, "SUM(quantity) must agree between RawEvents and RollupHourly");
    assert_eq!(raw_sum, 7 * 20, "expected total");
}

#[test]
fn open_hour_remains_visible_via_raw_fallback() {
    let mut db = Db::new(2);
    let h10 = 10 * HOUR_MS;
    let h11 = 11 * HOUR_MS;
    let mut events: Vec<UsageEvent> = Vec::new();
    for i in 0..5 {
        events.push(make_event(&format!("a{i}"), "acc_z", h10 + i, 4));
    }
    for i in 0..5 {
        events.push(make_event(&format!("b{i}"), "acc_z", h11 + i, 8));
    }
    db.commit_segment(&events, bucket_of("acc_z", 2));

    let (stats, _) = db.tick(&rollup_worker(), h11 + 1);
    assert_eq!(stats.watermark_ms, h11, "watermark should land on h11 (h10 sealed, h11 open)");
    let plan = plan_of(QuerySource::RollupHourly, "acc_z", h10, h11 + HOUR_MS);
    assert_eq!(db.sum(&plan), 60);
}

#[test]
fn rollup_watermark_bounded_by_oldest_memtable_event() {
    let mut db = Db::new(2);
    let h10 = 10 * HOUR_MS;
    db.memtable.insert(make_event("e_pending", "acc_a", h10 + 1, 99));
    let (stats, _) = db.tick(&rollup_worker(), (11 * HOUR_MS) + 1);
    assert!(stats.watermark_ms <= h10);
}

#[test]
fn rollup_tick_skips_when_flush_is_in_flight() {
    let mut db = Db::new(2);
    db.wal.rotate();
    assert_eq!(db.wal.active_id, 2);
    let (stats, _) = db.tick(&rollup_worker(), 5 * HOUR_MS + 1);
    assert!(stats.skipped_for_in_flight, "tick must skip while a flush is in flight");
    assert_eq!(stats.segments_written, 0);
}

#[test]
fn rollup_force_drains_stale_memtable() {
    let mut db = Db::new(2);
    db.memtable.insert_at(make_event("stale", "acc", 100, 1), NOW);
    let worker = RollupWorker::new(0, 1);
    let (stats, msg) = db.tick(&worker, NOW + 5);
    assert!(stats.forced_flush, "memtable older than max_age must trigger a force-flush");
    assert!(db.memtable.is_empty(), "force-flush must drain the memtable");
    assert!(db.wal.active_id >= 2, "rotate must move past the previous active id");
    let msg = msg.expect("force-flush should have sent a FlushMessage");
    assert_eq!(msg.events.len(), 1);
    assert_eq!(msg.events[0].event_id.0, "stale");
}

#[test]
fn rollups_preserve_source_and_unit() {
    let mut db = Db::new(2);
    let h = 50 * HOUR_MS;
    let e_a = make_event_with_source("a", "acc_q", h + 1, 100, "agentcore", "token");
    let e_b = make_event_with_source("b", "acc_q", h + 2, 200, "external", "token");
    db.commit_segment(&[e_a, e_b], 0);
    db.tick(&rollup_worker(), (h + HOUR_MS) + 1);

    let plan = QueryPlan {
        filters: vec![filter("source", &["agentcore"])],
        ..plan_of(QuerySource::RollupHourly, "acc_q", h, h + HOUR_MS)
    };
    assert_eq!(db.sum(&plan), 100);
}

#[test]
fn rollups_group_by_source() {
    let mut db = Db::new(2);
    let h = 60 * HOUR_MS;
    let events = vec![
        make_event_with_source("a", "acc_g", h + 1, 100, "agentcore", "token"),
        make_event_with_source("b", "acc_g", h + 2, 50, "agentcore", "token"),
        make_event_with_source("c", "acc_g", h + 3, 200, "external", "token"),
    ];
    db.commit_segment(&events, 0);
    db.tick(&rollup_worker(), (h + HOUR_MS) + 1);

    let plan = QueryPlan {
        group_by: vec!["source".to_string()],
        ..plan_of(QuerySource::RollupHourly, "acc_g", h, h + HOUR_MS)
    };
    let by_source = sums_by(&db.query(&plan), "source");
    assert_eq!(by_source.get("agentcore").copied(), Some(150));
    assert_eq!(by_source.get("external").copied(), Some(200));
}

#[test]
fn rebuild_rollups_drops_segments_and_rewinds_watermark() {
    let mut db = Db::new(2);
    let h10 = 10 * HOUR_MS;
    let h11 = 11 * HOUR_MS;
    let events: Vec<UsageEvent> = (0..3)
        .flat_map(|i| {
            vec![
                make_event(&format!("a{i}"), "acc_r", h10 + i, 10),
                make_event(&format!("b{i}"), "acc_r", h11 + i, 20),
            ]
        })
        .collect();
    db.commit_segment(&events, bucket_of("acc_r", 2));

    db.tick(&rollup_worker(), h11 + HOUR_MS + 1);
    let rollups_before = db.manifest.rollup_segments.len();
    assert!(rollups_before >= 2, "should have rolled up both hours");
    assert_eq!(db.manifest.watermarks.hourly_rollup_ms, h11 + HOUR_MS);

    let dropped = rebuild_rollups(&mut db.manifest, h10, h11);
    assert!(dropped.len() >= 1, "should have dropped h10 rollup segment(s)");
    assert_eq!(db.manifest.watermarks.hourly_rollup_ms, h10);

    db.tick(&rollup_worker(), h11 + HOUR_MS + 1);
    assert_eq!(db.manifest.watermarks.hourly_rollup_ms, h11 + HOUR_MS);
    assert!(db.manifest.rollup_segments.len() >= rollups_before);
}

#[test]
fn rollup_segment_records_contributing_raw_segments() {
    let mut db = Db::new(2);
    let bucket = bucket_of("acc_p", 2);
    let h = 30 * HOUR_MS;
    let raw_a = db.commit_segment(
        &[make_event("a1", "acc_p", h + 1, 10), make_event("a2", "acc_p", h + 2, 20)],
        bucket,
    );
    let raw_b = db.commit_segment(&[make_event("b1", "acc_p", h + 3, 30)], bucket);
    db.tick(&rollup_worker(), h + HOUR_MS + 1);

    let rollup = db.manifest.rollup_segments.iter().find(|s| s.min_timestamp_ms == h).unwrap();
    assert_eq!(rollup.input_segment_ids.len(), 2);
    assert!(rollup.input_segment_ids.contains(&raw_a));
    assert!(rollup.input_segment_ids.contains(&raw_b));
}

#[test]
fn rollup_input_only_lists_segments_that_actually_contributed() {
    let mut db = Db::new(2);
    let bucket = bucket_of("acc_q", 2);
    let h = 40 * HOUR_MS;
    db.commit_segment(&[make_event("inh", "acc_q", h + 1, 100)], bucket);
    let raw_out_of_hour =
        db.commit_segment(&[make_event("out", "acc_q", h + 2 * HOUR_MS, 999)], bucket);
    db.tick(&rollup_worker(), h + HOUR_MS + 1);

    let rollup = db.manifest.rollup_segments.iter().find(|s| s.min_timestamp_ms == h).unwrap();
    assert_eq!(rollup.input_segment_ids.len(), 1);
    assert!(!rollup.input_segment_ids.contains(&raw_out_of_hour));
}

// ---------------------------------------------------------------------------
// Queries
// ---------------------------------------------------------------------------

#[test]
fn adjacent_queries_dont_double_count_boundary_event() {
    let mut db = Db::new(2);
    db.commit_segment(&[make_event("boundary", "acc_b", 1000, 42)], 0);
    let sum_a = db.sum(&plan_of(QuerySource::RawEvents, "acc_b", 0, 1000));
    let sum_b = db.sum(&plan_of(QuerySource::RawEvents, "acc_b", 1000, 2000));
    assert_eq!(sum_a, 0, "[0, 1000) must NOT include event at ts=1000");
    assert_eq!(sum_b, 42, "[1000, 2000) must include event at ts=1000");
    assert_eq!(sum_a + sum_b, 42, "no double-count across adjacent ranges");
}

#[test]
fn limit_keeps_the_first_rows() {
    let mut db = Db::new(2);
    let events: Vec<UsageEvent> =
        (0..4).map(|i| make_event(&format!("e{i}"), "acc", 100 + i as i64, 10 + i)).collect();
    db.commit_segment(&events, bucket_of("acc", 2));
    let mut plan = plan_of(QuerySource::RawEvents, "acc", 0, 1000);
    plan.group_by = vec!["event_id".to_string()];
    let all = db.query(&plan);
    for n in 0..6 {
        plan.limit = Some(n);
        let rows = db.query(&plan);
        assert_eq!(rows.len(), n.min(all.len()));
        assert_eq!(rows, all[..rows.len()]);
    }
}

#[test]
fn account_query_results_are_correct_with_bucket_pruning() {
    let mut db = Db::new(256);
    let target_bucket = bucket_of("acc_query", 256);
    db.commit_segment(&[make_event("t1", "acc_query", 100, 10)], target_bucket);
    db.commit_segment(&[make_event("t2", "acc_query", 200, 20)], target_bucket);
    for i in 0..10 {
        let acc = format!("acc_other_{}", i);
        let b = bucket_of(&acc, 256);
        if b == target_bucket {
            continue;
        }
        db.commit_segment(&[make_event(&format!("u{}", i), &acc, 150, 999)], b);
    }
    assert_eq!(db.sum(&plan_of(QuerySource::RawEvents, "acc_query", 0, 1000)), 30);
}

#[test]
fn product_filter_prunes_segments_without_that_product() {
    let mut db = Db::new(2);
    let bucket = bucket_of("acc", 2);
    let mut e_a = make_event("a", "acc", 100, 100);
    e_a.product_id = ProductId("ai_gateway".into());
    db.commit_segment(&[e_a], bucket);
    let mut e_b = make_event("b", "acc", 200, 999);
    e_b.product_id = ProductId("other".into());
    let other = db.commit_segment(&[e_b], bucket);

    let plan = QueryPlan {
        filters: vec![filter("product_id", &["ai_gateway"])],
        ..plan_of(QuerySource::RawEvents, "acc", 0, 1000)
    };
    assert_eq!(db.sum(&plan), 100);
    assert!(!relevant_segments(&plan, &db.manifest.raw_segments, 2).contains(&other));
}

#[test]
fn correction_event_subtracts_from_sum() {
    let mut db = Db::new(2);
    let original = make_event("orig", "acc_c", 100, 100);
    let correction = make_correction("corr", "acc_c", 200, -40, "orig", "overcount");
    db.commit_segment(&[original, correction], bucket_of("acc_c", 2));
    let sum = db.sum(&plan_of(QuerySource::RawEvents, "acc_c", 0, 1000));
    assert_eq!(sum, 60, "100 + (-40) should net to 60");
}

#[test]
fn query_filter_by_kind_isolates_corrections() {
    let mut db = Db::new(2);
    let original = make_event("orig", "acc_k", 100, 100);
    let correction = make_correction("corr", "acc_k", 200, -40, "orig", "overcount");
    db.commit_segment(&[original, correction], bucket_of("acc_k", 2));
    let plan = QueryPlan {
        filters: vec![filter("kind", &["Correction"])],
        ..plan_of(QuerySource::RawEvents, "acc_k", 0, 1000)
    };
    assert_eq!(db.sum(&plan), -40);
}

#[test]
fn group_by_kind_splits_originals_from_corrections() {
    let mut db = Db::new(2);
    let original = make_event("orig", "acc_g", 100, 100);
    let correction = make_correction("corr", "acc_g", 200, -40, "orig", "overcount");
    db.commit_segment(&[original, correction], bucket_of("acc_g", 2));
    let plan = QueryPlan {
        group_by: vec!["kind".to_string()],
        ..plan_of(QuerySource::RawEvents, "acc_g", 0, 1000)
    };
    let by_kind = sums_by(&db.query(&plan), "kind");
    assert_eq!(by_kind.get("Usage").copied(), Some(100));
    assert_eq!(by_kind.get("Correction").copied(), Some(-40));
}

/// A rollup query for a field that rollups do not have reads the events instead.
#[test]
fn rollup_query_by_kind_still_answers() {
    let mut db = Db::new(2);
    let h = 5 * HOUR_MS;
    let original = make_event("orig", "acc_k", h + 1, 100);
    let correction = make_correction("corr", "acc_k", h + 2, -40, "orig", "overcount");
    db.commit_segment(&[original, correction], bucket_of("acc_k", 2));
    db.tick(&rollup_worker(), h + HOUR_MS + 1);
    let plan = QueryPlan {
        filters: vec![filter("kind", &["Correction"])],
        ..plan_of(QuerySource::RollupHourly, "acc_k", 0, h + HOUR_MS)
    };
    assert_eq!(db.sum(&plan), -40);
}

// ---------------------------------------------------------------------------
// Compaction
// ---------------------------------------------------------------------------

#[test]
fn tick_merges_small_segments_in_a_bucket() {
    let mut db = Db::new(4);
    let mut original_ids = Vec::new();
    for i in 0..3 {
        original_ids.push(db.commit_segment(&[make_event(&format!("e_{i}"), "acc_a", 1000 + i, 10)], 1));
    }
    let worker = CompactionWorker::new(2, 30_000);
    let stats = db.compact(&worker, 1_000_000);
    assert_eq!(stats.compactions_committed, 1);
    assert_eq!(db.manifest.raw_segments.len(), 1, "3 inputs → 1 output");
    let output = &db.manifest.raw_segments[0];
    assert!(output.segment_id.starts_with("compacted_"));
    assert_eq!(output.bucket, 1);
    assert_eq!(output.row_count, 3);
    assert_eq!(db.manifest.compacted_replacements.len(), 1);
    let rec = &db.manifest.compacted_replacements[0];
    assert_eq!(rec.old_segments.len(), 3);
    for id in &original_ids {
        assert!(rec.old_segments.contains(id));
    }
    assert_eq!(rec.new_segments, vec![output.segment_id.clone()]);
    assert!(rec.committed_at_ms > 0);
}

#[test]
fn output_segment_contains_all_input_events() {
    let mut db = Db::new(2);
    let mut all_event_ids: Vec<String> = Vec::new();
    for seg_i in 0..3 {
        let events: Vec<UsageEvent> = (0..4)
            .map(|i| {
                let id = format!("e_{seg_i}_{i}");
                all_event_ids.push(id.clone());
                make_event(&id, "acc_q", (seg_i * 100 + i) as i64, 7)
            })
            .collect();
        db.commit_segment(&events, 0);
    }
    db.compact(&CompactionWorker::new(2, 30_000), 1_000_000);
    let output_id = db.manifest.raw_segments[0].segment_id.clone();
    let mut read_ids: Vec<String> = db.raw_events(&output_id).into_iter().map(|e| e.event_id.0).collect();
    read_ids.sort();
    all_event_ids.sort();
    assert_eq!(read_ids, all_event_ids);
}

#[test]
fn second_tick_is_noop_after_compaction() {
    let mut db = Db::new(2);
    for i in 0..3 {
        db.commit_segment(&[make_event(&format!("e{i}"), "acc_a", i, 1)], 0);
    }
    let worker = CompactionWorker::new(2, 30_000);
    let first = db.compact(&worker, 1_000_000);
    assert_eq!(first.compactions_committed, 1);
    let second = db.compact(&worker, 1_000_000);
    assert_eq!(second.compactions_committed, 0);
    assert_eq!(second.replacements_finalized, 0);
}

#[test]
fn old_files_deleted_after_grace_window() {
    let mut db = Db::new(2);
    let mut old_ids = Vec::new();
    for i in 0..3 {
        old_ids.push(db.commit_segment(&[make_event(&format!("e{i}"), "acc_g", i, 1)], 0));
    }
    let worker = CompactionWorker::new(2, 30_000);
    db.compact(&worker, 1_000_000);
    for id in &old_ids {
        assert!(db.files.contains_key(&format!("{}.seg", id)));
    }
    let mid = db.compact(&worker, 1_000_000 + 29_999);
    assert_eq!(mid.replacements_finalized, 0);
    for id in &old_ids {
        assert!(db.files.contains_key(&format!("{}.seg", id)), "still in grace window");
    }
    let post = db.compact(&worker, 1_000_000 + 30_001);
    assert_eq!(post.replacements_finalized, 1);
    for id in &old_ids {
        assert!(!db.files.contains_key(&format!("{}.seg", id)));
    }
    assert!(db.manifest.compacted_replacements.is_empty());
}

#[test]
fn plans_are_per_bucket() {
    let mut db = Db::new(4);
    for i in 0..3 {
        db.commit_segment(&[make_event(&format!("a{i}"), "acc_0", i, 1)], 0);
    }
    for i in 0..2 {
        db.commit_segment(&[make_event(&format!("b{i}"), "acc_1", i, 1)], 1);
    }
    for i in 0..4 {
        db.commit_segment(&[make_event(&format!("c{i}"), "acc_2", i, 1)], 2);
    }
    let stats = db.compact(&CompactionWorker::new(2, 30_000), 1_000_000);
    assert_eq!(stats.compactions_committed, 2);
    assert_eq!(db.manifest.raw_segments.len(), 4);
    let buckets: HashSet<u32> = db.manifest.raw_segments.iter().map(|s| s.bucket).collect();
    assert!(buckets.contains(&0));
    assert!(buckets.contains(&1));
    assert!(buckets.contains(&2));
}

/// An event that two segments hold is there once afterwards, and totals of events
/// that only one holds stay.
#[test]
fn compaction_drops_repeats_and_keeps_totals() {
    let mut db = Db::new(1);
    db.commit_segment(&[make_event("x", "acc", 10, 5)], 0);
    db.commit_segment(&[make_event("x", "acc", 10, 5), make_event("y", "acc", 20, 7)], 0);
    db.commit_segment(&[make_event("z", "acc", 5, 1)], 0);
    db.compact(&CompactionWorker::new(2, 30_000), 1_000);
    let id = db.manifest.raw_segments[0].segment_id.clone();
    let ids: Vec<String> = db.raw_events(&id).into_iter().map(|e| e.event_id.0).collect();
    assert_eq!(ids, vec!["z", "x", "y"]);
    assert_eq!(db.sum(&plan_of(QuerySource::RawEvents, "acc", 0, 100)), 13);
}

// ---------------------------------------------------------------------------
// Ingest
// ---------------------------------------------------------------------------

#[test]
fn conflict_when_same_id_different_payload() {
    let mut db = Db::new(4);
    let base = UsageEvent { ingested_at_ms: 0, ..make_event("evt_x", "acc_a", 1000, 100) };
    let (s1, _) = db.ingest(batch(vec![base.clone()]), NOW);
    assert_eq!(s1.accepted, 1);
    let mut variant = base.clone();
    variant.quantity = 200;
    let (s2, _) = db.ingest(batch(vec![variant]), NOW);
    assert_eq!(s2.accepted, 0);
    assert_eq!(s2.conflicts, 1);
    assert_eq!(s2.duplicates, 0);
}

#[test]
fn resent_batch_is_taken_in_once() {
    let mut db = Db::new(4);
    let events = vec![
        make_event("a", "acc", 1000, 1),
        make_event("b", "acc", 1001, 2),
        make_event("a", "acc", 1000, 1),
        make_event("b", "acc", 1001, 3),
        make_event("", "acc", 1002, 4),
    ];
    let (first, _) = db.ingest(batch(events.clone()), NOW);
    let expected = IngestBatchResponse { accepted: 2, duplicates: 1, conflicts: 1, rejected: 1 };
    assert_eq!(first, expected);
    let (second, _) = db.ingest(batch(events), NOW + 1000);
    let expected = IngestBatchResponse { accepted: 0, duplicates: 3, conflicts: 1, rejected: 1 };
    assert_eq!(second, expected);
    assert_eq!(db.memtable.len(), 2);
    assert_eq!(db.memtable.snapshot()[0].ingested_at_ms, NOW);
    assert_eq!(db.sum(&plan_of(QuerySource::RawEvents, "acc", 0, 2000)), 3);
}

#[test]
fn full_memtable_is_flushed_by_bucket() {
    let mut db = Db::new(4);
    db.max_memtable_size_bytes = 1;
    let events: Vec<UsageEvent> =
        (0..20).map(|i| make_event(&format!("e{i}"), &format!("acc_{i}"), 1000 - i, 1)).collect();
    let (_, drained) = db.ingest(batch(events), NOW);
    let msg = drained.expect("the memtable is over its limit");
    assert_eq!(msg.events.len(), 20);
    assert_eq!(msg.sealed_wal_id, 1);
    assert_eq!(db.wal.active_id, 2);
    assert!(db.memtable.is_empty());
    db.flush(msg);
    assert_eq!(db.manifest.last_sealed_wal_id, 1);
    assert!(db.log.is_empty(), "sealed log files can go");
    let rows: u64 = db.manifest.raw_segments.iter().map(|m| m.row_count).sum();
    assert_eq!(rows, 20);
    for m in &db.manifest.raw_segments {
        for e in db.raw_events(&m.segment_id) {
            assert_eq!(bucket_for_account(&e.account_id, 4), m.bucket);
        }
    }
    assert_eq!(db.sum(&plan_of(QuerySource::RawEvents, "acc_3", 0, 2000)), 1);
}

// ---------------------------------------------------------------------------
// Starting up again
// ---------------------------------------------------------------------------

#[test]
fn recovery_replays_unsealed_files_into_memtable_and_dedupe() {
    let mut db = Db::new(2);
    let events: Vec<UsageEvent> =
        (0..5).map(|i| make_event(&format!("evt_{i}"), "acc_x", 1000 + i, 10)).collect();
    db.log.insert(1, events);
    let (mut dedupe, memtable) = db.restart(NOW);
    assert_eq!(memtable.len(), 5, "all WAL events should be in memtable");
    let (id_hash, payload_hash) = compute_event_hashes(&make_event("evt_0", "acc_x", 1000, 10));
    assert_eq!(dedupe.check_and_insert(id_hash, payload_hash), DedupeResult::ExactDuplicate);
}

#[test]
fn recovery_skips_sealed_files_below_watermark() {
    let mut db = Db::new(2);
    db.log.insert(1, vec![make_event("sealed", "a", 1, 1)]);
    db.log.insert(2, vec![make_event("active", "a", 2, 1)]);
    db.manifest.last_sealed_wal_id = 1;
    let (_, memtable) = db.restart(NOW);
    assert_eq!(memtable.len(), 1);
    assert_eq!(memtable.snapshot()[0].event_id.0, "active");
    let ids: Vec<u64> = vec![1, 2];
    assert_eq!(Wal::delete_files_through(&ids, 1), vec![1]);
    assert_eq!(Wal::list_files_after(&ids, 1), vec![2]);
}

#[test]
fn dedupe_rebuilds_from_recent_segments_on_recovery() {
    let mut db = Db::new(2);
    let recent_event = make_event("evt_billed", "acc_z", NOW - 60_000, 100);
    db.commit_segment(&[recent_event.clone()], 0);
    let (mut dedupe, _) = db.restart(NOW);
    let (id_hash, payload_hash) = compute_event_hashes(&recent_event);
    assert_eq!(dedupe.check_and_insert(id_hash, payload_hash), DedupeResult::ExactDuplicate);
}

#[test]
fn dedupe_rebuild_skips_segments_older_than_ttl() {
    let mut db = Db::new(2);
    let old_event = make_event("old", "acc_x", NOW - 30 * 24 * 3600 * 1000, 1);
    db.commit_segment(&[old_event.clone()], 0);
    let (mut dedupe, _) = db.restart(NOW);
    let (id_hash, payload_hash) = compute_event_hashes(&old_event);
    assert_eq!(dedupe.check_and_insert(id_hash, payload_hash), DedupeResult::NewEvent);
}

#[test]
fn recovery_uses_sidecar_to_rebuild_dedupe() {
    let mut db = Db::new(2);
    let events =
        vec![make_event("e1", "acc_r", NOW - 1000, 10), make_event("e2", "acc_r", NOW - 500, 20)];
    let id = db.commit_segment(&events, 0);
    db.files.insert(index_path(&id), write_dedupe_index(&index_entries_of(&events)));
    // The index alone is read: the segment need not be.
    db.files.insert(format!("{}.seg", id), vec![]);
    let (mut dedupe, _) = db.restart(NOW);
    for e in &events {
        let (id_h, p_h) = compute_event_hashes(e);
        assert_eq!(dedupe.check_and_insert(id_h, p_h), DedupeResult::ExactDuplicate);
    }
}

#[test]
fn recovery_falls_back_to_segment_scan_without_sidecar() {
    let mut db = Db::new(2);
    let events = vec![make_event("e1", "acc_f", NOW - 1000, 10)];
    let id = db.commit_segment(&events, 0);
    let (mut dedupe, _) = db.restart(NOW);
    let (id_h, p_h) = compute_event_hashes(&events[0]);
    assert_eq!(dedupe.check_and_insert(id_h, p_h), DedupeResult::ExactDuplicate);

    // So it does where the index is damaged.
    db.files.insert(index_path(&id), b"not the right header at all".to_vec());
    let (mut dedupe, _) = db.restart(NOW);
    assert_eq!(dedupe.check_and_insert(id_h, p_h), DedupeResult::ExactDuplicate);
}

#[test]
fn flushed_events_survive_a_restart() {
    let mut db = Db::new(2);
    db.ingest(batch(vec![make_event("a", "acc", NOW - 10, 1)]), NOW);
    let msg = force_drain_memtable(&mut db.memtable, &mut db.wal).unwrap();
    db.flush(msg);
    db.ingest(batch(vec![make_event("b", "acc", NOW - 5, 2)]), NOW);
    let (dedupe, memtable) = db.restart(NOW);
    assert_eq!(memtable.len(), 1);
    assert_eq!(memtable.snapshot()[0].event_id.0, "b");
    db.dedupe = dedupe;
    db.memtable = memtable;
    let again = vec![make_event("a", "acc", NOW - 10, 1), make_event("b", "acc", NOW - 5, 2)];
    let (r, _) = db.ingest(batch(again), NOW);
    assert_eq!(r, IngestBatchResponse { accepted: 0, duplicates: 2, conflicts: 0, rejected: 0 });
    assert_eq!(db.sum(&plan_of(QuerySource::RawEvents, "acc", 0, NOW)), 3);
}

/// What a failed flush gave back outlives the flushes that were queued behind it.
#[test]
fn failed_flush_is_replayed() {
    let mut db = Db::new(2);
    db.ingest(batch(vec![make_event("a", "acc", NOW - 30, 1)]), NOW);
    let first = force_drain_memtable(&mut db.memtable, &mut db.wal).unwrap();
    db.ingest(batch(vec![make_event("b", "acc", NOW - 20, 2)]), NOW);
    let second = force_drain_memtable(&mut db.memtable, &mut db.wal).unwrap();
    db.ingest(batch(vec![make_event("c", "acc", NOW - 10, 4)]), NOW);

    db.flush_fails(first, NOW);
    assert_eq!(db.held_from, 3);
    db.flush(second);
    assert_eq!(db.manifest.last_sealed_wal_id, 0, "the first file is still needed");
    assert_eq!(db.log.len(), 3);
    let plan = plan_of(QuerySource::RawEvents, "acc", 0, NOW);
    assert_eq!(db.sum(&plan), 7);

    // A crash here loses nothing, and what is in segments does not come back.
    let (_, memtable) = db.restart(NOW);
    let mut ids: Vec<String> = memtable.snapshot().into_iter().map(|e| e.event_id.0).collect();
    ids.sort();
    assert_eq!(ids, vec!["a".to_string(), "c".to_string()]);

    // A flush of everything that was given back lets the files go.
    let third = force_drain_memtable(&mut db.memtable, &mut db.wal).unwrap();
    assert_eq!(third.sealed_wal_id, 3);
    db.flush(third);
    assert_eq!(db.manifest.last_sealed_wal_id, 3);
    assert!(db.log.is_empty());
    assert_eq!(db.sum(&plan), 7);
    assert!(db.restart(NOW).1.is_empty());
}

// ---------------------------------------------------------------------------
// Explaining and verifying
// ---------------------------------------------------------------------------

#[test]
fn explain_breaks_down_by_billing_dimensions() {
    let mut db = Db::new(2);
    let h = 10 * HOUR_MS;
    let e1 = make_event("a", "acc_e", h + 1, 100);
    let mut e2 = make_event("b", "acc_e", h + 2, 200);
    e2.meter_id = MeterId("tokens.output".into());
    db.commit_segment(&[e1, e2], bucket_of("acc_e", 2));
    db.tick(&rollup_worker(), h + HOUR_MS + 1);

    let (from, to) = parse_range("1970-01-01T00:00:00Z", "2030-01-01T00:00:00Z").unwrap();
    let (records, events) = db.load_account("acc_e", from, to);
    let r = explain_account(&db.manifest, "acc_e", from, to, &records, &events);
    assert_eq!(r.lines.len(), 2, "expected breakdown per meter");
    let by_meter = sums_by(&r.lines, "meter_id");
    assert_eq!(by_meter.get("meter").copied(), Some(100));
    assert_eq!(by_meter.get("tokens.output").copied(), Some(200));
    assert!(!r.rollup_segments.is_empty());
    assert!(r.corrections.is_empty());
    assert!(r.watermark_ms >= h + HOUR_MS);
}

#[test]
fn explain_surfaces_corrections_separately() {
    let mut db = Db::new(2);
    let h = 5 * HOUR_MS;
    let original = make_event("orig", "acc_x", h + 1, 100);
    let correction = make_correction("corr", "acc_x", h + 2, -40, "orig", "double-counted");
    db.commit_segment(&[original, correction], bucket_of("acc_x", 2));

    let (from, to) = parse_range("1970-01-01T00:00:00Z", "2030-01-01T00:00:00Z").unwrap();
    let (records, events) = db.load_account("acc_x", from, to);
    let r = explain_account(&db.manifest, "acc_x", from, to, &records, &events);
    assert_eq!(r.corrections.len(), 1);
    match &r.corrections[0] {
        QueryRow::Event(c) => {
            assert_eq!(c.event_id.0, "corr");
            assert_eq!(c.quantity, -40);
            assert_eq!(c.kind, EventKind::Correction);
        }
        QueryRow::Values(_) => panic!("a correction is shown as it is"),
    }
    let total: i128 = sums_by(&r.lines, "unit").values().sum();
    assert_eq!(total, 60);
}

#[test]
fn explain_rejects_invalid_dates() {
    let err = parse_range("not-a-date", "2030-01-01T00:00:00Z").unwrap_err();
    assert!(err.0.starts_with("invalid `from`: "), "{}", err.0);
    assert!(err.message().starts_with("Internal server error: invalid `from`: "));
    let err = parse_range("2030-01-01T00:00:00Z", "").unwrap_err();
    assert!(err.0.starts_with("invalid `to`: "), "{}", err.0);
}

#[test]
fn explain_endpoint_surfaces_rollup_inputs_map() {
    let mut db = Db::new(2);
    let bucket = bucket_of("acc_e", 2);
    let h = 50 * HOUR_MS;
    let raw_a = db.commit_segment(&[make_event("a", "acc_e", h + 1, 10)], bucket);
    let raw_b = db.commit_segment(&[make_event("b", "acc_e", h + 2, 20)], bucket);
    db.tick(&rollup_worker(), h + HOUR_MS + 1);

    let (from, to) = parse_range("1970-01-01T00:00:00Z", "2030-01-01T00:00:00Z").unwrap();
    let (records, events) = db.load_account("acc_e", from, to);
    let r = explain_account(&db.manifest, "acc_e", from, to, &records, &events);
    assert_eq!(r.rollup_segments.len(), 1);
    assert_eq!(r.rollup_inputs.len(), 1);
    assert_eq!(r.rollup_inputs[0].segment_id, r.rollup_segments[0]);
    let inputs = &r.rollup_inputs[0].input_segment_ids;
    assert_eq!(inputs.len(), 2);
    assert!(inputs.contains(&raw_a));
    assert!(inputs.contains(&raw_b));
    assert_eq!(r.raw_segments, vec![raw_a, raw_b]);
}

#[test]
fn verify_reports_zero_drift_when_rollup_matches_raw() {
    let mut db = Db::new(2);
    let h = 20 * HOUR_MS;
    let events: Vec<UsageEvent> =
        (0..10).map(|i| make_event(&format!("e{i}"), "acc_v", h + i, 7)).collect();
    db.commit_segment(&events, bucket_of("acc_v", 2));
    db.tick(&rollup_worker(), h + HOUR_MS + 1);

    let (from, to) = parse_range("1970-01-01T00:00:00Z", "2030-01-01T00:00:00Z").unwrap();
    let (records, events) = db.load_account("acc_v", from, to);
    let watermark = db.manifest.watermarks.hourly_rollup_ms;
    let r = verify_account("acc_v", from, to, watermark, &records, &events);
    assert_eq!(r.raw_total, 70);
    assert_eq!(r.rollup_total, 70);
    assert_eq!(r.drift, 0);
    assert!(r.matches);
    assert!(!r.period_sealed);
}

#[test]
fn verify_detects_drift_when_rollup_misses_late_event() {
    let mut db = Db::new(2);
    let bucket = bucket_of("acc_d", 2);
    let h = 30 * HOUR_MS;
    db.commit_segment(&[make_event("a", "acc_d", h + 1, 100)], bucket);
    db.tick(&rollup_worker(), h + HOUR_MS + 1);
    db.commit_segment(&[make_event("late", "acc_d", h + 5, 50)], bucket);

    let (from, to) = parse_range("1970-01-01T00:00:00Z", "2030-01-01T00:00:00Z").unwrap();
    let (records, events) = db.load_account("acc_d", from, to);
    let watermark = db.manifest.watermarks.hourly_rollup_ms;
    let r = verify_account("acc_d", from, to, watermark, &records, &events);
    assert_eq!(r.raw_total, 150);
    assert_eq!(r.rollup_total, 100);
    assert_eq!(r.drift, 50);
    assert!(!r.matches);
}

#[test]
fn verify_reports_period_sealed_status() {
    let mut db = Db::new(2);
    let h = 40 * HOUR_MS;
    db.commit_segment(&[make_event("a", "acc_p", h + 1, 10)], bucket_of("acc_p", 2));
    db.tick(&rollup_worker(), h + HOUR_MS + 1);
    let to_str = usagedb::calendar::format_ms(h + HOUR_MS);
    let (from, to) = parse_range("1970-01-01T00:00:00Z", &to_str).unwrap();
    assert_eq!(to, h + HOUR_MS);
    let (records, events) = db.load_account("acc_p", from, to);
    let watermark = db.manifest.watermarks.hourly_rollup_ms;
    assert!(verify_account("acc_p", from, to, watermark, &records, &events).period_sealed);
}

// ---------------------------------------------------------------------------
// Administration
// ---------------------------------------------------------------------------

fn db_with_segments(segments: Vec<(Vec<UsageEvent>, u32)>) -> Db {
    let mut db = Db::new(2);
    db.save();
    for (events, bucket) in segments {
        db.commit_segment(&events, bucket);
    }
    db
}

fn deep_check(db: &Db) -> Result<String, String> {
    let summary = check_summary("\"db\"", &db.manifest);
    let mut checked = Vec::new();
    for m in db.manifest.raw_segments.iter().chain(db.manifest.rollup_segments.iter()) {
        let data = &db.files[&segment_file_name(&m.segment_id, m.kind)];
        checked.push(CheckedSegment {
            segment_id: m.segment_id.clone(),
            fault: verify_segment(m, data),
        });
    }
    check_deep(&summary, &checked)
}

#[test]
fn check_reports_manifest_summary() {
    let db = db_with_segments(vec![
        (vec![make_event("a", "acc", 1000, 10)], 0),
        (vec![make_event("b", "acc", 2000, 20)], 0),
    ]);
    let out = check_summary("\"db\"", &db.manifest);
    assert!(out.contains("Raw segments:         2"), "{}", out);
    assert!(out.contains("Rollup segments:      0"), "{}", out);
    assert!(out.contains("Manifest generation:"), "{}", out);
    let expected = "Database root:        \"db\"\nManifest generation:  3\nBucket count:         2\n\
        Raw segments:         2\nRollup segments:      0\n\
        Watermark:            0 ms (1970-01-01T00:00:00Z)\nLast sealed WAL:      0\n\
        Pending replacements: 0\n";
    assert_eq!(out, expected);
}

#[test]
fn check_deep_passes_for_valid_segments() {
    let mut db = db_with_segments(vec![(vec![make_event("a", "acc", 1000, 10)], 0)]);
    let out = deep_check(&db).unwrap();
    assert!(out.contains("All segments verified"), "deep check should pass: {}", out);
    assert!(out.ends_with("\nVerifying segment files...\n  raw_0001 OK\n\nAll segments verified.\n"));
    db.tick(&rollup_worker(), HOUR_MS + 1);
    assert!(deep_check(&db).unwrap().contains("  rollup_0002 OK\n"));
}

#[test]
fn check_deep_fails_for_corrupt_segment() {
    let mut db = db_with_segments(vec![(vec![make_event("a", "acc", 1000, 10)], 0)]);
    db.files.get_mut("raw_0001.seg").unwrap()[40] ^= 0xFF;
    let err = deep_check(&db).unwrap_err();
    assert!(err.contains("failed verification"), "{}", err);
    assert_eq!(err, "1 segment(s) failed verification");
}

#[test]
fn inspect_segment_prints_meta_and_sample_rows() {
    let db = db_with_segments(vec![(
        vec![make_event("evt_a", "acc_q", 1000, 100), make_event("evt_b", "acc_q", 2000, 200)],
        0,
    )]);
    let id = db.manifest.raw_segments[0].segment_id.clone();
    let data = &db.files[&format!("{}.seg", id)];
    let out = inspect_segment(&db.manifest, &id, data).unwrap();
    assert!(out.contains(&id), "{}", out);
    assert!(out.contains("Rows: 2"), "{}", out);
    assert!(out.contains("Bucket: 0"), "{}", out);
    assert!(out.contains("evt_a"), "should show sample rows: {}", out);
    assert!(out.contains("evt_b"), "{}", out);

    let checksum = format!("{:#018x}", db.manifest.raw_segments[0].checksum);
    let expected = format!(
        "Segment: raw_0001\n  Kind: Raw\n  Bucket: 0\n  Rows: 2\n  \
         Timestamp range: [1970-01-01T00:00:01Z, 1970-01-01T00:00:02Z]\n  \
         Account range: acc_q .. acc_q\n  Products: prod\n  Meters: meter\n  Models: m1\n  \
         Quantity sum: 300\n  Checksum: {}\n\n  First few rows:\n    \
         evt_a Usage acc=acc_q product=prod meter=meter model=Some(\"m1\") ts=1000 qty=100\n    \
         evt_b Usage acc=acc_q product=prod meter=meter model=Some(\"m1\") ts=2000 qty=200\n",
        checksum
    );
    assert_eq!(out, expected);
}

#[test]
fn inspect_segment_errors_for_unknown_id() {
    let db = db_with_segments(vec![]);
    let err = inspect_segment(&db.manifest, "raw_bogus", &[]).unwrap_err();
    assert!(err.contains("not found in manifest"), "{}", err);
    assert_eq!(err, "segment raw_bogus not found in manifest");
}

#[test]
fn inspected_rows_are_few_and_rollups_name_their_inputs() {
    let mut db = Db::new(1);
    let mut events: Vec<UsageEvent> =
        (0..7).map(|i| make_event(&format!("e{i}"), "acc", 10 + i, 1)).collect();
    events[1].model_id = None;
    events[2].model_id = Some(ModelId("a\"b".into()));
    let id = db.commit_segment(&events, 0);
    let out = inspect_segment(&db.manifest, &id, &db.files[&format!("{}.seg", id)]).unwrap();
    assert!(out.contains(" e4 ") && !out.contains(" e5 "), "{}", out);
    assert!(out.contains("model=None") && out.contains("model=Some(\"a\\\"b\")"), "{}", out);

    db.tick(&rollup_worker(), HOUR_MS + 1);
    let rollup = db.manifest.rollup_segments[0].segment_id.clone();
    let out = inspect_segment(&db.manifest, &rollup, &[]).unwrap();
    assert!(out.contains("  Kind: Rollup\n"), "{}", out);
    assert!(out.ends_with("  Input segments (rollup provenance):\n    - raw_0001\n"), "{}", out);

    let empty = db.commit_segment(&[], 0);
    let out = inspect_segment(&db.manifest, &empty, &db.files[&format!("{}.seg", empty)]).unwrap();
    assert!(out.ends_with("\n  First few rows:\n    (empty segment)\n"), "{}", out);
}

#[test]
fn rebuild_rollups_drops_and_rewinds() {
    let h = 10 * HOUR_MS;
    let mut db = db_with_segments(vec![(
        vec![make_event("a", "acc_r", h + 1, 10), make_event("b", "acc_r", h + 2, 20)],
        bucket_of("acc_r", 2),
    )]);
    db.tick(&rollup_worker(), h + HOUR_MS + 1);
    assert_eq!(db.manifest.rollup_segments.len(), 1);
    let (dropped, out) =
        rebuild_range(&mut db.manifest, "1970-01-01T00:00:00Z", "2030-01-01T00:00:00Z").unwrap();
    assert_eq!(dropped.len(), 1);
    assert!(out.contains("Dropped 1 rollup segment"), "{}", out);
    assert!(db.manifest.rollup_segments.is_empty());
    assert_eq!(db.manifest.watermarks.hourly_rollup_ms, 0);
}

#[test]
fn rebuild_rollups_rejects_invalid_dates() {
    let mut db = db_with_segments(vec![]);
    let err = rebuild_range(&mut db.manifest, "not-a-date", "2030-01-01T00:00:00Z").unwrap_err();
    assert!(err.contains("invalid"), "{}", err);
    assert!(err.starts_with("invalid `from` (not RFC 3339): "), "{}", err);
}

#[test]
fn verify_period_reports_match_for_sealed_rollup() {
    let h = 20 * HOUR_MS;
    let mut db = db_with_segments(vec![(
        vec![make_event("a", "acc_v", h + 1, 30), make_event("b", "acc_v", h + 2, 40)],
        bucket_of("acc_v", 2),
    )]);
    db.tick(&rollup_worker(), h + HOUR_MS + 1);
    let (from, to) = ("1970-01-01T00:00:00Z", "2030-01-01T00:00:00Z");
    let (from_ms, to_ms) = parse_range(from, to).unwrap();
    let (records, events) = db.load_account("acc_v", from_ms, to_ms);
    let watermark = db.manifest.watermarks.hourly_rollup_ms;
    let out = verify_period("acc_v", from, to, watermark, &records, &events).unwrap();
    assert!(out.contains("Raw total:      70"), "{}", out);
    assert!(out.contains("Rollup total:   70"), "{}", out);
    assert!(out.contains("Drift:          0 (OK)"), "{}", out);
    let expected = "Account:        acc_v\nRange:          [1970-01-01T00:00:00Z, 2030-01-01T00:00:00Z)\n\
        Watermark:      75600000 (1970-01-01T21:00:00Z)\nPeriod sealed:  false\n\
        Raw total:      70\nRollup total:   70\nDrift:          0 (OK)\n";
    assert_eq!(out, expected);
}

#[test]
fn export_parquet_writes_file() {
    let db = db_with_segments(vec![
        (vec![make_event("a", "acc", 1000, 5)], 0),
        (vec![make_event("b", "acc", 2000, 7)], 0),
    ]);
    let files = vec![
        Some(db.files["raw_0001.seg"].clone()),
        None,
        Some(db.files["raw_0002.seg"].clone()),
    ];
    let (events, stats) = collect_events(&files).unwrap();
    let msg = export_report(stats.events_exported, stats.segments_read, "\"export.parquet\"");
    assert!(msg.contains("Exported 2 events"), "{}", msg);
    assert!(msg.contains("2 segment(s)"), "{}", msg);
    assert_eq!(msg, "Exported 2 events from 2 segment(s) to \"export.parquet\"\n");
    let table = table_of(&events);
    assert_eq!(table.event_id, vec!["a", "b"]);
    assert_eq!(table.quantity, vec![5, 7]);
    assert!(collect_events(&vec![Some(vec![1, 2, 3])]).is_err());
}

// ---------------------------------------------------------------------------
// Months
// ---------------------------------------------------------------------------

#[test]
fn close_period_persists_in_manifest() {
    let mut db = Db::new(2);
    let r = db.close("acc_x", "2026-05", NOW);
    assert!(!r.already_closed);
    assert!(r.entry.closed_at_ms > 0);
    assert_eq!(db.manifest.closed_periods.len(), 1);
    assert_eq!(db.manifest.closed_periods[0].account_id, "acc_x");
    assert_eq!(db.manifest.closed_periods[0].year, 2026);
    assert_eq!(db.manifest.closed_periods[0].month, 5);
}

#[test]
fn close_period_is_idempotent() {
    let mut db = Db::new(2);
    db.close("acc", "2026-05", NOW);
    let r = db.close("acc", "2026-05", NOW + 1);
    assert!(r.already_closed);
    assert_eq!(db.manifest.closed_periods.len(), 1);
}

#[test]
fn reopen_period_removes_marker() {
    let mut db = Db::new(2);
    db.close("acc", "2026-05", NOW);
    assert!(db.reopen("acc", "2026-05"));
    assert!(db.manifest.closed_periods.is_empty());
    assert!(!db.reopen("acc", "2026-05"));
}

#[test]
fn get_period_returns_state_and_total() {
    let mut db = Db::new(2);
    let r = db.period("acc", "2026-05");
    assert!(r.closed_at_ms.is_none());
    assert_eq!(r.total_quantity, 0);
    db.close("acc", "2026-05", NOW);
    let r = db.period("acc", "2026-05");
    assert_eq!(r.closed_at_ms, Some(NOW));
}

#[test]
fn close_period_rejects_invalid_format() {
    assert!(parse_period("not-a-period").is_err());
}

#[test]
fn closed_period_rejects_usage_events() {
    let mut db = Db::new(2);
    db.close("acc_x", "2026-05", NOW);
    let (r, _) = db.ingest(batch(vec![make_event("evt_blocked", "acc_x", ts_at(2026, 5, 10), 100)]), NOW);
    assert_eq!(r.accepted, 0);
    assert_eq!(r.rejected, 1);
}

#[test]
fn closed_period_only_rejects_target_account() {
    let mut db = Db::new(2);
    db.close("acc_x", "2026-05", NOW);
    let (r, _) = db.ingest(batch(vec![make_event("evt_other", "acc_y", ts_at(2026, 5, 10), 100)]), NOW);
    assert_eq!(r.accepted, 1);
    assert_eq!(r.rejected, 0);
}

#[test]
fn closed_period_only_rejects_in_period_timestamps() {
    let mut db = Db::new(2);
    db.close("acc_x", "2026-05", NOW);
    let (r, _) = db.ingest(
        batch(vec![
            make_event("evt_apr", "acc_x", ts_at(2026, 4, 28), 1),
            make_event("evt_jun", "acc_x", ts_at(2026, 6, 1), 1),
        ]),
        NOW,
    );
    assert_eq!(r.accepted, 2, "events outside closed period must be accepted");
    assert_eq!(r.rejected, 0);
}

#[test]
fn closed_period_accepts_corrections() {
    let mut db = Db::new(2);
    db.close("acc_x", "2026-05", NOW);
    let ts = ts_at(2026, 5, 10);
    let correction = make_correction("evt_correction", "acc_x", ts, -50, "evt_orig", "overcount");
    let mut retraction = make_correction("evt_retraction", "acc_x", ts, 0, "evt_orig", "retract");
    retraction.kind = EventKind::Retraction;
    let (r, _) = db.ingest(batch(vec![correction, retraction]), NOW);
    assert_eq!(r.accepted, 2);
    assert_eq!(r.rejected, 0);
}

/// Takes events in, flushes them and rolls them up.
fn ingest_and_roll(db: &mut Db, events: Vec<UsageEvent>) {
    db.ingest(batch(events), NOW);
    let msg = force_drain_memtable(&mut db.memtable, &mut db.wal).unwrap();
    db.flush(msg);
    db.tick(&rollup_worker(), ts_at(2026, 6, 1) + 60_000);
}

#[test]
fn close_captures_frozen_snapshot() {
    let mut db = Db::new(2);
    ingest_and_roll(
        &mut db,
        vec![
            make_event("e1", "acc_s", ts_at(2026, 5, 10), 50),
            make_event("e2", "acc_s", ts_at(2026, 5, 20), 75),
        ],
    );
    let r = db.close("acc_s", "2026-05", NOW);
    assert_eq!(r.entry.frozen_quantity, Some(125));
    assert_eq!(r.entry.frozen_event_count, Some(2));
    assert_eq!(r.entry.watermark_at_close_ms, Some(ts_at(2026, 6, 1)));
}

#[test]
fn get_period_returns_frozen_snapshot_after_close() {
    let mut db = Db::new(2);
    ingest_and_roll(&mut db, vec![make_event("e1", "acc_g", ts_at(2026, 5, 10), 200)]);
    db.close("acc_g", "2026-05", NOW);
    let r = db.period("acc_g", "2026-05");
    assert_eq!(r.closed_at_ms, Some(NOW));
    assert_eq!(r.frozen_quantity, Some(200));
    assert_eq!(r.frozen_event_count, Some(1));
    assert_eq!(r.adjustments_quantity, 0, "no adjustments yet");
    assert_eq!(r.net_total, 200);
}

#[test]
fn correction_after_close_surfaces_as_adjustment_not_frozen() {
    let mut db = Db::new(2);
    ingest_and_roll(&mut db, vec![make_event("orig", "acc_c", ts_at(2026, 5, 10), 100)]);
    db.close("acc_c", "2026-05", NOW + 1);
    let correction = make_correction("corr", "acc_c", ts_at(2026, 5, 15), -40, "orig", "overcount");
    let (resp, _) = db.ingest(batch(vec![correction]), NOW + 1);
    assert_eq!(resp.accepted, 1, "correction should be accepted in closed period");

    let r = db.period("acc_c", "2026-05");
    assert_eq!(r.frozen_quantity, Some(100));
    assert_eq!(r.pending_adjustments.len(), 1);
    assert_eq!(r.pending_adjustments[0].event_id.0, "corr");
    assert_eq!(r.net_total, 60);
}

/// A correction that came before the close is part of the frozen total, and no
/// adjustment.
#[test]
fn correction_before_close_is_frozen() {
    let mut db = Db::new(2);
    let early = make_correction("early", "acc_e", ts_at(2026, 5, 11), -1, "orig", "before the close");
    ingest_and_roll(&mut db, vec![make_event("orig", "acc_e", ts_at(2026, 5, 10), 101), early]);
    db.close("acc_e", "2026-05", NOW + 1);
    let late = make_correction("late", "acc_e", ts_at(2026, 5, 15), -40, "orig", "overcount");
    db.ingest(batch(vec![late]), NOW + 1);

    let r = db.period("acc_e", "2026-05");
    assert_eq!(r.frozen_quantity, Some(100));
    assert_eq!(r.pending_adjustments.len(), 1);
    assert_eq!(r.pending_adjustments[0].event_id.0, "late");
    assert_eq!(r.net_total, 60);
}

#[test]
fn closing_twice_keeps_original_snapshot() {
    let mut db = Db::new(2);
    ingest_and_roll(&mut db, vec![make_event("e1", "acc_t", ts_at(2026, 5, 10), 100)]);
    let first = db.close("acc_t", "2026-05", NOW);
    let second = db.close("acc_t", "2026-05", NOW + 5000);
    assert!(second.already_closed);
    assert_eq!(second.entry.closed_at_ms, first.entry.closed_at_ms);
    assert_eq!(second.entry.frozen_quantity, Some(100));
}

#[test]
fn reopen_then_reclose_takes_a_fresh_snapshot() {
    let mut db = Db::new(2);
    ingest_and_roll(&mut db, vec![make_event("e1", "acc_rr", ts_at(2026, 5, 10), 100)]);
    let first = db.close("acc_rr", "2026-05", NOW);
    assert_eq!(first.entry.frozen_quantity, Some(100));
    db.reopen("acc_rr", "2026-05");

    db.ingest(batch(vec![make_event("e2", "acc_rr", ts_at(2026, 5, 20), 50)]), NOW);
    let msg = force_drain_memtable(&mut db.memtable, &mut db.wal).unwrap();
    db.flush(msg);
    let hour = ts_at(2026, 5, 10) / HOUR_MS * HOUR_MS;
    db.manifest.rollup_segments.retain(|s| s.min_timestamp_ms != hour);
    db.manifest.watermarks.hourly_rollup_ms = 0;
    db.tick(&rollup_worker(), ts_at(2026, 6, 1) + 60_000);

    let second = db.close("acc_rr", "2026-05", NOW + 1);
    assert_eq!(second.entry.frozen_quantity, Some(150));
}

// ---------------------------------------------------------------------------
// Saving
// ---------------------------------------------------------------------------

#[test]
fn commit_manifest_leaves_state_unchanged_on_save_failure() {
    let mut manifest = Manifest { bucket_count: 4, current_generation: 1, ..Manifest::default() };
    settle(&mut manifest, None);
    assert_eq!(manifest.current_generation, 1, "generation must not advance when save fails");
    assert_eq!(manifest.bucket_count, 4);
}

#[test]
fn commit_manifest_publishes_only_after_save_succeeds() {
    let mut manifest = Manifest { bucket_count: 4, current_generation: 1, ..Manifest::default() };
    let mut next = manifest.clone();
    next.bucket_count = 8;
    let saved = next.to_save();
    assert_eq!(manifest.bucket_count, 4);
    settle(&mut manifest, Some(saved));
    assert_eq!(manifest.current_generation, 2, "generation must advance on successful save");
    assert_eq!(manifest.bucket_count, 8, "mutation must be visible after commit");
}

/// The corrections of a range are those of the account alone.
#[test]
fn corrections_are_found_among_events() {
    let mut db = Db::new(1);
    let events = vec![
        make_event("a", "acc", 100, 5),
        make_correction("b", "acc", 200, -1, "a", "r"),
        make_correction("c", "other", 200, -1, "a", "r"),
        make_correction("d", "acc", 1000, -1, "a", "r"),
    ];
    db.commit_segment(&events, 0);
    let rows = db.query(&corrections_plan("acc", 0, 1000));
    assert_eq!(rows.len(), 1);
    assert_eq!(rows[0], QueryRow::Event(events[1].clone()));
}

#[test]
fn recovery_picks_up_generations() {
    let mut db = Db::new(2);
    db.commit_segment(&[make_event("a", "acc", 100, 5)], 0);
    db.commit_segment(&[make_event("b", "acc", 200, 7)], 0);
    let generations: Vec<u64> = (1..=db.manifest.current_generation).collect();
    let plan = plan_load(&generations, read_pointer(&pointer_text(2)), false);
    assert_eq!(plan, LoadPlan::Generations(vec![2, 1]));
    assert_eq!(db.manifest.raw_segments.len(), 2);
    assert!(db.manifest.current_generation >= 2);
}

// ---------------------------------------------------------------------------
// Histories
// ---------------------------------------------------------------------------

/// Numbers that look random and are the same in every run.
struct Numbers(u64);

impl Numbers {
    fn next(&mut self, below: u64) -> u64 {
        self.0 = self.0.wrapping_mul(6364136223846793005).wrapping_add(1442695040888963407);
        (self.0 >> 33) % below
    }
}

const ACCOUNTS: [&str; 3] = ["acc_a", "acc_b", "acc_c"];

/// The first hour of 2026.
fn base_ts() -> i64 {
    ts_at(2026, 1, 1)
}

fn random_batch(numbers: &mut Numbers) -> Vec<UsageEvent> {
    let n = 1 + numbers.next(12);
    (0..n)
        .map(|_| {
            let id = numbers.next(40);
            let account = ACCOUNTS[(id % 3) as usize];
            make_event(
                &format!("evt_{id}"),
                account,
                base_ts() + id as i64 * 1000,
                1 + id as i128 * 3,
            )
        })
        .collect()
}

fn account_sum(db: &Db, account: &str, source: QuerySource) -> i128 {
    db.sum(&plan_of(source, account, 0, i64::MAX))
}

fn raw_sums(db: &Db) -> Vec<i128> {
    ACCOUNTS.iter().map(|a| account_sum(db, a, QuerySource::RawEvents)).collect()
}

fn rollup_sums(db: &Db) -> Vec<i128> {
    ACCOUNTS.iter().map(|a| account_sum(db, a, QuerySource::RollupHourly)).collect()
}

fn drain_and_flush(db: &mut Db) {
    if let Some(msg) = force_drain_memtable(&mut db.memtable, &mut db.wal) {
        db.flush(msg);
    }
}

/// A time at which the first hour of 2026 is over and its events are recent.
fn after_first_hour() -> i64 {
    base_ts() + 2 * HOUR_MS
}

#[test]
fn raw_sum_equals_rollup_sum() {
    for seed in 0..20 {
        let mut db = Db::new(4);
        let events = random_batch(&mut Numbers(seed));
        db.ingest(batch(events), after_first_hour());
        drain_and_flush(&mut db);
        db.tick(&rollup_worker(), after_first_hour());
        assert_eq!(raw_sums(&db), rollup_sums(&db), "seed {}", seed);
    }
}

#[test]
fn duplicate_ingest_is_idempotent() {
    for seed in 0..20 {
        let mut db = Db::new(4);
        let events = random_batch(&mut Numbers(seed));
        let (first, _) = db.ingest(batch(events.clone()), after_first_hour());
        let before = raw_sums(&db);
        let (second, _) = db.ingest(batch(events.clone()), after_first_hour() + 5);
        assert_eq!(second.accepted, 0);
        assert_eq!(second.duplicates + second.conflicts, events.len());
        assert_eq!(second.conflicts, first.conflicts);
        assert_eq!(raw_sums(&db), before);
    }
}

#[test]
fn compaction_preserves_sum() {
    for seed in 0..20 {
        let mut db = Db::new(2);
        let mut numbers = Numbers(seed);
        for _ in 0..4 {
            db.ingest(batch(random_batch(&mut numbers)), after_first_hour());
            drain_and_flush(&mut db);
        }
        let before = raw_sums(&db);
        db.compact(&CompactionWorker::new(1, 1_000), 10);
        assert_eq!(raw_sums(&db), before);
        db.compact(&CompactionWorker::new(1, 1_000), 5_000);
        assert_eq!(raw_sums(&db), before);
    }
}

#[test]
fn recovery_preserves_sum() {
    for seed in 0..20 {
        let mut db = Db::new(4);
        db.ingest(batch(random_batch(&mut Numbers(seed))), after_first_hour());
        drain_and_flush(&mut db);
        let before = raw_sums(&db);
        let (dedupe, memtable) = db.restart(after_first_hour());
        db.dedupe = dedupe;
        db.memtable = memtable;
        assert_eq!(raw_sums(&db), before);
    }
}

#[test]
fn recovery_preserves_sum_without_flush() {
    for seed in 0..20 {
        let mut db = Db::new(4);
        db.ingest(batch(random_batch(&mut Numbers(seed))), after_first_hour());
        let before = raw_sums(&db);
        let (dedupe, memtable) = db.restart(after_first_hour());
        db.dedupe = dedupe;
        db.memtable = memtable;
        assert_eq!(raw_sums(&db), before);
    }
}

#[test]
fn rollup_tick_is_idempotent() {
    for seed in 0..20 {
        let mut db = Db::new(4);
        db.ingest(batch(random_batch(&mut Numbers(seed))), after_first_hour());
        drain_and_flush(&mut db);
        db.tick(&rollup_worker(), after_first_hour());
        let segments = db.manifest.rollup_segments.len();
        let sums = rollup_sums(&db);
        let (again, _) = db.tick(&rollup_worker(), after_first_hour());
        assert_eq!(again.segments_written, 0);
        assert_eq!(db.manifest.rollup_segments.len(), segments);
        assert_eq!(rollup_sums(&db), sums);
    }
}

/// Any order of batches, flushes, rollups, compactions, restarts and closed months
/// leaves each account with the total of what was taken in.
#[test]
fn dst_state_machine() {
    for seed in 0..40 {
        let mut numbers = Numbers(seed);
        let mut db = Db::new(4);
        let mut taken: HashMap<String, (String, i128)> = HashMap::new();
        let mut closed: HashSet<String> = HashSet::new();
        let expected = |taken: &HashMap<String, (String, i128)>| -> Vec<i128> {
            ACCOUNTS
                .iter()
                .map(|a| taken.values().filter(|(b, _)| b == a).map(|(_, q)| *q).sum())
                .collect()
        };
        for step in 0..25 {
            match numbers.next(8) {
                0..=2 => {
                    let events = random_batch(&mut numbers);
                    for e in &events {
                        if !closed.contains(&e.account_id.0) {
                            taken
                                .entry(e.event_id.0.clone())
                                .or_insert((e.account_id.0.clone(), e.quantity));
                        }
                    }
                    db.ingest(batch(events), after_first_hour());
                }
                3 => drain_and_flush(&mut db),
                4 => {
                    db.tick(&rollup_worker(), after_first_hour());
                }
                5 => {
                    db.compact(&CompactionWorker::new(1, 1_000), step * 600);
                }
                6 => {
                    let (dedupe, memtable) = db.restart(after_first_hour());
                    db.dedupe = dedupe;
                    db.memtable = memtable;
                }
                _ => {
                    if numbers.next(4) == 0 {
                        let account = ACCOUNTS[numbers.next(3) as usize];
                        closed.insert(account.to_string());
                        db.close(account, "2026-01", after_first_hour());
                    }
                }
            }
            assert_eq!(raw_sums(&db), expected(&taken), "seed {} step {}", seed, step);
        }
        drain_and_flush(&mut db);
        rebuild_rollups(&mut db.manifest, 0, i64::MAX);
        db.tick(&rollup_worker(), after_first_hour());
        db.compact(&CompactionWorker::new(1, 1_000), 1_000_000);
        assert_eq!(raw_sums(&db), expected(&taken));
        assert_eq!(raw_sums(&db), rollup_sums(&db));
    }
}

/// The memtable's age runs from the first event that waits in it, and ends when it
/// is drained.
#[test]
fn memtable_age_runs_from_the_first_waiting_event() {
    let mut db = Db::new(2);
    assert_eq!(db.memtable.oldest_insert_at_ms(), None);
    db.ingest(batch(vec![]), NOW);
    assert_eq!(db.memtable.oldest_insert_at_ms(), None);
    db.ingest(batch(vec![make_event("a", "acc", ts_at(2026, 5, 10), 1)]), NOW);
    assert_eq!(db.memtable.oldest_insert_at_ms(), Some(NOW));
    db.ingest(batch(vec![make_event("b", "acc", ts_at(2026, 5, 11), 1)]), NOW + 5);
    assert_eq!(db.memtable.oldest_insert_at_ms(), Some(NOW));

    let (mut dedupe, mut again) = db.restart(NOW + 9);
    assert_eq!(again.oldest_insert_at_ms(), Some(NOW + 9));
    replay_log(&mut dedupe, &mut again, db.log[&db.wal.active_id].clone(), NOW + 20);
    assert_eq!((again.len(), again.oldest_insert_at_ms()), (2, Some(NOW + 9)));
    let mut empty = Memtable::new();
    replay_log(&mut dedupe, &mut empty, db.log[&db.wal.active_id].clone(), NOW + 20);
    assert_eq!((empty.len(), empty.oldest_insert_at_ms()), (0, None));

    db.max_memtable_size_bytes = 1;
    let (_, drained) = db.ingest(batch(vec![make_event("c", "acc", ts_at(2026, 5, 12), 1)]), NOW + 30);
    assert_eq!(drained.unwrap().events.len(), 3);
    assert_eq!(db.memtable.oldest_insert_at_ms(), None);
}

/// A batch that comes again takes nothing in, however many others came in between.
#[test]
fn resending_takes_nothing_in_after_many_others() {
    let mut db = Db::new(2);
    db.dedupe = HotDedupe::new(1);
    let first = vec![make_event("first", "acc", ts_at(2026, 5, 10), 1)];
    db.ingest(batch(first.clone()), NOW);
    let others: Vec<UsageEvent> =
        (0..40).map(|i| make_event(&format!("o{}", i), "acc", ts_at(2026, 5, 10), 1)).collect();
    db.ingest(batch(others), NOW + 1);
    let (r, _) = db.ingest(batch(first), NOW + 2);
    assert_eq!((r.accepted, r.duplicates, r.conflicts), (0, 1, 0));
}
