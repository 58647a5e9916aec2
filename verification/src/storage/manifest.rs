//! The manifest: which segments a database consists of.

use vstd::prelude::*;

use crate::model::ids::AccountId;
use crate::text;
use crate::textset::TextSet;

verus! {

#[derive(Debug, Clone, Copy, PartialEq, Eq, Structural)]
pub enum SegmentKind {
    Raw,
    Rollup,
}

/// What a segment holds, so that a query can pass it by.
#[derive(Debug, PartialEq, Eq)]
pub struct SegmentMeta {
    pub segment_id: String,
    pub kind: SegmentKind,
    pub min_timestamp_ms: i64,
    pub max_timestamp_ms: i64,
    pub bucket: u32,
    pub row_count: u64,
    pub min_account_id: Option<AccountId>,
    pub max_account_id: Option<AccountId>,
    pub product_ids: TextSet,
    pub meter_ids: TextSet,
    pub model_ids: TextSet,
    pub quantity_sum: Option<i128>,
    pub checksum: u64,
    /// The raw segments whose events went into a rollup segment.
    pub input_segment_ids: Vec<String>,
}

/// A segment's description by its contents.
#[verifier::ext_equal]
pub struct MetaModel {
    pub segment_id: Seq<char>,
    pub kind: SegmentKind,
    pub min_timestamp_ms: i64,
    pub max_timestamp_ms: i64,
    pub bucket: u32,
    pub row_count: u64,
    pub min_account_id: Option<Seq<char>>,
    pub max_account_id: Option<Seq<char>>,
    pub product_ids: Set<Seq<char>>,
    pub meter_ids: Set<Seq<char>>,
    pub model_ids: Set<Seq<char>>,
    pub quantity_sum: Option<i128>,
    pub checksum: u64,
    pub input_segment_ids: Seq<Seq<char>>,
}

pub open spec fn account_view(a: Option<AccountId>) -> Option<Seq<char>> {
    match a {
        Some(a) => Some(a@),
        None => None,
    }
}

impl View for SegmentMeta {
    type V = MetaModel;

    open spec fn view(&self) -> MetaModel {
        MetaModel {
            segment_id: self.segment_id@,
            kind: self.kind,
            min_timestamp_ms: self.min_timestamp_ms,
            max_timestamp_ms: self.max_timestamp_ms,
            bucket: self.bucket,
            row_count: self.row_count,
            min_account_id: account_view(self.min_account_id),
            max_account_id: account_view(self.max_account_id),
            product_ids: self.product_ids@,
            meter_ids: self.meter_ids@,
            model_ids: self.model_ids@,
            quantity_sum: self.quantity_sum,
            checksum: self.checksum,
            input_segment_ids: text::text_views(self.input_segment_ids@),
        }
    }
}

fn clone_account(a: &Option<AccountId>) -> (r: Option<AccountId>)
    ensures
        account_view(r) == account_view(*a),
{
    match a {
        Some(a) => Some(a.clone()),
        None => None,
    }
}

impl Clone for SegmentMeta {
    fn clone(&self) -> (r: Self)
        ensures
            r@ == self@,
    {
        SegmentMeta {
            segment_id: self.segment_id.clone(),
            kind: self.kind,
            min_timestamp_ms: self.min_timestamp_ms,
            max_timestamp_ms: self.max_timestamp_ms,
            bucket: self.bucket,
            row_count: self.row_count,
            min_account_id: clone_account(&self.min_account_id),
            max_account_id: clone_account(&self.max_account_id),
            product_ids: self.product_ids.clone(),
            meter_ids: self.meter_ids.clone(),
            model_ids: self.model_ids.clone(),
            quantity_sum: self.quantity_sum,
            checksum: self.checksum,
            input_segment_ids: text::clone_texts(&self.input_segment_ids),
        }
    }
}

/// Segments' descriptions by their contents, in their order.
pub open spec fn meta_views(metas: Seq<SegmentMeta>) -> Seq<MetaModel> {
    metas.map_values(|m: SegmentMeta| m@)
}

pub proof fn lemma_metas_push(metas: Seq<SegmentMeta>, m: SegmentMeta)
    ensures
        meta_views(metas.push(m)) == meta_views(metas).push(m@),
{
    assert(meta_views(metas.push(m)) =~= meta_views(metas).push(m@));
}

/// Segments that a compaction replaced, and by which. The old files stay for a
/// while, as a query that began before the replacement may still read them.
#[derive(Debug, PartialEq, Eq)]
pub struct ReplacementRecord {
    pub old_segments: Vec<String>,
    pub new_segments: Vec<String>,
    pub committed_at_ms: i64,
}

#[verifier::ext_equal]
pub struct ReplacementModel {
    pub old_segments: Seq<Seq<char>>,
    pub new_segments: Seq<Seq<char>>,
    pub committed_at_ms: i64,
}

impl View for ReplacementRecord {
    type V = ReplacementModel;

    open spec fn view(&self) -> ReplacementModel {
        ReplacementModel {
            old_segments: text::text_views(self.old_segments@),
            new_segments: text::text_views(self.new_segments@),
            committed_at_ms: self.committed_at_ms,
        }
    }
}

pub open spec fn replacement_views(records: Seq<ReplacementRecord>) -> Seq<ReplacementModel> {
    records.map_values(|r: ReplacementRecord| r@)
}

impl Clone for ReplacementRecord {
    fn clone(&self) -> (r: Self)
        ensures
            r@ == self@,
    {
        ReplacementRecord {
            old_segments: text::clone_texts(&self.old_segments),
            new_segments: text::clone_texts(&self.new_segments),
            committed_at_ms: self.committed_at_ms,
        }
    }
}

/// Up to where the hours have been rolled up.
#[derive(Debug, Clone, Copy, PartialEq, Eq, Structural)]
pub struct Watermarks {
    pub hourly_rollup_ms: i64,
}

impl Default for Watermarks {
    fn default() -> (r: Self)
        ensures
            r.hourly_rollup_ms == 0,
    {
        Watermarks { hourly_rollup_ms: 0 }
    }
}

/// A billing period that was closed, with the totals as they stood then.
#[derive(Debug, PartialEq, Eq)]
pub struct ClosedPeriod {
    pub account_id: String,
    pub year: u16,
    pub month: u8,
    pub closed_at_ms: i64,
    pub frozen_quantity: Option<i128>,
    pub frozen_event_count: Option<u64>,
    pub watermark_at_close_ms: Option<i64>,
}

#[verifier::ext_equal]
pub struct ClosedModel {
    pub account_id: Seq<char>,
    pub year: u16,
    pub month: u8,
    pub closed_at_ms: i64,
    pub frozen_quantity: Option<i128>,
    pub frozen_event_count: Option<u64>,
    pub watermark_at_close_ms: Option<i64>,
}

impl View for ClosedPeriod {
    type V = ClosedModel;

    open spec fn view(&self) -> ClosedModel {
        ClosedModel {
            account_id: self.account_id@,
            year: self.year,
            month: self.month,
            closed_at_ms: self.closed_at_ms,
            frozen_quantity: self.frozen_quantity,
            frozen_event_count: self.frozen_event_count,
            watermark_at_close_ms: self.watermark_at_close_ms,
        }
    }
}

pub open spec fn closed_views(periods: Seq<ClosedPeriod>) -> Seq<ClosedModel> {
    periods.map_values(|p: ClosedPeriod| p@)
}

impl Clone for ClosedPeriod {
    fn clone(&self) -> (r: Self)
        ensures
            r@ == self@,
    {
        ClosedPeriod {
            account_id: self.account_id.clone(),
            year: self.year,
            month: self.month,
            closed_at_ms: self.closed_at_ms,
            frozen_quantity: self.frozen_quantity,
            frozen_event_count: self.frozen_event_count,
            watermark_at_close_ms: self.watermark_at_close_ms,
        }
    }
}

/// What a database consists of.
#[derive(Debug, PartialEq, Eq)]
pub struct Manifest {
    pub db_version: u32,
    pub bucket_count: u32,
    pub raw_segments: Vec<SegmentMeta>,
    pub rollup_segments: Vec<SegmentMeta>,
    pub compacted_replacements: Vec<ReplacementRecord>,
    pub watermarks: Watermarks,
    /// The log files up to this one are held by committed segments: they can be
    /// deleted, and only later ones are replayed.
    pub last_sealed_wal_id: u64,
    /// The number of the saved state that this one is, counted from one.
    pub current_generation: u64,
    pub closed_periods: Vec<ClosedPeriod>,
}

/// A manifest by its contents.
#[verifier::ext_equal]
pub struct ManifestModel {
    pub db_version: u32,
    pub bucket_count: u32,
    pub raw_segments: Seq<MetaModel>,
    pub rollup_segments: Seq<MetaModel>,
    pub compacted_replacements: Seq<ReplacementModel>,
    pub watermark_ms: i64,
    pub last_sealed_wal_id: u64,
    pub current_generation: u64,
    pub closed_periods: Seq<ClosedModel>,
}

impl View for Manifest {
    type V = ManifestModel;

    open spec fn view(&self) -> ManifestModel {
        ManifestModel {
            db_version: self.db_version,
            bucket_count: self.bucket_count,
            raw_segments: meta_views(self.raw_segments@),
            rollup_segments: meta_views(self.rollup_segments@),
            compacted_replacements: replacement_views(self.compacted_replacements@),
            watermark_ms: self.watermarks.hourly_rollup_ms,
            last_sealed_wal_id: self.last_sealed_wal_id,
            current_generation: self.current_generation,
            closed_periods: closed_views(self.closed_periods@),
        }
    }
}

/// Copies of segments' descriptions, in their order.
pub fn clone_metas(metas: &Vec<SegmentMeta>) -> (r: Vec<SegmentMeta>)
    ensures
        meta_views(r@) == meta_views(metas@),
{
    let mut r: Vec<SegmentMeta> = Vec::new();
    for i in 0..metas.len()
        invariant
            meta_views(r@) == meta_views(metas@).take(i as int),
    {
        let m = metas[i].clone();
        proof {
            lemma_metas_push(r@, m);
            assert(meta_views(metas@)[i as int] == metas@[i as int]@);
        }
        r.push(m);
        assert(meta_views(metas@).take(i + 1) =~= meta_views(metas@).take(i as int).push(
            metas@[i as int]@,
        ));
    }
    assert(meta_views(metas@).take(metas@.len() as int) =~= meta_views(metas@));
    r
}

fn clone_replacements(records: &Vec<ReplacementRecord>) -> (r: Vec<ReplacementRecord>)
    ensures
        replacement_views(r@) == replacement_views(records@),
{
    let ghost wanted = replacement_views(records@);
    let mut r: Vec<ReplacementRecord> = Vec::new();
    for i in 0..records.len()
        invariant
            wanted == replacement_views(records@),
            replacement_views(r@) == wanted.take(i as int),
    {
        let m = records[i].clone();
        let ghost before = r@;
        r.push(m);
        assert(replacement_views(r@) =~= replacement_views(before).push(m@));
        assert(wanted.take(i + 1) =~= wanted.take(i as int).push(records@[i as int]@));
    }
    assert(wanted.take(records@.len() as int) =~= wanted);
    r
}

fn clone_periods(periods: &Vec<ClosedPeriod>) -> (r: Vec<ClosedPeriod>)
    ensures
        closed_views(r@) == closed_views(periods@),
{
    let ghost wanted = closed_views(periods@);
    let mut r: Vec<ClosedPeriod> = Vec::new();
    for i in 0..periods.len()
        invariant
            wanted == closed_views(periods@),
            closed_views(r@) == wanted.take(i as int),
    {
        let m = periods[i].clone();
        let ghost before = r@;
        r.push(m);
        assert(closed_views(r@) =~= closed_views(before).push(m@));
        assert(wanted.take(i + 1) =~= wanted.take(i as int).push(periods@[i as int]@));
    }
    assert(wanted.take(periods@.len() as int) =~= wanted);
    r
}

impl Clone for Manifest {
    fn clone(&self) -> (r: Self)
        ensures
            r@ == self@,
    {
        Manifest {
            db_version: self.db_version,
            bucket_count: self.bucket_count,
            raw_segments: clone_metas(&self.raw_segments),
            rollup_segments: clone_metas(&self.rollup_segments),
            compacted_replacements: clone_replacements(&self.compacted_replacements),
            watermarks: self.watermarks,
            last_sealed_wal_id: self.last_sealed_wal_id,
            current_generation: self.current_generation,
            closed_periods: clone_periods(&self.closed_periods),
        }
    }
}

/// A manifest without segments.
pub open spec fn fresh_manifest() -> ManifestModel {
    ManifestModel {
        db_version: 0,
        bucket_count: 0,
        raw_segments: Seq::empty(),
        rollup_segments: Seq::empty(),
        compacted_replacements: Seq::empty(),
        watermark_ms: 0,
        last_sealed_wal_id: 0,
        current_generation: 0,
        closed_periods: Seq::empty(),
    }
}

impl Default for Manifest {
    fn default() -> (r: Self)
        ensures
            r@ == fresh_manifest(),
    {
        let r = Manifest {
            db_version: 0,
            bucket_count: 0,
            raw_segments: Vec::new(),
            rollup_segments: Vec::new(),
            compacted_replacements: Vec::new(),
            watermarks: Watermarks { hourly_rollup_ms: 0 },
            last_sealed_wal_id: 0,
            current_generation: 0,
            closed_periods: Vec::new(),
        };
        assert(r@ =~= fresh_manifest());
        r
    }
}

/// A database begins with nothing: no segment, no replacement, no closed month, and its
/// watermark and its counters at zero.
pub proof fn law_nothing_is_there_at_first()
    ensures
        ({
            let m = fresh_manifest();
            &&& m.raw_segments.len() == 0
            &&& m.rollup_segments.len() == 0
            &&& m.compacted_replacements.len() == 0
            &&& m.closed_periods.len() == 0
            &&& m.watermark_ms == 0
            &&& m.last_sealed_wal_id == 0
            &&& m.current_generation == 0
        }),
{
}

} // verus!
