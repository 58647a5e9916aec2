//! One pass of the rollup worker.
//!
//! The manifest holds the watermark: the exclusive bound below which every hour
//! has been rolled up. A pass moves it to the hour of `now - safety_lag`, but
//! never past the hour of an event that is still in the memtable. For each hour
//! in between, the events of that hour are added up into one rollup segment per
//! bucket; the segments and the new watermark are committed together.

use vstd::prelude::*;

use crate::hours;
use crate::hours::{start_of_unit, HOUR_MS};
use crate::ingest::flusher;
use crate::ingest::flusher::{account_of, greatest_account, least_account};
use crate::ingest::memtable::Memtable;
use crate::ingest::wal::Wal;
use crate::model::event;
use crate::model::event::{EventModel, UsageEvent};
use crate::model::ids;
use crate::model::ids::bucket_for_account;
use crate::quantity;
use crate::quantity::saturating_plus;
use crate::rollup::builder;
use crate::rollup::builder::RollupBuilder;
use crate::rollup::hourly;
use crate::rollup::hourly::{HourlyRollupRecord, RecordModel};
use crate::runtime::state::FlushMessage;
use crate::storage::manifest;
use crate::storage::manifest::{Manifest, ManifestModel, MetaModel, SegmentKind, SegmentMeta};
use crate::text;
use crate::textset::TextSet;

verus! {

/// What a pass did.
#[derive(Debug, Clone, Copy, PartialEq, Eq, Structural)]
pub struct RollupTickStats {
    pub segments_written: usize,
    pub watermark_ms: i64,
    pub hours_processed: usize,
    /// The pass was put off, as drained events have not reached a segment yet.
    pub skipped_for_in_flight: bool,
    /// The memtable was drained, as its events had waited too long.
    pub forced_flush: bool,
}

impl Default for RollupTickStats {
    fn default() -> (r: Self)
        ensures
            r == (RollupTickStats {
                segments_written: 0,
                watermark_ms: 0,
                hours_processed: 0,
                skipped_for_in_flight: false,
                forced_flush: false,
            }),
    {
        RollupTickStats {
            segments_written: 0,
            watermark_ms: 0,
            hours_processed: 0,
            skipped_for_in_flight: false,
            forced_flush: false,
        }
    }
}

// ---------------------------------------------------------------------------
// What to do
// ---------------------------------------------------------------------------

/// What a pass has to know beside the manifest.
#[derive(Debug, Clone, Copy, PartialEq, Eq, Structural)]
pub struct LiveState {
    pub active_wal_id: u64,
    /// When the oldest event of the memtable was put there.
    pub oldest_insert_at_ms: Option<i64>,
    /// The earliest time of an event of the memtable.
    pub min_event_timestamp_ms: Option<i64>,
}

/// What a pass has to do.
#[derive(Debug, Clone, Copy, PartialEq, Eq, Structural)]
pub enum TickDecision {
    /// Nothing: a flush is under way.
    InFlight,
    /// Drain the memtable.
    ForceFlush,
    /// Nothing: all hours up to the watermark are done.
    Idle { watermark_ms: i64 },
    /// Roll up the hours of `[from_ms, to_ms)`.
    Roll { from_ms: i64, to_ms: i64 },
}

/// The worker's settings.
#[derive(Debug, Clone, Copy, PartialEq, Eq, Structural)]
pub struct RollupWorker {
    pub safety_lag_ms: i64,
    pub memtable_max_age_ms: i64,
}

/// A log file has been sealed whose events no committed segment holds yet.
pub open spec fn flush_in_flight(active_wal_id: int, last_sealed_wal_id: int) -> bool {
    active_wal_id - 1 > last_sealed_wal_id
}

pub open spec fn clamped64(v: int) -> int {
    if v > i64::MAX {
        i64::MAX as int
    } else if v < i64::MIN {
        i64::MIN as int
    } else {
        v
    }
}

/// Up to where a pass may go: the hour of `now - lag`, or the hour of the
/// earliest event that is in the memtable where that is before.
pub open spec fn target_hour(now: int, lag: int, min_event: Option<i64>) -> int {
    let due = hours::start_of(clamped64(now - lag), HOUR_MS as int);
    match min_event {
        Some(m) => {
            let pending = hours::start_of(m as int, HOUR_MS as int);
            if pending < due {
                pending
            } else {
                due
            }
        },
        None => due,
    }
}

/// The least of the segments' earliest times.
pub open spec fn earliest_segment(metas: Seq<MetaModel>) -> int
    decreases metas.len(),
{
    if metas.len() == 0 {
        i64::MAX as int
    } else {
        let before = earliest_segment(metas.drop_last());
        if metas.last().min_timestamp_ms < before {
            metas.last().min_timestamp_ms as int
        } else {
            before
        }
    }
}

/// From where a pass has to begin: the watermark, or the first hour that any raw
/// segment touches where nothing has been rolled up yet.
pub open spec fn first_hour(watermark: int, raw: Seq<MetaModel>) -> int {
    if watermark == 0 && raw.len() > 0 {
        hours::start_of(earliest_segment(raw), HOUR_MS as int)
    } else {
        watermark
    }
}

impl RollupWorker {
    pub fn new(safety_lag_ms: i64, memtable_max_age_ms: i64) -> (r: Self)
        ensures
            r.safety_lag_ms == safety_lag_ms,
            r.memtable_max_age_ms == memtable_max_age_ms,
    {
        RollupWorker { safety_lag_ms, memtable_max_age_ms }
    }

    /// What a pass at the time `now` has to do. A memtable that has waited too long
    /// is drained even while a flush is under way: the flush that it sets off also
    /// seals the log files before it.
    pub open spec fn decision(self, now: int, m: ManifestModel, live: LiveState) -> TickDecision {
        let from = first_hour(m.watermark_ms as int, m.raw_segments);
        let to = target_hour(now, self.safety_lag_ms as int, live.min_event_timestamp_ms);
        if live.oldest_insert_at_ms matches Some(t) && now - t > self.memtable_max_age_ms {
            TickDecision::ForceFlush
        } else if flush_in_flight(live.active_wal_id as int, m.last_sealed_wal_id as int) {
            TickDecision::InFlight
        } else if to <= from {
            TickDecision::Idle { watermark_ms: from as i64 }
        } else {
            TickDecision::Roll { from_ms: from as i64, to_ms: to as i64 }
        }
    }

    /// Decides what a pass at the time `now_ms` has to do.
    pub fn decide(&self, now_ms: i64, manifest: &Manifest, live: &LiveState) -> (r: TickDecision)
        ensures
            r == self.decision(now_ms as int, manifest@, *live),
    {
        if let Some(t) = live.oldest_insert_at_ms {
            if now_ms as i128 - t as i128 > self.memtable_max_age_ms as i128 {
                return TickDecision::ForceFlush;
            }
        }
        if live.active_wal_id > 0 && live.active_wal_id - 1 > manifest.last_sealed_wal_id {
            return TickDecision::InFlight;
        }
        let from: i64 = start_watermark(manifest);
        let to: i64 = target_for(now_ms, self.safety_lag_ms, live.min_event_timestamp_ms);
        if to <= from {
            TickDecision::Idle { watermark_ms: from }
        } else {
            TickDecision::Roll { from_ms: from, to_ms: to }
        }
    }
}

/// What a pass reports: `segments` and `hours` are what it has rolled up, and
/// `watermark` is the one before it.
pub open spec fn tick_stats(
    d: TickDecision,
    watermark: i64,
    segments: usize,
    hours: usize,
) -> RollupTickStats {
    RollupTickStats {
        segments_written: if d is Roll {
            segments
        } else {
            0
        },
        watermark_ms: match d {
            TickDecision::Idle { watermark_ms } => watermark_ms,
            TickDecision::Roll { from_ms: _, to_ms } => to_ms,
            _ => watermark,
        },
        hours_processed: if d is Roll {
            hours
        } else {
            0
        },
        skipped_for_in_flight: d is InFlight,
        forced_flush: d is ForceFlush,
    }
}

impl TickDecision {
    /// What a pass reports.
    pub fn stats(&self, watermark_ms: i64, segments: usize, hours: usize) -> (r: RollupTickStats)
        ensures
            r == tick_stats(*self, watermark_ms, segments, hours),
    {
        let none = RollupTickStats {
            segments_written: 0,
            watermark_ms,
            hours_processed: 0,
            skipped_for_in_flight: false,
            forced_flush: false,
        };
        match *self {
            TickDecision::InFlight => RollupTickStats { skipped_for_in_flight: true, ..none },
            TickDecision::ForceFlush => RollupTickStats { forced_flush: true, ..none },
            TickDecision::Idle { watermark_ms } => RollupTickStats { watermark_ms, ..none },
            TickDecision::Roll { from_ms: _, to_ms } => RollupTickStats {
                segments_written: segments,
                watermark_ms: to_ms,
                hours_processed: hours,
                ..none
            },
        }
    }
}

/// Drains the memtable and seals the log behind it, so that its events reach a
/// segment. An empty memtable is left alone.
pub fn force_drain_memtable(memtable: &mut Memtable, wal: &mut Wal) -> (r: Option<FlushMessage>)
    requires
        old(wal).active_id < u64::MAX,
        old(memtable).wf(),
    ensures
        final(memtable).wf(),
        match r {
            Some(msg) => {
                &&& old(memtable)@.len() > 0
                &&& event::event_views(msg.events@) == old(memtable)@
                &&& msg.sealed_wal_id == old(wal).active_id
                &&& final(memtable)@.len() == 0
                &&& final(memtable).oldest() is None
                &&& final(wal).active_id == old(wal).active_id + 1
            },
            None => {
                &&& old(memtable)@.len() == 0
                &&& *final(memtable) == *old(memtable)
                &&& *final(wal) == *old(wal)
            },
        },
{
    if memtable.is_empty() {
        return None;
    }
    let events = memtable.drain_all();
    let sealed_wal_id: u64 = wal.rotate();
    Some(FlushMessage { events, sealed_wal_id })
}

fn target_for(now: i64, lag: i64, min_event: Option<i64>) -> (r: i64)
    ensures
        r == target_hour(now as int, lag as int, min_event),
{
    let diff: i128 = now as i128 - lag as i128;
    let clamped: i64 = if diff > i64::MAX as i128 {
        i64::MAX
    } else if diff < i64::MIN as i128 {
        i64::MIN
    } else {
        diff as i64
    };
    let due: i64 = start_of_unit(clamped, HOUR_MS);
    match min_event {
        Some(m) => {
            let pending: i64 = start_of_unit(m, HOUR_MS);
            if pending < due {
                pending
            } else {
                due
            }
        },
        None => due,
    }
}

fn start_watermark(manifest: &Manifest) -> (r: i64)
    ensures
        r == first_hour(manifest@.watermark_ms as int, manifest@.raw_segments),
{
    let watermark: i64 = manifest.watermarks.hourly_rollup_ms;
    if watermark == 0 && manifest.raw_segments.len() > 0 {
        let ghost all = manifest@.raw_segments;
        let mut least: i64 = i64::MAX;
        for i in 0..manifest.raw_segments.len()
            invariant
                all == manifest::meta_views(manifest.raw_segments@),
                least == earliest_segment(all.take(i as int)),
        {
            assert(all.take(i + 1).drop_last() =~= all.take(i as int));
            assert(all.take(i + 1).last() == manifest.raw_segments@[i as int]@);
            if manifest.raw_segments[i].min_timestamp_ms < least {
                least = manifest.raw_segments[i].min_timestamp_ms;
            }
        }
        assert(all.take(all.len() as int) =~= all);
        start_of_unit(least, HOUR_MS)
    } else {
        watermark
    }
}

// ---------------------------------------------------------------------------
// Rolling up an hour
// ---------------------------------------------------------------------------

/// A raw segment with its events.
#[derive(Debug)]
pub struct LoadedSegment {
    pub segment_id: String,
    pub events: Vec<UsageEvent>,
}

/// An event and the segment that it comes from.
pub type SourcedEvent = (Seq<char>, EventModel);

/// The events of a segment, each with the segment's name.
pub open spec fn sourced(s: LoadedSegment) -> Seq<SourcedEvent> {
    event::event_views(s.events@).map_values(|e: EventModel| (s.segment_id@, e))
}

/// The events of segments, one segment after the other.
pub open spec fn all_sourced(segments: Seq<LoadedSegment>) -> Seq<SourcedEvent>
    decreases segments.len(),
{
    if segments.len() == 0 {
        Seq::empty()
    } else {
        all_sourced(segments.drop_last()) + sourced(segments.last())
    }
}

/// The part of the time and the accounts that one rollup segment covers.
pub struct Window {
    pub from_ms: int,
    pub to_ms: int,
    pub bucket_count: int,
    pub bucket: int,
}

pub open spec fn in_window(w: Window, e: EventModel) -> bool {
    w.from_ms <= e.timestamp_ms < w.to_ms && ids::account_bucket(e.account_id, w.bucket_count)
        == w.bucket
}

/// The events of a window, in their order.
pub open spec fn window_events(w: Window, events: Seq<SourcedEvent>) -> Seq<EventModel>
    decreases events.len(),
{
    if events.len() == 0 {
        Seq::empty()
    } else if in_window(w, events.last().1) {
        window_events(w, events.drop_last()).push(events.last().1)
    } else {
        window_events(w, events.drop_last())
    }
}

/// The segments that have an event in a window.
pub open spec fn window_sources(w: Window, events: Seq<SourcedEvent>) -> Set<Seq<char>> {
    Set::new(
        |id: Seq<char>|
            exists|i: int|
                0 <= i < events.len() && in_window(w, (#[trigger] events[i]).1) && events[i].0
                    == id,
    )
}

/// A rollup segment for that hour and bucket exists.
pub open spec fn is_rolled(rolled: Seq<MetaModel>, hour: int, bucket: int) -> bool {
    exists|i: int|
        0 <= i < rolled.len() && (#[trigger] rolled[i]).min_timestamp_ms == hour && rolled[i].bucket
            == bucket
}

fn already_rolled(rolled: &Vec<SegmentMeta>, hour: i64, bucket: u32) -> (r: bool)
    ensures
        r == is_rolled(manifest::meta_views(rolled@), hour as int, bucket as int),
{
    for i in 0..rolled.len()
        invariant
            forall|j: int|
                0 <= j < i ==> (#[trigger] manifest::meta_views(rolled@)[j]).min_timestamp_ms != hour
                    || manifest::meta_views(rolled@)[j].bucket != bucket,
    {
        assert(manifest::meta_views(rolled@)[i as int] == rolled@[i as int]@);
        if rolled[i].min_timestamp_ms == hour && rolled[i].bucket == bucket {
            return true;
        }
    }
    false
}

/// What is to become one rollup segment.
#[derive(Debug)]
pub struct HourRollup {
    pub hour_start_ms: i64,
    pub hour_end_ms: i64,
    pub bucket: u32,
    pub records: Vec<HourlyRollupRecord>,
    /// The raw segments whose events went into it.
    pub inputs: TextSet,
}

impl HourRollup {
    pub open spec fn window(self, bucket_count: int) -> Window {
        Window {
            from_ms: self.hour_start_ms as int,
            to_ms: self.hour_end_ms as int,
            bucket_count,
            bucket: self.bucket as int,
        }
    }

    /// It holds the rollup of all events of its window, of which there are some,
    /// and names the segments that they come from.
    pub open spec fn covers(self, bucket_count: int, events: Seq<SourcedEvent>) -> bool {
        let w = self.window(bucket_count);
        &&& window_events(w, events).len() > 0
        &&& hourly::record_views(self.records@) == builder::rollup_of(window_events(w, events))
        &&& self.inputs@ == window_sources(w, events)
    }
}

/// The rollup of one bucket while its events are added up.
struct BucketBuild {
    bucket: u32,
    builder: RollupBuilder,
    inputs: TextSet,
}

spec fn window_at(hour: int, end: int, bucket_count: int, bucket: int) -> Window {
    Window { from_ms: hour, to_ms: end, bucket_count, bucket }
}

spec fn builds_ok(
    builds: Seq<BucketBuild>,
    hour: int,
    end: int,
    bucket_count: int,
    rolled: Seq<MetaModel>,
    events: Seq<SourcedEvent>,
) -> bool {
    &&& forall|i: int|
        0 <= i < builds.len() ==> {
            let w = window_at(hour, end, bucket_count, (#[trigger] builds[i]).bucket as int);
            &&& !is_rolled(rolled, hour, builds[i].bucket as int)
            &&& window_events(w, events).len() > 0
            &&& builds[i].builder@ == builder::rollup_of(window_events(w, events))
            &&& builds[i].inputs@ == window_sources(w, events)
        }
    &&& forall|i: int, j: int|
        0 <= i < j < builds.len() ==> (#[trigger] builds[i]).bucket != (#[trigger] builds[j]).bucket
    &&& forall|b: u32|
        #![trigger window_at(hour, end, bucket_count, b as int)]
        !is_rolled(rolled, hour, b as int) && window_events(
            window_at(hour, end, bucket_count, b as int),
            events,
        ).len() > 0 ==> some_build(builds, b)
}

spec fn some_build(builds: Seq<BucketBuild>, b: u32) -> bool {
    exists|i: int| 0 <= i < builds.len() && (#[trigger] builds[i]).bucket == b
}

proof fn lemma_window_push(w: Window, events: Seq<SourcedEvent>, e: SourcedEvent)
    ensures
        in_window(w, e.1) ==> window_events(w, events.push(e)) == window_events(w, events).push(
            e.1,
        ) && window_sources(w, events.push(e)) == window_sources(w, events).insert(e.0),
        !in_window(w, e.1) ==> window_events(w, events.push(e)) == window_events(w, events)
            && window_sources(w, events.push(e)) == window_sources(w, events),
{
    let after = events.push(e);
    assert(after.drop_last() =~= events);
    assert(after[events.len() as int] == e);
    assert forall|id: Seq<char>|
        window_sources(w, after).contains(id) == (window_sources(w, events).contains(id) || (
        in_window(w, e.1) && e.0 == id)) by {
        if window_sources(w, after).contains(id) {
            let i = choose|i: int|
                0 <= i < after.len() && in_window(w, (#[trigger] after[i]).1) && after[i].0 == id;
            if i < events.len() {
                assert(events[i] == after[i]);
            }
        }
        if window_sources(w, events).contains(id) {
            let i = choose|i: int|
                0 <= i < events.len() && in_window(w, (#[trigger] events[i]).1) && events[i].0
                    == id;
            assert(after[i] == events[i]);
        }
    }
    if in_window(w, e.1) {
        assert(window_sources(w, after) =~= window_sources(w, events).insert(e.0));
    } else {
        assert(window_sources(w, after) =~= window_sources(w, events));
    }
}

/// Adds one event to the rollup of its bucket.
fn add_event(
    builds: &mut Vec<BucketBuild>,
    segment_id: &String,
    e: &UsageEvent,
    hour: i64,
    end: i64,
    bucket_count: u32,
    rolled: &Vec<SegmentMeta>,
    Ghost(events): Ghost<Seq<SourcedEvent>>,
)
    requires
        builds_ok(
            old(builds)@,
            hour as int,
            end as int,
            bucket_count as int,
            manifest::meta_views(rolled@),
            events,
        ),
    ensures
        builds_ok(
            final(builds)@,
            hour as int,
            end as int,
            bucket_count as int,
            manifest::meta_views(rolled@),
            events.push((segment_id@, e@)),
        ),
{
    let ghost metas = manifest::meta_views(rolled@);
    let ghost item = (segment_id@, e@);
    let ghost after = events.push(item);
    let ghost before = builds@;
    let ghost h = hour as int;
    let ghost t = end as int;
    let ghost bc = bucket_count as int;
    proof {
        assert forall|b: int|
            #![trigger window_at(h, t, bc, b)]
            in_window(window_at(h, t, bc, b), item.1) ==> window_events(
                window_at(h, t, bc, b),
                after,
            ) == window_events(window_at(h, t, bc, b), events).push(item.1) && window_sources(
                window_at(h, t, bc, b),
                after,
            ) == window_sources(window_at(h, t, bc, b), events).insert(item.0) by {
            lemma_window_push(window_at(h, t, bc, b), events, item);
        }
        assert forall|b: int|
            #![trigger window_at(h, t, bc, b)]
            !in_window(window_at(h, t, bc, b), item.1) ==> window_events(
                window_at(h, t, bc, b),
                after,
            ) == window_events(window_at(h, t, bc, b), events) && window_sources(
                window_at(h, t, bc, b),
                after,
            ) == window_sources(window_at(h, t, bc, b), events) by {
            lemma_window_push(window_at(h, t, bc, b), events, item);
        }
    }
    if e.timestamp_ms < hour || e.timestamp_ms >= end {
        return;
    }
    let bucket: u32 = bucket_for_account(&e.account_id, bucket_count);
    if already_rolled(rolled, hour, bucket) {
        assert forall|i: int| 0 <= i < before.len() implies (#[trigger] before[i]).bucket
            != bucket by {
            assert(!is_rolled(metas, h, before[i].bucket as int));
        }
        return;
    }
    let ghost w = window_at(h, t, bc, bucket as int);
    let mut place: usize = 0;
    while place < builds.len() && builds[place].bucket != bucket
        invariant
            place <= builds.len(),
            builds@ == before,
            forall|i: int| 0 <= i < place ==> (#[trigger] builds@[i]).bucket != bucket,
        decreases builds.len() - place,
    {
        place = place + 1;
    }
    if place == builds.len() {
        let mut builder = RollupBuilder::new();
        builder.process_event(e);
        let mut inputs = TextSet::new();
        inputs.insert(segment_id.clone());
        proof {
            assert(!some_build(before, bucket));
            assert(window_events(w, events).len() == 0);
            assert(window_events(w, events) =~= Seq::empty());
            assert(window_sources(w, events) =~= Set::empty()) by {
                assert forall|id: Seq<char>| !window_sources(w, events).contains(id) by {
                    if window_sources(w, events).contains(id) {
                        let i = choose|i: int|
                            0 <= i < events.len() && in_window(w, (#[trigger] events[i]).1)
                                && events[i].0 == id;
                        lemma_window_some(w, events, i);
                    }
                }
            }
            assert(window_events(w, after).drop_last() =~= Seq::empty());
            assert(window_events(w, after).last() == e@);
            reveal_with_fuel(builder::rollup_of, 2);
            assert(builder@ =~= builder::rollup_of(window_events(w, after)));
        }
        builds.push(BucketBuild { bucket, builder, inputs });
        proof {
            let now = builds@;
            assert(now[before.len() as int].bucket == bucket);
            assert forall|i: int| 0 <= i < before.len() implies now[i] == before[i] by {}
            assert forall|b: u32|
                #![trigger window_at(h, t, bc, b as int)]
                !is_rolled(metas, h, b as int) && window_events(
                    window_at(h, t, bc, b as int),
                    after,
                ).len() > 0 implies some_build(now, b) by {
                if b != bucket {
                    assert(some_build(before, b));
                    let i = choose|i: int|
                        0 <= i < before.len() && (#[trigger] before[i]).bucket == b;
                    assert(now[i].bucket == b);
                }
            }
        }
    } else {
        let mut build = builds.remove(place);
        assert(build == before[place as int]);
        build.builder.process_event(e);
        build.inputs.insert(segment_id.clone());
        proof {
            assert(window_events(w, after).drop_last() =~= window_events(w, events));
            assert(window_events(w, after).last() == e@);
        }
        builds.insert(place, build);
        proof {
            let now = builds@;
            assert(now =~= before.update(place as int, now[place as int]));
            assert forall|i: int| 0 <= i < now.len() implies (#[trigger] now[i]).bucket
                == before[i].bucket by {}
            assert forall|i: int| 0 <= i < now.len() implies {
                let w = window_at(h, t, bc, (#[trigger] now[i]).bucket as int);
                &&& !is_rolled(metas, h, now[i].bucket as int)
                &&& window_events(w, after).len() > 0
                &&& now[i].builder@ == builder::rollup_of(window_events(w, after))
                &&& now[i].inputs@ == window_sources(w, after)
            } by {
                assert(!is_rolled(metas, h, before[i].bucket as int));
                if i != place {
                    assert(now[i] == before[i]);
                    if i < place {
                        assert(before[i].bucket != before[place as int].bucket);
                    } else {
                        assert(before[place as int].bucket != before[i].bucket);
                    }
                }
            }
            assert forall|i: int, j: int| 0 <= i < j < now.len() implies (
            #[trigger] now[i]).bucket != (#[trigger] now[j]).bucket by {
                assert(before[i].bucket != before[j].bucket);
            }
            assert forall|b: u32|
                #![trigger window_at(h, t, bc, b as int)]
                !is_rolled(metas, h, b as int) && window_events(
                    window_at(h, t, bc, b as int),
                    after,
                ).len() > 0 implies some_build(now, b) by {
                if b != bucket {
                    assert(some_build(before, b));
                    let i = choose|i: int|
                        0 <= i < before.len() && (#[trigger] before[i]).bucket == b;
                    assert(now[i].bucket == b);
                } else {
                    assert(now[place as int].bucket == b);
                }
            }
        }
    }
}

pub proof fn lemma_window_some(w: Window, events: Seq<SourcedEvent>, i: int)
    requires
        0 <= i < events.len(),
        in_window(w, events[i].1),
    ensures
        window_events(w, events).len() > 0,
    decreases events.len(),
{
    if i < events.len() - 1 {
        assert(events.drop_last()[i] == events[i]);
        lemma_window_some(w, events.drop_last(), i);
    }
}

/// Every event lies between the earliest and the latest time.
pub proof fn lemma_time_bounds(events: Seq<EventModel>, i: int)
    requires
        0 <= i < events.len(),
    ensures
        flusher::earliest(events) <= events[i].timestamp_ms <= flusher::latest(events),
    decreases events.len(),
{
    if i < events.len() - 1 {
        assert(events.drop_last()[i] == events[i]);
        lemma_time_bounds(events.drop_last(), i);
    }
}

/// The earliest and the latest time of events.
fn time_bounds(events: &Vec<UsageEvent>) -> (r: (i64, i64))
    ensures
        r.0 == flusher::earliest(event::event_views(events@)),
        r.1 == flusher::latest(event::event_views(events@)),
{
    let ghost all = event::event_views(events@);
    let mut lo: i64 = i64::MAX;
    let mut hi: i64 = i64::MIN;
    for i in 0..events.len()
        invariant
            all == event::event_views(events@),
            lo == flusher::earliest(all.take(i as int)),
            hi == flusher::latest(all.take(i as int)),
    {
        assert(all.take(i + 1).drop_last() =~= all.take(i as int));
        assert(all.take(i + 1).last() == events@[i as int]@);
        if events[i].timestamp_ms < lo {
            lo = events[i].timestamp_ms;
        }
        if events[i].timestamp_ms > hi {
            hi = events[i].timestamp_ms;
        }
    }
    assert(all.take(events@.len() as int) =~= all);
    (lo, hi)
}

/// Events outside of a time range leave its windows as they are.
proof fn lemma_passed_by(w: Window, events: Seq<SourcedEvent>, more: Seq<SourcedEvent>)
    requires
        forall|i: int|
            0 <= i < more.len() ==> !(w.from_ms <= (#[trigger] more[i]).1.timestamp_ms < w.to_ms),
    ensures
        window_events(w, events + more) == window_events(w, events),
        window_sources(w, events + more) == window_sources(w, events),
    decreases more.len(),
{
    if more.len() == 0 {
        assert(events + more =~= events);
    } else {
        let init = more.drop_last();
        assert forall|i: int| 0 <= i < init.len() implies !(w.from_ms <= (
        #[trigger] init[i]).1.timestamp_ms < w.to_ms) by {
            assert(init[i] == more[i]);
        }
        lemma_passed_by(w, events, init);
        lemma_window_push(w, events + init, more.last());
        assert((events + init).push(more.last()) =~= events + more);
        assert(!(w.from_ms <= more[more.len() - 1].1.timestamp_ms < w.to_ms));
    }
}

/// The rollups of the hour `[hour, end)`: one for each bucket that has events in
/// it and has not been rolled up.
pub open spec fn hour_done(
    out: Seq<HourRollup>,
    hour: int,
    end: int,
    bucket_count: int,
    rolled: Seq<MetaModel>,
    events: Seq<SourcedEvent>,
) -> bool {
    &&& forall|i: int|
        0 <= i < out.len() ==> (#[trigger] out[i]).hour_start_ms == hour && out[i].hour_end_ms
            == end && !is_rolled(rolled, hour, out[i].bucket as int) && out[i].covers(
            bucket_count,
            events,
        )
    &&& forall|i: int, j: int|
        0 <= i < j < out.len() ==> (#[trigger] out[i]).bucket != (#[trigger] out[j]).bucket
    &&& forall|b: u32|
        !is_rolled(rolled, hour, b as int) && window_events(
            #[trigger] hour_window(hour, end, bucket_count, b),
            events,
        ).len() > 0 ==> some_rollup(out, hour, b)
}

pub open spec fn hour_window(hour: int, end: int, bucket_count: int, b: u32) -> Window {
    Window { from_ms: hour, to_ms: end, bucket_count, bucket: b as int }
}

pub open spec fn some_rollup(out: Seq<HourRollup>, hour: int, b: u32) -> bool {
    exists|i: int|
        0 <= i < out.len() && (#[trigger] out[i]).hour_start_ms == hour && out[i].bucket == b
}

fn roll_hour(
    segments: &Vec<LoadedSegment>,
    bounds: &Vec<(i64, i64)>,
    hour: i64,
    end: i64,
    bucket_count: u32,
    rolled: &Vec<SegmentMeta>,
) -> (out: Vec<HourRollup>)
    requires
        bounds@.len() == segments@.len(),
        forall|i: int|
            0 <= i < segments@.len() ==> (#[trigger] bounds@[i]).0 == flusher::earliest(
                event::event_views(segments@[i].events@),
            ) && bounds@[i].1 == flusher::latest(event::event_views(segments@[i].events@)),
    ensures
        hour_done(
            out@,
            hour as int,
            end as int,
            bucket_count as int,
            manifest::meta_views(rolled@),
            all_sourced(segments@),
        ),
{
    let ghost metas = manifest::meta_views(rolled@);
    let ghost h = hour as int;
    let ghost t = end as int;
    let ghost bc = bucket_count as int;
    let mut builds: Vec<BucketBuild> = Vec::new();
    for i in 0..segments.len()
        invariant
            h == hour,
            t == end,
            bc == bucket_count,
            metas == manifest::meta_views(rolled@),
            bounds@.len() == segments@.len(),
            forall|i: int|
                0 <= i < segments@.len() ==> (#[trigger] bounds@[i]).0 == flusher::earliest(
                    event::event_views(segments@[i].events@),
                ) && bounds@[i].1 == flusher::latest(event::event_views(segments@[i].events@)),
            builds_ok(builds@, h, t, bc, metas, all_sourced(segments@.take(i as int))),
    {
        let segment = &segments[i];
        let ghost so_far = all_sourced(segments@.take(i as int));
        let ghost own = sourced(*segment);
        assert(segments@.take(i + 1).drop_last() =~= segments@.take(i as int));
        assert(segments@.take(i + 1).last() == segment);
        if bounds[i].1 < hour || bounds[i].0 >= end {
            proof {
                assert forall|k: int| 0 <= k < own.len() implies !(h <= (
                #[trigger] own[k]).1.timestamp_ms < t) by {
                    lemma_time_bounds(event::event_views(segment.events@), k);
                }
                assert forall|b: int|
                    #![trigger window_at(h, t, bc, b)]
                    window_events(window_at(h, t, bc, b), so_far + own) == window_events(
                        window_at(h, t, bc, b),
                        so_far,
                    ) && window_sources(window_at(h, t, bc, b), so_far + own) == window_sources(
                        window_at(h, t, bc, b),
                        so_far,
                    ) by {
                    lemma_passed_by(window_at(h, t, bc, b), so_far, own);
                }
            }
        } else {
            assert(so_far + own.take(0) =~= so_far);
            for j in 0..segment.events.len()
                invariant
                    h == hour,
                    t == end,
                    bc == bucket_count,
                    metas == manifest::meta_views(rolled@),
                    own == sourced(*segment),
                    builds_ok(builds@, h, t, bc, metas, so_far + own.take(j as int)),
            {
                add_event(
                    &mut builds,
                    &segment.segment_id,
                    &segment.events[j],
                    hour,
                    end,
                    bucket_count,
                    rolled,
                    Ghost(so_far + own.take(j as int)),
                );
                assert(own[j as int] == (segment.segment_id@, segment.events@[j as int]@));
                assert((so_far + own.take(j as int)).push(own[j as int]) =~= so_far + own.take(
                    j + 1,
                ));
            }
            assert(own.take(segment.events@.len() as int) =~= own);
        }
    }
    assert(segments@.take(segments@.len() as int) =~= segments@);
    let ghost events = all_sourced(segments@);
    let ghost done = builds@;
    let mut out: Vec<HourRollup> = Vec::new();
    let count = builds.len();
    for i in 0..count
        invariant
            done.len() == count,
            h == hour,
            t == end,
            bc == bucket_count,
            builds_ok(done, h, t, bc, metas, events),
            builds@ == done.skip(i as int),
            out@.len() == i,
            forall|k: int|
                0 <= k < i ==> (#[trigger] out@[k]).hour_start_ms == hour && out@[k].hour_end_ms
                    == end && out@[k].bucket == done[k].bucket && !is_rolled(
                    metas,
                    h,
                    out@[k].bucket as int,
                ) && out@[k].covers(bc, events),
    {
        let build = builds.remove(0);
        assert(build == done[i as int]);
        assert(builds@ =~= done.skip(i + 1));
        let BucketBuild { bucket, builder, inputs } = build;
        let records = builder.finalize();
        let o = HourRollup { hour_start_ms: hour, hour_end_ms: end, bucket, records, inputs };
        assert(o.window(bc) == window_at(h, t, bc, done[i as int].bucket as int));
        out.push(o);
    }
    proof {
        assert forall|i: int, j: int| 0 <= i < j < out@.len() implies (#[trigger] out@[i]).bucket
            != (#[trigger] out@[j]).bucket by {
            assert(done[i].bucket != done[j].bucket);
        }
        assert forall|b: u32|
            !is_rolled(metas, h, b as int) && window_events(
                #[trigger] hour_window(h, t, bc, b),
                events,
            ).len() > 0 implies some_rollup(out@, h, b) by {
            assert(hour_window(h, t, bc, b) == window_at(h, t, bc, b as int));
            assert(some_build(done, b));
            let i = choose|i: int| 0 <= i < done.len() && (#[trigger] done[i]).bucket == b;
            assert(out@[i].bucket == b);
        }
    }
    out
}

// ---------------------------------------------------------------------------
// Rolling up all hours that are due
// ---------------------------------------------------------------------------

/// The end of the hour that starts at `hour`.
pub open spec fn end_of(hour: int) -> int {
    clamped64(hour + HOUR_MS)
}

/// `hour` is the start of one of the hours of `[from, to)`, counted from `from`.
pub open spec fn hour_in(hour: int, from: int, to: int) -> bool {
    from <= hour < to && (hour - from) % (HOUR_MS as int) == 0
}

/// The rollups of all hours of `[from, to)`: for each hour and each bucket that
/// has events in it and has not been rolled up, one and no more.
pub open spec fn hours_done(
    out: Seq<HourRollup>,
    from: int,
    to: int,
    bucket_count: int,
    rolled: Seq<MetaModel>,
    events: Seq<SourcedEvent>,
) -> bool {
    &&& forall|i: int|
        0 <= i < out.len() ==> hour_in((#[trigger] out[i]).hour_start_ms as int, from, to)
            && out[i].hour_end_ms == end_of(out[i].hour_start_ms as int) && !is_rolled(
            rolled,
            out[i].hour_start_ms as int,
            out[i].bucket as int,
        ) && out[i].covers(bucket_count, events)
    &&& forall|i: int, j: int|
        0 <= i < j < out.len() ==> (#[trigger] out[i]).hour_start_ms != (
        #[trigger] out[j]).hour_start_ms || out[i].bucket != out[j].bucket
    &&& forall|hour: int, b: u32|
        hour_in(hour, from, to) && !is_rolled(rolled, hour, b as int) && window_events(
            #[trigger] hour_window(hour, end_of(hour), bucket_count, b),
            events,
        ).len() > 0 ==> some_rollup(out, hour, b)
}

/// How many hours `[from, to)` has, the last one perhaps in part.
pub open spec fn hours_between(from: int, to: int) -> int {
    if to <= from {
        0
    } else {
        (to - from + HOUR_MS - 1) / (HOUR_MS as int)
    }
}

/// Rolls up the hours of `[from, to)` out of the events of `segments`. Hours and
/// buckets that `rolled` has are passed by, so that nothing is counted twice.
pub fn roll_hours(
    from: i64,
    to: i64,
    segments: &Vec<LoadedSegment>,
    rolled: &Vec<SegmentMeta>,
    bucket_count: u32,
) -> (r: (Vec<HourRollup>, u64))
    ensures
        hours_done(
            r.0@,
            from as int,
            to as int,
            bucket_count as int,
            manifest::meta_views(rolled@),
            all_sourced(segments@),
        ),
        r.1 == hours_between(from as int, to as int),
{
    let ghost metas = manifest::meta_views(rolled@);
    let ghost events = all_sourced(segments@);
    let ghost bc = bucket_count as int;
    let mut bounds: Vec<(i64, i64)> = Vec::new();
    for i in 0..segments.len()
        invariant
            bounds@.len() == i,
            forall|k: int|
                0 <= k < i ==> (#[trigger] bounds@[k]).0 == flusher::earliest(
                    event::event_views(segments@[k].events@),
                ) && bounds@[k].1 == flusher::latest(event::event_views(segments@[k].events@)),
    {
        let b = time_bounds(&segments[i].events);
        bounds.push(b);
    }
    let mut out: Vec<HourRollup> = Vec::new();
    let mut hour: i64 = from;
    let mut count: u64 = 0;
    let ghost mut reached: int = from as int;
    while hour < to
        invariant
            metas == manifest::meta_views(rolled@),
            events == all_sourced(segments@),
            bc == bucket_count,
            bounds@.len() == segments@.len(),
            forall|k: int|
                0 <= k < segments@.len() ==> (#[trigger] bounds@[k]).0 == flusher::earliest(
                    event::event_views(segments@[k].events@),
                ) && bounds@[k].1 == flusher::latest(event::event_views(segments@[k].events@)),
            reached == from + count * HOUR_MS,
            hour == clamped64(reached),
            from <= hour,
            count > 0 ==> reached - HOUR_MS < to,
            hours_done(out@, from as int, reached, bc, metas, events),
            forall|k: int| 0 <= k < out@.len() ==> (#[trigger] out@[k]).hour_start_ms < hour,
            forall|k: int| 0 <= k < out@.len() ==> (#[trigger] out@[k]).hour_start_ms < to,
        decreases i64::MAX - hour,
    {
        assert(reached == hour);
        let end: i64 = match hour.checked_add(HOUR_MS) {
            Some(e) => e,
            None => i64::MAX,
        };
        let mut more = roll_hour(segments, &bounds, hour, end, bucket_count, rolled);
        let ghost before = out@;
        let ghost added = more@;
        out.append(&mut more);
        proof {
            assert(out@ =~= before + added);
            lemma_hour_added(
                before,
                added,
                from as int,
                reached,
                end as int,
                bc,
                metas,
                events,
            );
            assert forall|k: int| 0 <= k < out@.len() implies (#[trigger] out@[k]).hour_start_ms
                <= hour by {
                if k < before.len() {
                    assert(out@[k] == before[k]);
                } else {
                    assert(out@[k] == added[k - before.len()]);
                }
            }
            reached = reached + HOUR_MS;
        }
        hour = end;
        assert(count < u64::MAX) by {
            assert(count * HOUR_MS <= i64::MAX - i64::MIN);
        }
        count = count + 1;
    }
    proof {
        lemma_hours_count(from as int, to as int, count as int);
        let done = out@;
        assert forall|i: int| 0 <= i < done.len() implies hour_in(
            (#[trigger] done[i]).hour_start_ms as int,
            from as int,
            to as int,
        ) by {
            assert(hour_in(done[i].hour_start_ms as int, from as int, reached));
        }
        assert forall|h: int, b: u32|
            hour_in(h, from as int, to as int) && !is_rolled(metas, h, b as int) && window_events(
                #[trigger] hour_window(h, end_of(h), bc, b),
                events,
            ).len() > 0 implies some_rollup(done, h, b) by {
            assert(reached >= to);
            assert(hour_in(h, from as int, reached));
        }
    }
    (out, count)
}

proof fn lemma_hours_count(from: int, to: int, count: int)
    requires
        count >= 0,
        from + count * HOUR_MS >= to,
        count > 0 ==> from + count * HOUR_MS - HOUR_MS < to,
    ensures
        count == hours_between(from, to),
{
}

proof fn lemma_hour_added(
    before: Seq<HourRollup>,
    added: Seq<HourRollup>,
    from: int,
    hour: int,
    end: int,
    bucket_count: int,
    rolled: Seq<MetaModel>,
    events: Seq<SourcedEvent>,
)
    requires
        hours_done(before, from, hour, bucket_count, rolled, events),
        hour_done(added, hour, end, bucket_count, rolled, events),
        end == end_of(hour),
        from <= hour,
        (hour - from) % (HOUR_MS as int) == 0,
        forall|k: int| 0 <= k < before.len() ==> (#[trigger] before[k]).hour_start_ms < hour,
    ensures
        hours_done(before + added, from, hour + HOUR_MS, bucket_count, rolled, events),
{
    let out = before + added;
    let to = hour + HOUR_MS;
    assert forall|i: int| 0 <= i < out.len() implies hour_in(
        (#[trigger] out[i]).hour_start_ms as int,
        from,
        to,
    ) && out[i].hour_end_ms == end_of(out[i].hour_start_ms as int) && !is_rolled(
        rolled,
        out[i].hour_start_ms as int,
        out[i].bucket as int,
    ) && out[i].covers(bucket_count, events) by {
        if i < before.len() {
            assert(out[i] == before[i]);
            assert(hour_in(before[i].hour_start_ms as int, from, hour));
        } else {
            assert(out[i] == added[i - before.len()]);
        }
    }
    assert forall|i: int, j: int| 0 <= i < j < out.len() implies (#[trigger] out[i]).hour_start_ms
        != (#[trigger] out[j]).hour_start_ms || out[i].bucket != out[j].bucket by {
        if j < before.len() {
            assert(out[i] == before[i] && out[j] == before[j]);
        } else if i < before.len() {
            assert(out[i] == before[i]);
            assert(out[j] == added[j - before.len()]);
        } else {
            assert(out[i] == added[i - before.len()]);
            assert(out[j] == added[j - before.len()]);
        }
    }
    assert forall|h: int, b: u32|
        hour_in(h, from, to) && !is_rolled(rolled, h, b as int) && window_events(
            #[trigger] hour_window(h, end_of(h), bucket_count, b),
            events,
        ).len() > 0 implies some_rollup(out, h, b) by {
        if h < hour {
            assert(hour_in(h, from, hour));
            assert(some_rollup(before, h, b));
            let i = choose|i: int|
                0 <= i < before.len() && (#[trigger] before[i]).hour_start_ms == h
                    && before[i].bucket == b;
            assert(out[i] == before[i]);
        } else {
            assert(h == hour) by {
                assert((h - from) % (HOUR_MS as int) == 0);
                assert((hour - from) % (HOUR_MS as int) == 0);
            }
            assert(hour_window(hour, end, bucket_count, b) == hour_window(
                h,
                end_of(h),
                bucket_count,
                b,
            ));
            assert(some_rollup(added, hour, b));
            let i = choose|i: int|
                0 <= i < added.len() && (#[trigger] added[i]).hour_start_ms == hour
                    && added[i].bucket == b;
            assert(out[before.len() + i] == added[i]);
        }
    }
}

// ---------------------------------------------------------------------------
// Committing
// ---------------------------------------------------------------------------

/// The quantities of rows, added up one by one, each time kept within bounds.
pub open spec fn record_total(records: Seq<RecordModel>) -> int
    decreases records.len(),
{
    if records.len() == 0 {
        0
    } else {
        quantity::bounded(record_total(records.drop_last()) + records.last().quantity_sum)
    }
}

pub open spec fn record_products(records: Seq<RecordModel>) -> Set<Seq<char>> {
    Set::new(
        |k: Seq<char>|
            exists|i: int| 0 <= i < records.len() && (#[trigger] records[i]).key.product_id == k,
    )
}

pub open spec fn record_meters(records: Seq<RecordModel>) -> Set<Seq<char>> {
    Set::new(
        |k: Seq<char>|
            exists|i: int| 0 <= i < records.len() && (#[trigger] records[i]).key.meter_id == k,
    )
}

pub open spec fn record_models(records: Seq<RecordModel>) -> Set<Seq<char>> {
    Set::new(
        |k: Seq<char>|
            exists|i: int|
                0 <= i < records.len() && (#[trigger] records[i]).key.model_id == Some(k),
    )
}

/// The first account of rows, in the order of their names.
pub open spec fn first_record_account(records: Seq<RecordModel>) -> Option<Seq<char>>
    decreases records.len(),
{
    if records.len() == 0 {
        None
    } else {
        Some(
            flusher::lesser(
                first_record_account(records.drop_last()),
                records.last().key.account_id,
            ),
        )
    }
}

/// The last account of rows, in the order of their names.
pub open spec fn last_record_account(records: Seq<RecordModel>) -> Option<Seq<char>>
    decreases records.len(),
{
    if records.len() == 0 {
        None
    } else {
        Some(
            flusher::greater(
                last_record_account(records.drop_last()),
                records.last().key.account_id,
            ),
        )
    }
}

/// The description of a rollup segment that holds `records`.
pub open spec fn rollup_meta(
    segment_id: Seq<char>,
    records: Seq<RecordModel>,
    bucket: u32,
    checksum: u64,
    min_ts: i64,
    max_ts: i64,
    inputs: Seq<Seq<char>>,
) -> MetaModel {
    MetaModel {
        segment_id,
        kind: SegmentKind::Rollup,
        min_timestamp_ms: min_ts,
        max_timestamp_ms: max_ts,
        bucket,
        row_count: records.len() as u64,
        min_account_id: first_record_account(records),
        max_account_id: last_record_account(records),
        product_ids: record_products(records),
        meter_ids: record_meters(records),
        model_ids: record_models(records),
        quantity_sum: Some(record_total(records) as i128),
        checksum,
        input_segment_ids: inputs,
    }
}

proof fn lemma_record_sets_push(records: Seq<RecordModel>, r: RecordModel)
    ensures
        record_products(records.push(r)) == record_products(records).insert(r.key.product_id),
        record_meters(records.push(r)) == record_meters(records).insert(r.key.meter_id),
        r.key.model_id is None ==> record_models(records.push(r)) == record_models(records),
        r.key.model_id matches Some(m) ==> record_models(records.push(r)) == record_models(
            records,
        ).insert(m),
{
    let after = records.push(r);
    assert(after[records.len() as int] == r);
    assert forall|i: int| 0 <= i < records.len() implies after[i] == records[i] by {}
    assert forall|k: Seq<char>|
        record_products(after).contains(k) == (record_products(records).contains(k)
            || r.key.product_id == k) by {
        if record_products(after).contains(k) {
            let i = choose|i: int|
                0 <= i < after.len() && (#[trigger] after[i]).key.product_id == k;
            if i < records.len() {
                assert(records[i].key.product_id == k);
            }
        }
        if record_products(records).contains(k) {
            let i = choose|i: int|
                0 <= i < records.len() && (#[trigger] records[i]).key.product_id == k;
            assert(after[i].key.product_id == k);
        }
    }
    assert(record_products(after) =~= record_products(records).insert(r.key.product_id));
    assert forall|k: Seq<char>|
        record_meters(after).contains(k) == (record_meters(records).contains(k) || r.key.meter_id
            == k) by {
        if record_meters(after).contains(k) {
            let i = choose|i: int| 0 <= i < after.len() && (#[trigger] after[i]).key.meter_id == k;
            if i < records.len() {
                assert(records[i].key.meter_id == k);
            }
        }
        if record_meters(records).contains(k) {
            let i = choose|i: int|
                0 <= i < records.len() && (#[trigger] records[i]).key.meter_id == k;
            assert(after[i].key.meter_id == k);
        }
    }
    assert(record_meters(after) =~= record_meters(records).insert(r.key.meter_id));
    assert forall|k: Seq<char>|
        record_models(after).contains(k) == (record_models(records).contains(k) || r.key.model_id
            == Some(k)) by {
        if record_models(after).contains(k) {
            let i = choose|i: int|
                0 <= i < after.len() && (#[trigger] after[i]).key.model_id == Some(k);
            if i < records.len() {
                assert(records[i].key.model_id == Some(k));
            }
        }
        if record_models(records).contains(k) {
            let i = choose|i: int|
                0 <= i < records.len() && (#[trigger] records[i]).key.model_id == Some(k);
            assert(after[i].key.model_id == Some(k));
        }
    }
    if let Some(m) = r.key.model_id {
        assert(record_models(after) =~= record_models(records).insert(m));
    } else {
        assert(record_models(after) =~= record_models(records));
    }
}

/// Builds the description of a rollup segment.
pub fn build_rollup_segment_meta(
    segment_id: &str,
    records: &Vec<HourlyRollupRecord>,
    bucket: u32,
    checksum: u64,
    min_ts: i64,
    max_ts: i64,
    input_segment_ids: Vec<String>,
) -> (r: SegmentMeta)
    ensures
        r@ == rollup_meta(
            segment_id@,
            hourly::record_views(records@),
            bucket,
            checksum,
            min_ts,
            max_ts,
            text::text_views(input_segment_ids@),
        ),
{
    let ghost all = hourly::record_views(records@);
    let mut product_ids = TextSet::new();
    let mut meter_ids = TextSet::new();
    let mut model_ids = TextSet::new();
    let mut min_account: Option<String> = None;
    let mut max_account: Option<String> = None;
    let mut quantity_sum: i128 = 0;
    assert(record_products(all.take(0)) =~= Set::empty());
    assert(record_meters(all.take(0)) =~= Set::empty());
    assert(record_models(all.take(0)) =~= Set::empty());
    for i in 0..records.len()
        invariant
            all == hourly::record_views(records@),
            text::option_view(min_account) == first_record_account(all.take(i as int)),
            text::option_view(max_account) == last_record_account(all.take(i as int)),
            product_ids@ == record_products(all.take(i as int)),
            meter_ids@ == record_meters(all.take(i as int)),
            model_ids@ == record_models(all.take(i as int)),
            quantity_sum == record_total(all.take(i as int)),
    {
        let r = &records[i];
        let ghost upto = all.take(i + 1);
        assert(upto.drop_last() =~= all.take(i as int));
        assert(upto =~= all.take(i as int).push(r@));
        proof {
            lemma_record_sets_push(all.take(i as int), r@);
        }
        product_ids.insert(r.product_id.0.clone());
        meter_ids.insert(r.meter_id.0.clone());
        if let Some(m) = &r.model_id {
            model_ids.insert(m.0.clone());
        }
        min_account = least_account(min_account, &r.account_id.0);
        max_account = greatest_account(max_account, &r.account_id.0);
        quantity_sum = saturating_plus(quantity_sum, r.quantity_sum);
    }
    assert(all.take(records@.len() as int) =~= all);
    SegmentMeta {
        segment_id: segment_id.to_owned(),
        kind: SegmentKind::Rollup,
        min_timestamp_ms: min_ts,
        max_timestamp_ms: max_ts,
        bucket,
        row_count: records.len() as u64,
        min_account_id: account_of(min_account),
        max_account_id: account_of(max_account),
        product_ids,
        meter_ids,
        model_ids,
        quantity_sum: Some(quantity_sum),
        checksum,
        input_segment_ids,
    }
}

/// The members of a set in ascending order.
fn members(set: &TextSet) -> (r: Vec<String>)
    ensures
        text::text_views(r@) == set.ordered(),
{
    let mut r: Vec<String> = Vec::new();
    let count = set.len();
    assert(text::text_views(r@) =~= set.ordered().take(0));
    for i in 0..count
        invariant
            count == set.ordered().len(),
            text::text_views(r@) == set.ordered().take(i as int),
    {
        let t = set.at(i).clone();
        proof {
            text::lemma_texts_push(r@, t);
        }
        r.push(t);
        assert(set.ordered().take(i + 1) =~= set.ordered().take(i as int).push(t@));
    }
    assert(set.ordered().take(count as int) =~= set.ordered());
    r
}

impl HourRollup {
    /// The description of the segment that holds this rollup. Its times are those
    /// of the hour, the last one inclusive.
    pub fn segment_meta(&self, segment_id: &str, checksum: u64) -> (r: SegmentMeta)
        requires
            self.hour_start_ms < self.hour_end_ms,
        ensures
            r@ == rollup_meta(
                segment_id@,
                hourly::record_views(self.records@),
                self.bucket,
                checksum,
                self.hour_start_ms,
                (self.hour_end_ms - 1) as i64,
                self.inputs.ordered(),
            ),
    {
        build_rollup_segment_meta(
            segment_id,
            &self.records,
            self.bucket,
            checksum,
            self.hour_start_ms,
            self.hour_end_ms - 1,
            members(&self.inputs),
        )
    }
}

/// The manifest with further rollup segments and the watermark at `to`.
pub open spec fn rolled_manifest(m: ManifestModel, metas: Seq<MetaModel>, to: i64) -> ManifestModel {
    ManifestModel { rollup_segments: m.rollup_segments + metas, watermark_ms: to, ..m }
}

/// Adds the rollup segments of a pass to the manifest and moves the watermark.
pub fn commit_tick(manifest: &mut Manifest, metas: Vec<SegmentMeta>, to_ms: i64)
    ensures
        final(manifest)@ == rolled_manifest(old(manifest)@, manifest::meta_views(metas@), to_ms),
{
    let ghost before = manifest.rollup_segments@;
    let ghost added = metas@;
    let mut metas = metas;
    manifest.rollup_segments.append(&mut metas);
    manifest.watermarks.hourly_rollup_ms = to_ms;
    assert(manifest.rollup_segments@ =~= before + added);
    assert(manifest::meta_views(before + added) =~= manifest::meta_views(before)
        + manifest::meta_views(added));
}

/// A segment has times in `[from, to)`.
pub open spec fn overlaps(m: MetaModel, from: int, to: int) -> bool {
    m.min_timestamp_ms < to && m.max_timestamp_ms >= from
}

/// The segments without a time in `[from, to)`, in their order.
pub open spec fn apart_from(metas: Seq<MetaModel>, from: int, to: int) -> Seq<MetaModel>
    decreases metas.len(),
{
    if metas.len() == 0 {
        Seq::empty()
    } else if overlaps(metas.last(), from, to) {
        apart_from(metas.drop_last(), from, to)
    } else {
        apart_from(metas.drop_last(), from, to).push(metas.last())
    }
}

/// The manifest without the rollup segments of `[from, to)`, and with the
/// watermark no later than the hour of `from`.
pub open spec fn rewound_manifest(m: ManifestModel, from: int, to: int) -> ManifestModel {
    let start = hours::start_of(from, HOUR_MS as int);
    ManifestModel {
        rollup_segments: apart_from(m.rollup_segments, from, to),
        watermark_ms: if m.watermark_ms < start {
            m.watermark_ms
        } else {
            start as i64
        },
        ..m
    }
}

/// The names of the segments with a time in `[from, to)`, in their order.
pub open spec fn overlapping_ids(metas: Seq<MetaModel>, from: int, to: int) -> Seq<Seq<char>>
    decreases metas.len(),
{
    if metas.len() == 0 {
        Seq::empty()
    } else if overlaps(metas.last(), from, to) {
        overlapping_ids(metas.drop_last(), from, to).push(metas.last().segment_id)
    } else {
        overlapping_ids(metas.drop_last(), from, to)
    }
}

/// The names of the raw segments that a pass over `[from_ms, to_ms)` has to read.
pub fn segments_in_range(metas: &Vec<SegmentMeta>, from_ms: i64, to_ms: i64) -> (r: Vec<String>)
    ensures
        text::text_views(r@) == overlapping_ids(
            manifest::meta_views(metas@),
            from_ms as int,
            to_ms as int,
        ),
{
    let ghost all = manifest::meta_views(metas@);
    let mut r: Vec<String> = Vec::new();
    assert(text::text_views(r@) =~= Seq::empty());
    for i in 0..metas.len()
        invariant
            all == manifest::meta_views(metas@),
            text::text_views(r@) == overlapping_ids(
                all.take(i as int),
                from_ms as int,
                to_ms as int,
            ),
    {
        assert(all.take(i + 1).drop_last() =~= all.take(i as int));
        assert(all.take(i + 1).last() == metas@[i as int]@);
        if metas[i].min_timestamp_ms < to_ms && metas[i].max_timestamp_ms >= from_ms {
            let id = metas[i].segment_id.clone();
            proof {
                text::lemma_texts_push(r@, id);
            }
            r.push(id);
        }
    }
    assert(all.take(all.len() as int) =~= all);
    r
}

/// Drops the rollup segments that overlap `[from_ms, to_ms)` and rewinds the
/// watermark, so that the next passes roll those hours up anew. Hands back the
/// names of the segments that were dropped.
pub fn rebuild_rollups(manifest: &mut Manifest, from_ms: i64, to_ms: i64) -> (dropped: Vec<String>)
    ensures
        final(manifest)@ == rewound_manifest(old(manifest)@, from_ms as int, to_ms as int),
        text::text_views(dropped@) == overlapping_ids(
            old(manifest)@.rollup_segments,
            from_ms as int,
            to_ms as int,
        ),
{
    let ghost all = manifest@.rollup_segments;
    let dropped = segments_in_range(&manifest.rollup_segments, from_ms, to_ms);
    let mut kept: Vec<SegmentMeta> = Vec::new();
    assert(manifest::meta_views(kept@) =~= Seq::empty());
    for i in 0..manifest.rollup_segments.len()
        invariant
            all == manifest::meta_views(manifest.rollup_segments@),
            manifest::meta_views(kept@) == apart_from(
                all.take(i as int),
                from_ms as int,
                to_ms as int,
            ),
    {
        let meta = &manifest.rollup_segments[i];
        assert(all.take(i + 1).drop_last() =~= all.take(i as int));
        assert(all.take(i + 1).last() == meta@);
        if !(meta.min_timestamp_ms < to_ms && meta.max_timestamp_ms >= from_ms) {
            let m = meta.clone();
            proof {
                manifest::lemma_metas_push(kept@, m);
            }
            kept.push(m);
        }
    }
    assert(all.take(all.len() as int) =~= all);
    manifest.rollup_segments = kept;
    let start: i64 = start_of_unit(from_ms, HOUR_MS);
    if manifest.watermarks.hourly_rollup_ms >= start {
        manifest.watermarks.hourly_rollup_ms = start;
    }
    dropped
}

} // verus!
