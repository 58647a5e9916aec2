//! What the rollup worker keeps true from pass to pass.

use vstd::prelude::*;

use crate::bytes;
use crate::hours;
use crate::hours::HOUR_MS;
use crate::model::event::EventModel;
use crate::model::ids;
use crate::rollup::builder;
use crate::rollup::hourly;
use crate::rollup::hourly::{KeyModel, RecordModel};
use crate::rollup::worker;
use crate::rollup::worker::{
    HourRollup, LiveState, RollupWorker, SourcedEvent, TickDecision, Window,
};
use crate::storage::manifest::{ManifestModel, MetaModel};

verus! {

// ---------------------------------------------------------------------------
// The watermark
// ---------------------------------------------------------------------------

/// A pass never moves the watermark past an event that is still in the memtable.
pub proof fn law_watermark_waits_for_the_memtable(
    worker: RollupWorker,
    now: int,
    m: ManifestModel,
    live: LiveState,
)
    requires
        live.min_event_timestamp_ms matches Some(t) && t >= 0,
        worker.decision(now, m, live) is Roll,
    ensures
        worker.decision(now, m, live)->Roll_to_ms <= live.min_event_timestamp_ms->0,
{
    let t = live.min_event_timestamp_ms->0;
    hours::lemma_start_of(t as int, HOUR_MS as int);
    hours::lemma_start_of(
        worker::clamped64(now - worker.safety_lag_ms),
        HOUR_MS as int,
    );
}

/// A pass that rolls up moves the watermark forward, to the start of an hour
/// that lies the safety lag or more before now.
pub proof fn law_watermark_moves_forward(
    worker: RollupWorker,
    now: int,
    m: ManifestModel,
    live: LiveState,
    metas: Seq<MetaModel>,
)
    requires
        m.watermark_ms >= 0,
        forall|i: int|
            0 <= i < m.raw_segments.len() ==> (#[trigger] m.raw_segments[i]).min_timestamp_ms >= 0,
        worker.decision(now, m, live) is Roll,
    ensures
        ({
            let to = worker.decision(now, m, live)->Roll_to_ms;
            let after = worker::rolled_manifest(m, metas, to);
            &&& after.watermark_ms > m.watermark_ms
            &&& after.watermark_ms as int % (HOUR_MS as int) == 0
            &&& after.watermark_ms <= worker::clamped64(now - worker.safety_lag_ms)
        }),
{
    let due = worker::clamped64(now - worker.safety_lag_ms);
    hours::lemma_start_of(due, HOUR_MS as int);
    lemma_first_hour(m);
    if let Some(t) = live.min_event_timestamp_ms {
        hours::lemma_start_of(t as int, HOUR_MS as int);
    }
}

proof fn lemma_earliest(metas: Seq<MetaModel>)
    requires
        forall|i: int|
            0 <= i < metas.len() ==> (#[trigger] metas[i]).min_timestamp_ms >= 0,
    ensures
        0 <= worker::earliest_segment(metas) <= i64::MAX,
    decreases metas.len(),
{
    if metas.len() > 0 {
        let init = metas.drop_last();
        assert forall|i: int| 0 <= i < init.len() implies (
        #[trigger] init[i]).min_timestamp_ms >= 0 by {
            assert(init[i] == metas[i]);
        }
        lemma_earliest(init);
        assert(metas[metas.len() - 1].min_timestamp_ms >= 0);
    }
}

proof fn lemma_first_hour(m: ManifestModel)
    requires
        m.watermark_ms >= 0,
        forall|i: int|
            0 <= i < m.raw_segments.len() ==> (#[trigger] m.raw_segments[i]).min_timestamp_ms >= 0,
    ensures
        m.watermark_ms <= worker::first_hour(m.watermark_ms as int, m.raw_segments) <= i64::MAX,
{
    lemma_earliest(m.raw_segments);
    hours::lemma_start_of(worker::earliest_segment(m.raw_segments), HOUR_MS as int);
}

/// The manifest and what is live once a pass has done what was decided. `metas`
/// are the rollup segments that it has written.
pub open spec fn after_pass(
    d: TickDecision,
    m: ManifestModel,
    live: LiveState,
    metas: Seq<MetaModel>,
) -> (ManifestModel, LiveState) {
    match d {
        TickDecision::Roll { from_ms: _, to_ms } => (
            worker::rolled_manifest(m, metas, to_ms),
            live,
        ),
        TickDecision::ForceFlush => (
            m,
            LiveState {
                active_wal_id: (live.active_wal_id + 1) as u64,
                oldest_insert_at_ms: None,
                min_event_timestamp_ms: None,
            },
        ),
        _ => (m, live),
    }
}

proof fn lemma_earliest_fits(metas: Seq<MetaModel>)
    ensures
        i64::MIN <= worker::earliest_segment(metas) <= i64::MAX,
    decreases metas.len(),
{
    if metas.len() > 0 {
        lemma_earliest_fits(metas.drop_last());
    }
}

/// A pass leaves nothing to do: whatever it was, another one at the same time,
/// with nothing in between, writes no rollup and changes nothing. After one that
/// drained the memtable it waits for the flush. (A watermark at the epoch counts
/// as none: a pass that has moved it just there does not count where segments lie
/// before it.)
pub proof fn law_second_pass_is_idle(
    worker: RollupWorker,
    now: int,
    m: ManifestModel,
    live: LiveState,
    metas: Seq<MetaModel>,
    more: Seq<MetaModel>,
    segments: usize,
    hours: usize,
)
    requires
        worker.decision(now, m, live) is ForceFlush ==> m.last_sealed_wal_id < live.active_wal_id
            < u64::MAX,
        worker.decision(now, m, live) matches TickDecision::Roll { from_ms, to_ms } && to_ms == 0
            ==> worker::first_hour(0, m.raw_segments) >= 0,
    ensures
        ({
            let first = worker.decision(now, m, live);
            let (m2, live2) = after_pass(first, m, live, metas);
            let second = worker.decision(now, m2, live2);
            let stats = worker::tick_stats(second, m2.watermark_ms, segments, hours);
            &&& after_pass(second, m2, live2, more) == (m2, live2)
            &&& stats.segments_written == 0
            &&& stats.hours_processed == 0
            &&& !stats.forced_flush
            &&& match first {
                TickDecision::InFlight => second == first,
                TickDecision::Idle { watermark_ms } => second == first,
                TickDecision::ForceFlush => second is InFlight,
                TickDecision::Roll { from_ms, to_ms } => second is Idle && (to_ms != 0 ==> second
                    == (TickDecision::Idle { watermark_ms: to_ms })),
            }
        }),
{
    let due = worker::clamped64(now - worker.safety_lag_ms);
    hours::lemma_start_of(due, HOUR_MS as int);
    if let Some(t) = live.min_event_timestamp_ms {
        hours::lemma_start_of(t as int, HOUR_MS as int);
    }
    lemma_earliest_fits(m.raw_segments);
    hours::lemma_start_of(worker::earliest_segment(m.raw_segments), HOUR_MS as int);
}

// ---------------------------------------------------------------------------
// Rollups hold every hour below the watermark
// ---------------------------------------------------------------------------

/// The events that `p` picks, in their order.
pub open spec fn kept(events: Seq<SourcedEvent>, p: spec_fn(EventModel) -> bool) -> Seq<EventModel>
    decreases events.len(),
{
    if events.len() == 0 {
        Seq::empty()
    } else if p(events.last().1) {
        kept(events.drop_last(), p).push(events.last().1)
    } else {
        kept(events.drop_last(), p)
    }
}

/// The events before the time `t`.
pub open spec fn below(events: Seq<SourcedEvent>, t: int) -> Seq<EventModel> {
    kept(events, |e: EventModel| e.timestamp_ms < t)
}

/// The rows of rollups, one rollup after the other.
pub open spec fn rolled_records(out: Seq<HourRollup>) -> Seq<RecordModel>
    decreases out.len(),
{
    if out.len() == 0 {
        Seq::empty()
    } else {
        rolled_records(out.drop_last()) + hourly::record_views(out.last().records@)
    }
}

spec fn among(events: Seq<SourcedEvent>, e: EventModel) -> bool {
    exists|i: int| 0 <= i < events.len() && (#[trigger] events[i]).1 == e
}

proof fn lemma_among_last(events: Seq<SourcedEvent>, e: EventModel)
    requires
        events.len() > 0,
    ensures
        among(events, e) <==> among(events.drop_last(), e) || events.last().1 == e,
{
    let init = events.drop_last();
    if among(events, e) {
        let i = choose|i: int| 0 <= i < events.len() && (#[trigger] events[i]).1 == e;
        if i < init.len() {
            assert(init[i].1 == e);
        }
    }
    if among(init, e) {
        let i = choose|i: int| 0 <= i < init.len() && (#[trigger] init[i]).1 == e;
        assert(events[i].1 == e);
    }
    assert(events[events.len() - 1] == events.last());
}

proof fn lemma_kept_member(events: Seq<SourcedEvent>, p: spec_fn(EventModel) -> bool, e: EventModel)
    ensures
        kept(events, p).contains(e) <==> p(e) && among(events, e),
    decreases events.len(),
{
    if events.len() > 0 {
        let init = kept(events.drop_last(), p);
        lemma_kept_member(events.drop_last(), p, e);
        lemma_among_last(events, e);
        let last = events.last().1;
        if p(last) {
            let all = init.push(last);
            if all.contains(e) {
                let i = choose|i: int| 0 <= i < all.len() && all[i] == e;
                if i < init.len() {
                    assert(init[i] == e);
                }
            }
            if init.contains(e) {
                let i = choose|i: int| 0 <= i < init.len() && init[i] == e;
                assert(all[i] == e);
            }
            assert(all[all.len() - 1] == last);
        }
    }
}

proof fn lemma_window_is_kept(w: Window, events: Seq<SourcedEvent>)
    ensures
        worker::window_events(w, events) == kept(events, |e: EventModel| worker::in_window(w, e)),
    decreases events.len(),
{
    if events.len() > 0 {
        lemma_window_is_kept(w, events.drop_last());
    }
}

/// Two choices that agree on the events of a key give them the same row.
proof fn lemma_kept_key(
    events: Seq<SourcedEvent>,
    p: spec_fn(EventModel) -> bool,
    q: spec_fn(EventModel) -> bool,
    key: KeyModel,
)
    requires
        forall|i: int|
            0 <= i < events.len() && builder::event_rollup_key((#[trigger] events[i]).1) == key
                ==> p(events[i].1) == q(events[i].1),
    ensures
        builder::key_quantity(kept(events, p), key) == builder::key_quantity(
            kept(events, q),
            key,
        ),
        builder::key_count(kept(events, p), key) == builder::key_count(kept(events, q), key),
    decreases events.len(),
{
    if events.len() > 0 {
        let init = events.drop_last();
        let e = events.last().1;
        assert forall|i: int|
            0 <= i < init.len() && builder::event_rollup_key((#[trigger] init[i]).1)
                == key implies p(init[i].1) == q(init[i].1) by {
            assert(init[i] == events[i]);
        }
        assert(events[events.len() - 1].1 == e);
        lemma_kept_key(init, p, q, key);
        assert(kept(init, p).push(e).drop_last() =~= kept(init, p));
        assert(kept(init, q).push(e).drop_last() =~= kept(init, q));
    }
}

proof fn lemma_kept_spans(
    events: Seq<SourcedEvent>,
    p: spec_fn(EventModel) -> bool,
    q: spec_fn(EventModel) -> bool,
    r: RecordModel,
)
    requires
        forall|i: int|
            0 <= i < events.len() && builder::event_rollup_key((#[trigger] events[i]).1) == r.key
                ==> p(events[i].1) == q(events[i].1),
        builder::spans(r, kept(events, p)),
    ensures
        builder::spans(r, kept(events, q)),
{
    let a = kept(events, p);
    let b = kept(events, q);
    assert forall|e: EventModel| builder::event_rollup_key(e) == r.key implies (
    #[trigger] a.contains(e) <==> b.contains(e)) by {
        lemma_kept_member(events, p, e);
        lemma_kept_member(events, q, e);
        if among(events, e) {
            let i = choose|i: int| 0 <= i < events.len() && (#[trigger] events[i]).1 == e;
            assert(p(events[i].1) == q(events[i].1));
        }
    }
    assert forall|i: int|
        0 <= i < b.len() && builder::event_rollup_key(#[trigger] b[i])
            == r.key implies r.first_event_ms <= b[i].timestamp_ms <= r.last_event_ms by {
        assert(b.contains(b[i]));
        assert(a.contains(b[i]));
        let j = choose|j: int| 0 <= j < a.len() && a[j] == b[i];
        assert(builder::event_rollup_key(a[j]) == r.key);
    }
    let f = choose|i: int|
        0 <= i < a.len() && builder::event_rollup_key(#[trigger] a[i]) == r.key
            && a[i].timestamp_ms == r.first_event_ms;
    assert(a.contains(a[f]));
    assert(b.contains(a[f]));
    let g = choose|j: int| 0 <= j < b.len() && b[j] == a[f];
    assert(builder::event_rollup_key(b[g]) == r.key);
    let l = choose|i: int|
        0 <= i < a.len() && builder::event_rollup_key(#[trigger] a[i]) == r.key
            && a[i].timestamp_ms == r.last_event_ms;
    assert(a.contains(a[l]));
    assert(b.contains(a[l]));
    let h = choose|j: int| 0 <= j < b.len() && b[j] == a[l];
    assert(builder::event_rollup_key(b[h]) == r.key);
}

/// The row `r` holds the events of its key among `events`.
spec fn holds_key(r: RecordModel, events: Seq<EventModel>) -> bool {
    &&& r.quantity_sum == builder::key_quantity(events, r.key)
    &&& r.event_count == if builder::key_count(events, r.key) > u64::MAX {
        u64::MAX as int
    } else {
        builder::key_count(events, r.key) as int
    }
    &&& builder::spans(r, events)
}

proof fn lemma_holds_key(
    events: Seq<SourcedEvent>,
    p: spec_fn(EventModel) -> bool,
    q: spec_fn(EventModel) -> bool,
    r: RecordModel,
)
    requires
        forall|i: int|
            0 <= i < events.len() && builder::event_rollup_key((#[trigger] events[i]).1) == r.key
                ==> p(events[i].1) == q(events[i].1),
        holds_key(r, kept(events, p)),
    ensures
        holds_key(r, kept(events, q)),
{
    lemma_kept_key(events, p, q, r.key);
    lemma_kept_spans(events, p, q, r);
}

/// What one rollup of the pass adds.
proof fn lemma_hour_rollup(
    h: HourRollup,
    events: Seq<SourcedEvent>,
    bucket_count: int,
    to: int,
    r: RecordModel,
)
    requires
        bucket_count > 0,
        0 <= h.hour_start_ms,
        h.hour_start_ms as int % (HOUR_MS as int) == 0,
        h.hour_end_ms == h.hour_start_ms + HOUR_MS,
        h.hour_end_ms <= to,
        forall|i: int| 0 <= i < events.len() ==> (#[trigger] events[i]).1.timestamp_ms >= 0,
        h.covers(bucket_count, events),
        hourly::record_views(h.records@).contains(r),
    ensures
        holds_key(r, below(events, to)),
        r.key.hour_start_ms == h.hour_start_ms,
        ids::account_bucket(r.key.account_id, bucket_count) == h.bucket,
{
    let w = h.window(bucket_count);
    let inside = worker::window_events(w, events);
    let p = |e: EventModel| worker::in_window(w, e);
    let q = |e: EventModel| e.timestamp_ms < to;
    lemma_window_is_kept(w, events);
    builder::law_rollup_of_rolls_up(inside);
    let rows = hourly::record_views(h.records@);
    let j = choose|j: int| 0 <= j < rows.len() && rows[j] == r;
    assert(builder::spans(rows[j], inside));
    assert(holds_key(r, inside));
    let f = choose|i: int|
        0 <= i < inside.len() && builder::event_rollup_key(#[trigger] inside[i]) == r.key
            && inside[i].timestamp_ms == r.first_event_ms;
    assert(inside.contains(inside[f]));
    lemma_kept_member(events, p, inside[f]);
    lemma_hour_of(inside[f].timestamp_ms as int, h.hour_start_ms as int);
    assert forall|i: int|
        0 <= i < events.len() && builder::event_rollup_key((#[trigger] events[i]).1)
            == r.key implies p(events[i].1) == q(events[i].1) by {
        let e = events[i].1;
        hours::lemma_start_of(e.timestamp_ms as int, HOUR_MS as int);
        assert(hours::start_of(e.timestamp_ms as int, HOUR_MS as int) == h.hour_start_ms);
    }
    lemma_holds_key(events, p, q, r);
}

/// A time of an hour has that hour's start.
proof fn lemma_hour_of(ts: int, hour: int)
    requires
        hour >= 0,
        hour % (HOUR_MS as int) == 0,
        hour <= ts < hour + HOUR_MS,
    ensures
        hours::start_of(ts, HOUR_MS as int) == hour,
{
    assert(ts % 3_600_000 == ts - hour);
}

/// Every row of the rollups comes from one of them.
proof fn lemma_rolled_from(out: Seq<HourRollup>, r: RecordModel) -> (k: int)
    requires
        rolled_records(out).contains(r),
    ensures
        0 <= k < out.len(),
        hourly::record_views(out[k].records@).contains(r),
    decreases out.len(),
{
    let init = rolled_records(out.drop_last());
    let last = hourly::record_views(out.last().records@);
    let i = choose|i: int| 0 <= i < (init + last).len() && (init + last)[i] == r;
    if i < init.len() {
        assert(init[i] == r);
        lemma_rolled_from(out.drop_last(), r)
    } else {
        assert(last[i - init.len()] == r);
        out.len() - 1
    }
}

proof fn lemma_rolled_has(out: Seq<HourRollup>, k: int, key: KeyModel)
    requires
        0 <= k < out.len(),
        builder::some_record_has(hourly::record_views(out[k].records@), key),
    ensures
        builder::some_record_has(rolled_records(out), key),
    decreases out.len(),
{
    let init = rolled_records(out.drop_last());
    let last = hourly::record_views(out.last().records@);
    if k < out.len() - 1 {
        lemma_rolled_has(out.drop_last(), k, key);
        let i = choose|i: int| 0 <= i < init.len() && (#[trigger] init[i]).key == key;
        assert((init + last)[i].key == key);
    } else {
        let i = choose|i: int| 0 <= i < last.len() && (#[trigger] last[i]).key == key;
        assert((init + last)[init.len() + i].key == key);
    }
}

/// The rollups of a pass are of hours from `from` on, and well placed.
spec fn well_placed(out: Seq<HourRollup>, from: int, to: int, bucket_count: int) -> bool {
    &&& forall|i: int|
        0 <= i < out.len() ==> from <= (#[trigger] out[i]).hour_start_ms && out[i].hour_start_ms
            as int % (HOUR_MS as int) == 0 && out[i].hour_end_ms == out[i].hour_start_ms + HOUR_MS
            && out[i].hour_end_ms <= to
    &&& forall|i: int, j: int|
        0 <= i < j < out.len() ==> (#[trigger] out[i]).hour_start_ms != (
        #[trigger] out[j]).hour_start_ms || out[i].bucket != out[j].bucket
}

proof fn lemma_rolled_distinct(
    out: Seq<HourRollup>,
    events: Seq<SourcedEvent>,
    from: int,
    to: int,
    bucket_count: int,
)
    requires
        bucket_count > 0,
        from >= 0,
        well_placed(out, from, to, bucket_count),
        forall|i: int| 0 <= i < events.len() ==> (#[trigger] events[i]).1.timestamp_ms >= 0,
        forall|i: int| 0 <= i < out.len() ==> (#[trigger] out[i]).covers(bucket_count, events),
    ensures
        builder::keys_distinct(rolled_records(out)),
    decreases out.len(),
{
    if out.len() > 0 {
        let before = out.drop_last();
        let h = out.last();
        let init = rolled_records(before);
        let last = hourly::record_views(h.records@);
        let all = init + last;
        assert forall|i: int| 0 <= i < before.len() implies (#[trigger] before[i]).covers(
            bucket_count,
            events,
        ) by {
            assert(before[i] == out[i]);
        }
        assert(well_placed(before, from, to, bucket_count)) by {
            assert forall|i: int| 0 <= i < before.len() implies from <= (
            #[trigger] before[i]).hour_start_ms && before[i].hour_start_ms as int % (HOUR_MS as int)
                == 0 && before[i].hour_end_ms == before[i].hour_start_ms + HOUR_MS
                && before[i].hour_end_ms <= to by {
                assert(before[i] == out[i]);
            }
            assert forall|i: int, j: int| 0 <= i < j < before.len() implies (
            #[trigger] before[i]).hour_start_ms != (#[trigger] before[j]).hour_start_ms
                || before[i].bucket != before[j].bucket by {
                assert(before[i] == out[i] && before[j] == out[j]);
            }
        }
        lemma_rolled_distinct(before, events, from, to, bucket_count);
        assert(out[out.len() - 1] == h);
        let inside = worker::window_events(h.window(bucket_count), events);
        builder::law_rollup_of_rolls_up(inside);
        assert forall|i: int, j: int| 0 <= i < j < all.len() implies (#[trigger] all[i]).key != (
        #[trigger] all[j]).key by {
            if j < init.len() {
                assert(init[i].key != init[j].key);
            } else if i >= init.len() {
                assert(last[i - init.len()].key != last[j - init.len()].key);
            } else {
                assert(init.contains(all[i])) by {
                    assert(init[i] == all[i]);
                }
                let k = lemma_rolled_from(before, all[i]);
                assert(before[k] == out[k]);
                assert(last.contains(all[j])) by {
                    assert(last[j - init.len()] == all[j]);
                }
                lemma_hour_rollup(out[k], events, bucket_count, to, all[i]);
                lemma_hour_rollup(h, events, bucket_count, to, all[j]);
                assert(out[k].hour_start_ms != out[out.len() - 1].hour_start_ms || out[k].bucket
                    != out[out.len() - 1].bucket);
            }
        }
    }
}

/// Every hour below the watermark is in the rollups: where the rows so far roll
/// up the events below `from`, and a pass rolls up the hours of `[from, to)`, of
/// which none was rolled up before, the rows with those of the pass roll up the
/// events below `to`.
#[verifier::rlimit(40)]
#[verifier::spinoff_prover]
pub proof fn law_pass_keeps_rollups_complete(
    records: Seq<RecordModel>,
    out: Seq<HourRollup>,
    from: int,
    to: int,
    bucket_count: u32,
    rolled: Seq<MetaModel>,
    events: Seq<SourcedEvent>,
)
    requires
        bucket_count > 0,
        0 <= from <= to <= i64::MAX,
        from % (HOUR_MS as int) == 0,
        to % (HOUR_MS as int) == 0,
        forall|i: int| 0 <= i < events.len() ==> (#[trigger] events[i]).1.timestamp_ms >= 0,
        forall|i: int|
            0 <= i < rolled.len() ==> (#[trigger] rolled[i]).min_timestamp_ms < from,
        worker::hours_done(out, from, to, bucket_count as int, rolled, events),
        builder::rolls_up(records, below(events, from)),
    ensures
        builder::rolls_up(records + rolled_records(out), below(events, to)),
{
    let bc = bucket_count as int;
    let fresh = rolled_records(out);
    let all = records + fresh;
    let old_events = below(events, from);
    let new_events = below(events, to);
    let p = |e: EventModel| e.timestamp_ms < from;
    let q = |e: EventModel| e.timestamp_ms < to;
    assert(well_placed(out, from, to, bc)) by {
        assert forall|i: int| 0 <= i < out.len() implies from <= (#[trigger] out[i]).hour_start_ms
            && out[i].hour_start_ms as int % (HOUR_MS as int) == 0 && out[i].hour_end_ms
            == out[i].hour_start_ms + HOUR_MS && out[i].hour_end_ms <= to by {
            let h = out[i].hour_start_ms as int;
            assert(worker::hour_in(h, from, to));
            assert((h - from) % 3_600_000 == 0 && from % 3_600_000 == 0 && to % 3_600_000 == 0);
        }
    }
    lemma_rolled_distinct(out, events, from, to, bc);
    assert forall|i: int| 0 <= i < records.len() implies (#[trigger] records[i]).key.hour_start_ms
        < from && holds_key(records[i], new_events) by {
        let r = records[i];
        assert(builder::spans(r, old_events));
        let f = choose|j: int|
            0 <= j < old_events.len() && builder::event_rollup_key(#[trigger] old_events[j])
                == r.key && old_events[j].timestamp_ms == r.first_event_ms;
        assert(old_events.contains(old_events[f]));
        lemma_kept_member(events, p, old_events[f]);
        hours::lemma_start_of(old_events[f].timestamp_ms as int, HOUR_MS as int);
        assert forall|j: int|
            0 <= j < events.len() && builder::event_rollup_key((#[trigger] events[j]).1)
                == r.key implies p(events[j].1) == q(events[j].1) by {
            let ts = events[j].1.timestamp_ms as int;
            hours::lemma_start_of(ts, HOUR_MS as int);
            let h = hours::start_of(ts, HOUR_MS as int);
            assert(h == r.key.hour_start_ms);
            assert(h % 3_600_000 == 0 && from % 3_600_000 == 0 && h < from);
        }
        assert(holds_key(r, old_events));
        lemma_holds_key(events, p, q, r);
    }
    assert forall|i: int| 0 <= i < fresh.len() implies (#[trigger] fresh[i]).key.hour_start_ms
        >= from && holds_key(fresh[i], new_events) by {
        assert(fresh.contains(fresh[i]));
        let k = lemma_rolled_from(out, fresh[i]);
        lemma_hour_rollup(out[k], events, bc, to, fresh[i]);
    }
    assert forall|i: int, j: int| 0 <= i < j < all.len() implies (#[trigger] all[i]).key != (
    #[trigger] all[j]).key by {
        if j < records.len() {
            assert(records[i].key != records[j].key);
        } else if i >= records.len() {
            assert(fresh[i - records.len()].key != fresh[j - records.len()].key);
        } else {
            assert(all[i] == records[i]);
            assert(all[j] == fresh[j - records.len()]);
        }
    }
    assert forall|i: int| 0 <= i < new_events.len() implies builder::some_record_has(
        all,
        builder::event_rollup_key(#[trigger] new_events[i]),
    ) by {
        let e = new_events[i];
        assert(new_events.contains(e));
        lemma_kept_member(events, q, e);
        lemma_kept_member(events, p, e);
        let key = builder::event_rollup_key(e);
        if e.timestamp_ms < from {
            assert(old_events.contains(e));
            let j = choose|j: int| 0 <= j < old_events.len() && old_events[j] == e;
            assert(builder::some_record_has(
                records,
                builder::event_rollup_key(old_events[j]),
            ));
            let r = choose|r: int| 0 <= r < records.len() && (#[trigger] records[r]).key == key;
            assert(all[r].key == key);
        } else {
            lemma_found_in_pass(out, from, to, bucket_count, rolled, events, e);
            let r = choose|r: int| 0 <= r < fresh.len() && (#[trigger] fresh[r]).key == key;
            assert(all[records.len() + r].key == key);
        }
    }
    assert forall|i: int| 0 <= i < all.len() implies {
        &&& (#[trigger] all[i]).quantity_sum == builder::key_quantity(new_events, all[i].key)
        &&& all[i].event_count == if builder::key_count(new_events, all[i].key) > u64::MAX {
            u64::MAX as int
        } else {
            builder::key_count(new_events, all[i].key) as int
        }
        &&& builder::spans(all[i], new_events)
    } by {
        if i < records.len() {
            assert(all[i] == records[i]);
        } else {
            assert(all[i] == fresh[i - records.len()]);
        }
        assert(holds_key(all[i], new_events));
    }
}

proof fn lemma_found_in_pass(
    out: Seq<HourRollup>,
    from: int,
    to: int,
    bucket_count: u32,
    rolled: Seq<MetaModel>,
    events: Seq<SourcedEvent>,
    e: EventModel,
)
    requires
        bucket_count > 0,
        0 <= from <= to <= i64::MAX,
        from % (HOUR_MS as int) == 0,
        to % (HOUR_MS as int) == 0,
        forall|i: int|
            0 <= i < rolled.len() ==> (#[trigger] rolled[i]).min_timestamp_ms < from,
        worker::hours_done(out, from, to, bucket_count as int, rolled, events),
        among(events, e),
        from <= e.timestamp_ms < to,
    ensures
        builder::some_record_has(rolled_records(out), builder::event_rollup_key(e)),
{
    let bc = bucket_count as int;
    let hour = hours::start_of(e.timestamp_ms as int, HOUR_MS as int);
    hours::lemma_start_of(e.timestamp_ms as int, HOUR_MS as int);
    let bucket = ids::account_bucket(e.account_id, bc);
    assert(0 <= bucket < bc) by {
        let v = bytes::le_value(
            bytes::blake3_digest(vstd::utf8::encode_utf8(e.account_id)).subrange(0, 4),
        ) as int;
        assert(bucket == v % bc);
        vstd::arithmetic::div_mod::lemma_mod_bound(v, bc);
    }
    let b = bucket as u32;
    assert(hour % 3_600_000 == 0 && from % 3_600_000 == 0 && to % 3_600_000 == 0);
    assert(worker::hour_in(hour, from, to));
    assert(worker::end_of(hour) == hour + HOUR_MS);
    assert(!worker::is_rolled(rolled, hour, b as int));
    let w = worker::hour_window(hour, worker::end_of(hour), bc, b);
    lemma_window_is_kept(w, events);
    lemma_kept_member(events, |e: EventModel| worker::in_window(w, e), e);
    let inside = worker::window_events(w, events);
    assert(inside.contains(e));
    let j = choose|j: int| 0 <= j < inside.len() && inside[j] == e;
    assert(worker::some_rollup(out, hour, b));
    let k = choose|k: int|
        0 <= k < out.len() && (#[trigger] out[k]).hour_start_ms == hour && out[k].bucket == b;
    assert(out[k].window(bc) == w);
    builder::law_rollup_of_rolls_up(inside);
    assert(builder::some_record_has(
        builder::rollup_of(inside),
        builder::event_rollup_key(inside[j]),
    ));
    lemma_rolled_has(out, k, builder::event_rollup_key(e));
}

} // verus!
