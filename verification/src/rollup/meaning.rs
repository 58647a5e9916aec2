//! What rollup rows, passes and rewinds do, in terms of the events and the hours.

use vstd::prelude::*;

use crate::model::dimensions;
use crate::model::event::EventModel;
use crate::model::ids;
use crate::query::reconcile;
use crate::rollup::builder;
use crate::rollup::hourly::RecordModel;
use crate::rollup::totals;
use crate::rollup::worker;
use crate::rollup::worker::{
    LiveState, RollupTickStats, RollupWorker, SourcedEvent, TickDecision, Window,
};
use crate::storage::manifest::{ManifestModel, MetaModel, SegmentKind};
use crate::text;

verus! {

// ---------------------------------------------------------------------------
// Rows
// ---------------------------------------------------------------------------

/// Two events belong to one rollup row exactly where they agree on the account, the
/// subscription, the product, the meter, the model, the source, the unit, the text of
/// their dimensions and the hour; the row says what they agree on. (The times are not
/// before the epoch.)
pub proof fn law_keys_of_rows(a: EventModel, b: EventModel)
    requires
        a.timestamp_ms >= 0,
        b.timestamp_ms >= 0,
    ensures
        builder::event_rollup_key(a) == builder::event_rollup_key(b) <==> {
            &&& a.account_id == b.account_id
            &&& a.subscription_id == b.subscription_id
            &&& a.product_id == b.product_id
            &&& a.meter_id == b.meter_id
            &&& a.model_id == b.model_id
            &&& a.source == b.source
            &&& a.unit == b.unit
            &&& dimensions::dimension_text(a.dimensions) == dimensions::dimension_text(b.dimensions)
            &&& a.timestamp_ms as int / 3_600_000 == b.timestamp_ms as int / 3_600_000
        },
        ({
            let key = builder::event_rollup_key(a);
            &&& key.account_id == a.account_id
            &&& key.subscription_id == a.subscription_id
            &&& key.product_id == a.product_id
            &&& key.meter_id == a.meter_id
            &&& key.model_id == a.model_id
            &&& key.source == a.source
            &&& key.unit == a.unit
            &&& key.dimensions_canonical == dimensions::dimension_text(a.dimensions)
            &&& key.hour_start_ms == a.timestamp_ms as int / 3_600_000 * 3_600_000
        }),
{
}

/// The events of a row.
pub open spec fn events_of_row(r: RecordModel, events: Seq<EventModel>) -> Seq<EventModel> {
    events.filter(|e: EventModel| builder::event_rollup_key(e) == r.key)
}

/// Every event has a row, and no two rows have one key. A row stands for the events of
/// its key, of which there are some: it gives the sum of their quantities, their
/// number, and their first and last time. (The quantities must fit: their sum without
/// signs is at most the greatest quantity.)
pub proof fn law_rows_of_events(events: Seq<EventModel>, i: int, k: int)
    requires
        reconcile::turnover(events) <= i128::MAX,
        events.len() <= u64::MAX,
    ensures
        0 <= k < events.len() ==> exists|j: int|
            0 <= j < builder::rollup_of(events).len() && (#[trigger] builder::rollup_of(
                events,
            )[j]).key == builder::event_rollup_key(events[k]),
        forall|j: int, l: int|
            0 <= j < l < builder::rollup_of(events).len() ==> (#[trigger] builder::rollup_of(
                events,
            )[j]).key != (#[trigger] builder::rollup_of(events)[l]).key,
        0 <= i < builder::rollup_of(events).len() ==> {
            let r = builder::rollup_of(events)[i];
            let own = events_of_row(r, events);
            &&& own.len() > 0
            &&& r.event_count == own.len()
            &&& r.quantity_sum == totals::event_total(own)
            &&& forall|x: int|
                0 <= x < own.len() ==> r.first_event_ms <= (#[trigger] own[x]).timestamp_ms
                    <= r.last_event_ms
            &&& exists|x: int|
                0 <= x < own.len() && (#[trigger] own[x]).timestamp_ms == r.first_event_ms
            &&& exists|x: int|
                0 <= x < own.len() && (#[trigger] own[x]).timestamp_ms == r.last_event_ms
        },
{
    broadcast use vstd::seq_lib::group_filter_ensures;

    builder::law_rollup_of_rolls_up(events);
    let rows = builder::rollup_of(events);
    if 0 <= k < events.len() {
        assert(builder::some_record_has(rows, builder::event_rollup_key(events[k])));
        let j = choose|j: int|
            0 <= j < rows.len() && (#[trigger] rows[j]).key == builder::event_rollup_key(events[k]);
        assert(rows[j].key == builder::event_rollup_key(events[k]));
    }
    if 0 <= i < rows.len() {
        let r = rows[i];
        let of_row = |e: EventModel| builder::event_rollup_key(e) == r.key;
        let own = events_of_row(r, events);
        lemma_row_sums(r, events);
        assert(builder::spans(r, events));
        assert forall|x: int| 0 <= x < own.len() implies r.first_event_ms <= (
        #[trigger] own[x]).timestamp_ms <= r.last_event_ms by {
            assert(of_row(own[x]));
            events.lemma_filter_contains_rev(of_row, own[x]);
            let y = choose|y: int| 0 <= y < events.len() && events[y] == own[x];
            assert(builder::event_rollup_key(events[y]) == r.key);
        }
        let f = choose|x: int|
            0 <= x < events.len() && builder::event_rollup_key(#[trigger] events[x]) == r.key
                && events[x].timestamp_ms == r.first_event_ms;
        assert(of_row(events[f]));
        assert(own.contains(events[f]));
        let x = choose|x: int| 0 <= x < own.len() && own[x] == events[f];
        assert(own[x].timestamp_ms == r.first_event_ms);
        let l = choose|x: int|
            0 <= x < events.len() && builder::event_rollup_key(#[trigger] events[x]) == r.key
                && events[x].timestamp_ms == r.last_event_ms;
        assert(of_row(events[l]));
        assert(own.contains(events[l]));
        let x = choose|x: int| 0 <= x < own.len() && own[x] == events[l];
        assert(own[x].timestamp_ms == r.last_event_ms);
    }
}

proof fn lemma_row_sums(r: RecordModel, events: Seq<EventModel>)
    requires
        reconcile::turnover(events) <= i128::MAX,
    ensures
        builder::key_quantity(events, r.key) == totals::event_total(events_of_row(r, events)),
        builder::key_count(events, r.key) == events_of_row(r, events).len(),
        events_of_row(r, events).len() <= events.len(),
        reconcile::magnitude(totals::event_total(events_of_row(r, events))) <= reconcile::turnover(
            events,
        ),
    decreases events.len(),
{
    reveal(Seq::filter);
    if events.len() > 0 {
        let init = events.drop_last();
        lemma_row_sums(r, init);
        let own = events_of_row(r, init);
        assert(own.push(events.last()).drop_last() =~= own);
    }
}

// ---------------------------------------------------------------------------
// Passes
// ---------------------------------------------------------------------------

/// The earliest time of segments is that of one of them, and no other's is earlier.
pub proof fn law_earliest_segment(metas: Seq<MetaModel>)
    ensures
        forall|i: int|
            0 <= i < metas.len() ==> worker::earliest_segment(metas) <= (
            #[trigger] metas[i]).min_timestamp_ms,
        metas.len() > 0 ==> exists|i: int|
            0 <= i < metas.len() && (#[trigger] metas[i]).min_timestamp_ms
                == worker::earliest_segment(metas),
    decreases metas.len(),
{
    if metas.len() > 0 {
        let init = metas.drop_last();
        law_earliest_segment(init);
        assert forall|i: int| 0 <= i < metas.len() implies worker::earliest_segment(metas) <= (
        #[trigger] metas[i]).min_timestamp_ms by {
            if i < init.len() {
                assert(metas[i] == init[i]);
            }
        }
        if metas.last().min_timestamp_ms <= worker::earliest_segment(init) || init.len() == 0 {
            assert(metas[metas.len() - 1].min_timestamp_ms == worker::earliest_segment(metas));
        } else {
            let i = choose|i: int|
                0 <= i < init.len() && (#[trigger] init[i]).min_timestamp_ms
                    == worker::earliest_segment(init);
            assert(metas[i] == init[i]);
        }
    }
}

/// The hour of a time, as a number of hours since the epoch.
pub open spec fn hour_number(ts: int) -> int {
    ts / 3_600_000
}

/// What a pass does. It drains the memtable exactly where its oldest event has waited
/// for longer than it may; else it waits where a sealed log file is not flushed yet;
/// else it rolls up the hours from the watermark, or from the hour of the earliest
/// segment where nothing was rolled up before, to the hour of the lag before now, or of
/// the earliest event in the memtable where that is before; and it does nothing where
/// there are no such hours. (The times are not before the epoch.)
pub proof fn law_what_a_pass_does(w: RollupWorker, now: int, m: ManifestModel, live: LiveState)
    requires
        0 <= now - w.safety_lag_ms <= i64::MAX,
        m.watermark_ms >= 0,
        forall|i: int|
            0 <= i < m.raw_segments.len() ==> (#[trigger] m.raw_segments[i]).min_timestamp_ms >= 0,
        live.min_event_timestamp_ms matches Some(t) ==> t >= 0,
    ensures
        ({
            let overdue = live.oldest_insert_at_ms matches Some(t) && now > t
                + w.memtable_max_age_ms;
            let unflushed = live.active_wal_id > m.last_sealed_wal_id + 1;
            let from = if m.watermark_ms == 0 && m.raw_segments.len() > 0 {
                hour_number(worker::earliest_segment(m.raw_segments)) * 3_600_000
            } else {
                m.watermark_ms as int
            };
            let settled = hour_number(now - w.safety_lag_ms) * 3_600_000;
            let to = match live.min_event_timestamp_ms {
                Some(t) if hour_number(t as int) * 3_600_000 < settled => hour_number(t as int)
                    * 3_600_000,
                _ => settled,
            };
            w.decision(now, m, live) == if overdue {
                TickDecision::ForceFlush
            } else if unflushed {
                TickDecision::InFlight
            } else if from < to {
                TickDecision::Roll { from_ms: from as i64, to_ms: to as i64 }
            } else {
                TickDecision::Idle { watermark_ms: from as i64 }
            }
        }),
{
    law_earliest_segment(m.raw_segments);
    if m.raw_segments.len() > 0 {
        let i = choose|i: int|
            0 <= i < m.raw_segments.len() && (#[trigger] m.raw_segments[i]).min_timestamp_ms
                == worker::earliest_segment(m.raw_segments);
        assert(worker::earliest_segment(m.raw_segments) >= 0);
    }
}

/// What a pass reports of itself.
pub proof fn law_what_a_pass_reports(d: TickDecision, watermark: i64, segments: usize, hours: usize)
    ensures
        worker::tick_stats(d, watermark, segments, hours) == match d {
            TickDecision::Roll { from_ms, to_ms } => RollupTickStats {
                segments_written: segments,
                watermark_ms: to_ms,
                hours_processed: hours,
                skipped_for_in_flight: false,
                forced_flush: false,
            },
            TickDecision::Idle { watermark_ms } => RollupTickStats {
                segments_written: 0,
                watermark_ms,
                hours_processed: 0,
                skipped_for_in_flight: false,
                forced_flush: false,
            },
            TickDecision::InFlight => RollupTickStats {
                segments_written: 0,
                watermark_ms: watermark,
                hours_processed: 0,
                skipped_for_in_flight: true,
                forced_flush: false,
            },
            TickDecision::ForceFlush => RollupTickStats {
                segments_written: 0,
                watermark_ms: watermark,
                hours_processed: 0,
                skipped_for_in_flight: false,
                forced_flush: true,
            },
        },
{
}

/// The events of a window are those of the bucket's accounts at its times, from its
/// start and before its end, in their order.
pub proof fn law_events_of_windows(w: Window, events: Seq<SourcedEvent>)
    ensures
        worker::window_events(w, events) == events.filter(
            |s: SourcedEvent|
                w.from_ms <= s.1.timestamp_ms && s.1.timestamp_ms < w.to_ms && ids::account_bucket(
                    s.1.account_id,
                    w.bucket_count,
                ) == w.bucket,
        ).map_values(|s: SourcedEvent| s.1),
    decreases events.len(),
{
    reveal(Seq::filter);
    let inside = |s: SourcedEvent|
        w.from_ms <= s.1.timestamp_ms && s.1.timestamp_ms < w.to_ms && ids::account_bucket(
            s.1.account_id,
            w.bucket_count,
        ) == w.bucket;
    let event_in = |s: SourcedEvent| s.1;
    if events.len() > 0 {
        let init = events.drop_last();
        law_events_of_windows(w, init);
        let some = init.filter(inside);
        assert(some.push(events.last()).map_values(event_in) =~= some.map_values(event_in).push(
            events.last().1,
        ));
    } else {
        assert(worker::window_events(w, events) =~= events.filter(inside).map_values(event_in));
    }
}

/// A range has one hour for each started hour.
pub proof fn law_number_of_hours(from: int, hours: int, rest: int)
    requires
        hours >= 0,
        0 < rest <= 3_600_000,
    ensures
        worker::hours_between(from, from + hours * 3_600_000 + rest) == hours + 1,
        worker::hours_between(from, from) == 0,
        worker::hours_between(from, from - rest) == 0,
{
}

/// A pass adds the rollup segments behind those that are there and sets the watermark;
/// it changes nothing else.
pub proof fn law_rolling_up(m: ManifestModel, metas: Seq<MetaModel>, to: i64)
    ensures
        ({
            let after = worker::rolled_manifest(m, metas, to);
            &&& after.rollup_segments == m.rollup_segments + metas
            &&& after.watermark_ms == to
            &&& after.raw_segments == m.raw_segments
            &&& after.compacted_replacements == m.compacted_replacements
            &&& after.closed_periods == m.closed_periods
            &&& after.last_sealed_wal_id == m.last_sealed_wal_id
            &&& after.current_generation == m.current_generation
            &&& after.bucket_count == m.bucket_count
            &&& after.db_version == m.db_version
        }),
{
}

/// A rewind takes away exactly the rollup segments that have a time from the first and
/// before the second, and sets the watermark back to the hour of the first where it
/// lies behind it; it changes nothing else. (The times are not before the epoch.)
pub proof fn law_rewinding(m: ManifestModel, from: int, to: int)
    requires
        0 <= from <= i64::MAX,
    ensures
        ({
            let after = worker::rewound_manifest(m, from, to);
            let start = from / 3_600_000 * 3_600_000;
            &&& after.rollup_segments == m.rollup_segments.filter(
                |s: MetaModel| !(s.min_timestamp_ms < to && from <= s.max_timestamp_ms),
            )
            &&& after.watermark_ms == if m.watermark_ms < start {
                m.watermark_ms as int
            } else {
                start
            }
            &&& after.raw_segments == m.raw_segments
            &&& after.compacted_replacements == m.compacted_replacements
            &&& after.closed_periods == m.closed_periods
            &&& after.last_sealed_wal_id == m.last_sealed_wal_id
            &&& after.current_generation == m.current_generation
            &&& after.bucket_count == m.bucket_count
            &&& after.db_version == m.db_version
        }),
{
    lemma_apart(m.rollup_segments, from, to);
}

proof fn lemma_apart(metas: Seq<MetaModel>, from: int, to: int)
    ensures
        worker::apart_from(metas, from, to) == metas.filter(
            |s: MetaModel| !(s.min_timestamp_ms < to && from <= s.max_timestamp_ms),
        ),
    decreases metas.len(),
{
    reveal(Seq::filter);
    let apart = |s: MetaModel| !(s.min_timestamp_ms < to && from <= s.max_timestamp_ms);
    if metas.len() > 0 {
        lemma_apart(metas.drop_last(), from, to);
    } else {
        assert(worker::apart_from(metas, from, to) =~= metas.filter(apart));
    }
}

/// The segments of a range are those that have a time from the first and before the
/// second, in their order.
pub proof fn law_segments_of_a_range(metas: Seq<MetaModel>, from: int, to: int)
    ensures
        worker::overlapping_ids(metas, from, to) == metas.filter(
            |s: MetaModel| s.min_timestamp_ms < to && from <= s.max_timestamp_ms,
        ).map_values(|s: MetaModel| s.segment_id),
    decreases metas.len(),
{
    reveal(Seq::filter);
    let reaches = |s: MetaModel| s.min_timestamp_ms < to && from <= s.max_timestamp_ms;
    let name = |s: MetaModel| s.segment_id;
    if metas.len() > 0 {
        let init = metas.drop_last();
        law_segments_of_a_range(init, from, to);
        let some = init.filter(reaches);
        assert(some.push(metas.last()).map_values(name) =~= some.map_values(name).push(
            metas.last().segment_id,
        ));
    } else {
        assert(worker::overlapping_ids(metas, from, to) =~= metas.filter(reaches).map_values(name));
    }
}

// ---------------------------------------------------------------------------
// Descriptions
// ---------------------------------------------------------------------------

/// The description of a rollup segment is what it was given, with the number of its
/// rows, the products, meters and models that occur in them and no others, the first
/// and the last of their accounts, and the sum of their quantities. (The quantities
/// must fit.)
pub proof fn law_descriptions_of_rollups(
    segment_id: Seq<char>,
    records: Seq<RecordModel>,
    bucket: u32,
    checksum: u64,
    min_ts: i64,
    max_ts: i64,
    inputs: Seq<Seq<char>>,
    name: Seq<char>,
)
    requires
        records.len() <= u64::MAX,
    ensures
        ({
            let meta = worker::rollup_meta(
                segment_id,
                records,
                bucket,
                checksum,
                min_ts,
                max_ts,
                inputs,
            );
            &&& meta.segment_id == segment_id
            &&& meta.kind == SegmentKind::Rollup
            &&& meta.min_timestamp_ms == min_ts
            &&& meta.max_timestamp_ms == max_ts
            &&& meta.bucket == bucket
            &&& meta.row_count == records.len()
            &&& meta.checksum == checksum
            &&& meta.input_segment_ids == inputs
            &&& meta.product_ids.contains(name) <==> exists|i: int|
                0 <= i < records.len() && (#[trigger] records[i]).key.product_id == name
            &&& meta.meter_ids.contains(name) <==> exists|i: int|
                0 <= i < records.len() && (#[trigger] records[i]).key.meter_id == name
            &&& meta.model_ids.contains(name) <==> exists|i: int|
                0 <= i < records.len() && (#[trigger] records[i]).key.model_id == Some(name)
            &&& forall|i: int|
                0 <= i < records.len() ==> {
                    &&& meta.min_account_id is Some
                    &&& meta.max_account_id is Some
                    &&& text::text_le(
                        meta.min_account_id->0,
                        (#[trigger] records[i]).key.account_id,
                    )
                    &&& text::text_le(records[i].key.account_id, meta.max_account_id->0)
                }
            &&& records.len() > 0 ==> exists|i: int|
                0 <= i < records.len() && meta.min_account_id == Some(
                    (#[trigger] records[i]).key.account_id,
                )
            &&& records.len() > 0 ==> exists|i: int|
                0 <= i < records.len() && meta.max_account_id == Some(
                    (#[trigger] records[i]).key.account_id,
                )
            &&& record_turnover(records) <= i128::MAX ==> meta.quantity_sum == Some(
                totals::quantity_total(records) as i128,
            )
        }),
{
    lemma_record_accounts(records);
    lemma_record_total(records);
}

/// The quantities of rows, added up without their signs.
pub open spec fn record_turnover(records: Seq<RecordModel>) -> int
    decreases records.len(),
{
    if records.len() == 0 {
        0
    } else {
        record_turnover(records.drop_last()) + reconcile::magnitude(
            records.last().quantity_sum as int,
        )
    }
}

proof fn lemma_record_total(records: Seq<RecordModel>)
    ensures
        reconcile::magnitude(totals::quantity_total(records)) <= record_turnover(records),
        record_turnover(records) <= i128::MAX ==> worker::record_total(records)
            == totals::quantity_total(records),
    decreases records.len(),
{
    if records.len() > 0 {
        lemma_record_total(records.drop_last());
    }
}

proof fn lemma_record_accounts(records: Seq<RecordModel>)
    ensures
        records.len() > 0 ==> worker::first_record_account(records) is Some
            && worker::last_record_account(records) is Some,
        forall|i: int|
            0 <= i < records.len() ==> text::text_le(
                worker::first_record_account(records)->0,
                (#[trigger] records[i]).key.account_id,
            ) && text::text_le(
                records[i].key.account_id,
                worker::last_record_account(records)->0,
            ),
        records.len() > 0 ==> exists|i: int|
            0 <= i < records.len() && worker::first_record_account(records) == Some(
                (#[trigger] records[i]).key.account_id,
            ),
        records.len() > 0 ==> exists|i: int|
            0 <= i < records.len() && worker::last_record_account(records) == Some(
                (#[trigger] records[i]).key.account_id,
            ),
    decreases records.len(),
{
    if records.len() > 0 {
        let init = records.drop_last();
        let last = records.last().key.account_id;
        lemma_record_accounts(init);
        assert(records[records.len() - 1].key.account_id == last);
        let lo = worker::first_record_account(records)->0;
        let hi = worker::last_record_account(records)->0;
        if init.len() > 0 {
            let a = worker::first_record_account(init)->0;
            let z = worker::last_record_account(init)->0;
            text::lemma_text_lt_total(a, last);
            text::lemma_text_lt_total(z, last);
            let x = choose|x: int|
                0 <= x < init.len() && worker::first_record_account(init) == Some(
                    (#[trigger] init[x]).key.account_id,
                );
            assert(records[x] == init[x]);
            let y = choose|y: int|
                0 <= y < init.len() && worker::last_record_account(init) == Some(
                    (#[trigger] init[y]).key.account_id,
                );
            assert(records[y] == init[y]);
            assert forall|i: int| 0 <= i < records.len() implies text::text_le(
                lo,
                (#[trigger] records[i]).key.account_id,
            ) && text::text_le(records[i].key.account_id, hi) by {
                if i < init.len() {
                    assert(records[i] == init[i]);
                    let v = init[i].key.account_id;
                    if lo != a && a != v {
                        text::lemma_text_lt_transitive(lo, a, v);
                    }
                    if hi != z && z != v {
                        text::lemma_text_lt_transitive(v, z, hi);
                    }
                }
            }
        }
    }
}

/// One more event makes its segment a source of the window exactly where it is of the
/// bucket's accounts and at the window's times; every other source stays what it is.
pub proof fn law_sources_of_windows(w: Window, events: Seq<SourcedEvent>, s: SourcedEvent)
    ensures
        worker::window_sources(w, Seq::empty()) == Set::<Seq<char>>::empty(),
        ({
            let inside = w.from_ms <= s.1.timestamp_ms && s.1.timestamp_ms < w.to_ms
                && ids::account_bucket(s.1.account_id, w.bucket_count) == w.bucket;
            let before = worker::window_sources(w, events);
            worker::window_sources(w, events.push(s)) == if inside {
                before.insert(s.0)
            } else {
                before
            }
        }),
{
    let before = worker::window_sources(w, events);
    let all = events.push(s);
    let after = worker::window_sources(w, all);
    let inside = worker::in_window(w, s.1);
    assert(worker::window_sources(w, Seq::empty()) =~= Set::<Seq<char>>::empty());
    assert(all[events.len() as int] == s);
    assert forall|id: Seq<char>| #[trigger]
        after.contains(id) <==> before.contains(id) || (inside && id == s.0) by {
        if before.contains(id) {
            let i = choose|i: int|
                0 <= i < events.len() && worker::in_window(w, (#[trigger] events[i]).1)
                    && events[i].0 == id;
            assert(all[i] == events[i]);
        }
        if after.contains(id) {
            let i = choose|i: int|
                0 <= i < all.len() && worker::in_window(w, (#[trigger] all[i]).1) && all[i].0
                    == id;
            if i < events.len() {
                assert(events[i] == all[i]);
            }
        }
    }
    if inside {
        assert(after =~= before.insert(s.0));
    } else {
        assert(after =~= before);
    }
}

/// The events of loaded segments are theirs, one segment after the other, each with the
/// name of its segment.
pub proof fn law_events_of_loaded_segments(
    segments: Seq<worker::LoadedSegment>,
    s: worker::LoadedSegment,
    i: int,
)
    ensures
        worker::all_sourced(segments.push(s)) == worker::all_sourced(segments) + worker::sourced(s),
        worker::sourced(s).len() == s.events@.len(),
        0 <= i < s.events@.len() ==> worker::sourced(s)[i] == (s.segment_id@, s.events@[i]@),
{
    assert(segments.push(s).drop_last() =~= segments);
}

} // verus!
