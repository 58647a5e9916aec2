//! Parting drained events by the buckets of their accounts, each part becoming a
//! segment, and committing the segments.

use vstd::prelude::*;

use crate::ingest::flusher;
use crate::ingest::flusher::sort_events_canonical;
use crate::model::event;
use crate::model::event::{EventModel, UsageEvent};
use crate::model::ids;
use crate::model::ids::bucket_for_account;
use crate::storage::manifest;
use crate::storage::manifest::{Manifest, ManifestModel, MetaModel, SegmentMeta};

verus! {

/// The events of one bucket, for one segment.
#[derive(Debug)]
pub struct FlushPart {
    pub bucket: u32,
    pub events: Vec<UsageEvent>,
}

/// The events of one bucket.
#[verifier::ext_equal]
pub struct PartModel {
    pub bucket: int,
    pub events: Seq<EventModel>,
}

impl View for FlushPart {
    type V = PartModel;

    open spec fn view(&self) -> PartModel {
        PartModel { bucket: self.bucket as int, events: event::event_views(self.events@) }
    }
}

pub open spec fn part_views(parts: Seq<FlushPart>) -> Seq<PartModel> {
    parts.map_values(|p: FlushPart| p@)
}

/// The place of a bucket among the parts, or their number where it has none.
pub open spec fn part_place(parts: Seq<PartModel>, bucket: int) -> int
    decreases parts.len(),
{
    if parts.len() == 0 || parts[0].bucket == bucket {
        0
    } else {
        1 + part_place(parts.drop_first(), bucket)
    }
}

pub proof fn lemma_part_place(parts: Seq<PartModel>, bucket: int)
    ensures
        0 <= part_place(parts, bucket) <= parts.len(),
        part_place(parts, bucket) < parts.len() ==> parts[part_place(parts, bucket)].bucket
            == bucket,
        forall|i: int|
            0 <= i < part_place(parts, bucket) ==> (#[trigger] parts[i]).bucket != bucket,
    decreases parts.len(),
{
    if parts.len() > 0 && parts[0].bucket != bucket {
        let rest = parts.drop_first();
        lemma_part_place(rest, bucket);
        assert forall|i: int| 0 <= i < part_place(parts, bucket) implies (
        #[trigger] parts[i]).bucket != bucket by {
            if i > 0 {
                assert(rest[i - 1] == parts[i]);
            }
        }
    }
}

/// The parts with one more event.
pub open spec fn with_placed(parts: Seq<PartModel>, bucket: int, e: EventModel) -> Seq<PartModel> {
    let p = part_place(parts, bucket);
    if p < parts.len() {
        parts.update(p, PartModel { bucket, events: parts[p].events.push(e) })
    } else {
        parts.push(PartModel { bucket, events: seq![e] })
    }
}

/// Events by the buckets of their accounts, in the order in which the buckets
/// come up.
pub open spec fn partitioned(events: Seq<EventModel>, bucket_count: int) -> Seq<PartModel>
    decreases events.len(),
{
    if events.len() == 0 {
        Seq::empty()
    } else {
        with_placed(
            partitioned(events.drop_last(), bucket_count),
            ids::account_bucket(events.last().account_id, bucket_count),
            events.last(),
        )
    }
}

/// The events of a bucket, in their order.
pub open spec fn in_bucket(events: Seq<EventModel>, bucket_count: int, bucket: int) -> Seq<
    EventModel,
>
    decreases events.len(),
{
    if events.len() == 0 {
        Seq::empty()
    } else if ids::account_bucket(events.last().account_id, bucket_count) == bucket {
        in_bucket(events.drop_last(), bucket_count, bucket).push(events.last())
    } else {
        in_bucket(events.drop_last(), bucket_count, bucket)
    }
}

/// Parts events by the buckets of their accounts.
pub fn partition_by_bucket(events: Vec<UsageEvent>, bucket_count: u32) -> (r: Vec<FlushPart>)
    ensures
        part_views(r@) == partitioned(event::event_views(events@), bucket_count as int),
{
    let ghost given = events@;
    let ghost all = event::event_views(events@);
    let mut parts: Vec<FlushPart> = Vec::new();
    assert(part_views(parts@) =~= Seq::empty());
    for e in it: events.into_iter()
        invariant
            it.seq() == given,
            all == event::event_views(given),
            part_views(parts@) == partitioned(all.take(it.index() as int), bucket_count as int),
    {
        let ghost i = it.index() as int;
        let ghost before = part_views(parts@);
        assert(e == given[i]);
        assert(all.take(i + 1).drop_last() =~= all.take(i));
        assert(all.take(i + 1).last() == e@);
        let bucket: u32 = bucket_for_account(&e.account_id, bucket_count);
        let n: usize = parts.len();
        let mut p: usize = 0;
        assert(before.skip(0) =~= before);
        while p < n && parts[p].bucket != bucket
            invariant
                n == parts@.len(),
                p <= n,
                before == part_views(parts@),
                part_place(before, bucket as int) == p + part_place(
                    before.skip(p as int),
                    bucket as int,
                ),
            decreases n - p,
        {
            assert(before.skip(p as int)[0] == parts@[p as int]@);
            assert(before.skip(p as int).drop_first() =~= before.skip(p + 1));
            p = p + 1;
        }
        if p < n {
            assert(before.skip(p as int)[0] == parts@[p as int]@);
            let ghost was = parts@;
            let ghost held = parts@[p as int].events@;
            proof {
                event::lemma_views_push(held, e);
            }
            let part = &mut parts[p];
            part.events.push(e);
            proof {
                assert(part_views(parts@) =~= with_placed(before, bucket as int, e@));
            }
        } else {
            let mut held: Vec<UsageEvent> = Vec::new();
            proof {
                event::lemma_views_push(held@, e);
                assert(event::event_views(held@) =~= Seq::empty());
            }
            held.push(e);
            let part = FlushPart { bucket, events: held };
            let ghost was = parts@;
            parts.push(part);
            proof {
                assert(event::event_views(held@) =~= seq![e@]);
                assert(part_views(parts@) =~= part_views(was).push(part@));
            }
        }
    }
    assert(all.take(all.len() as int) =~= all);
    parts
}

/// Every event is in the part of its bucket, and nowhere else: each part has the
/// events of its bucket in their order, no two parts share a bucket, and each
/// event's bucket has a part.
pub proof fn law_partition_is_complete(events: Seq<EventModel>, bucket_count: int)
    ensures
        ({
            let parts = partitioned(events, bucket_count);
            &&& forall|i: int|
                0 <= i < parts.len() ==> (#[trigger] parts[i]).events == in_bucket(
                    events,
                    bucket_count,
                    parts[i].bucket,
                ) && parts[i].events.len() > 0
            &&& forall|i: int, j: int|
                0 <= i < j < parts.len() ==> (#[trigger] parts[i]).bucket != (
                #[trigger] parts[j]).bucket
            &&& forall|bucket: int|
                in_bucket(events, bucket_count, bucket).len() > 0 <==> #[trigger] part_place(
                    parts,
                    bucket,
                ) < parts.len()
        }),
    decreases events.len(),
{
    let parts = partitioned(events, bucket_count);
    if events.len() > 0 {
        let rest = events.drop_last();
        let e = events.last();
        let b = ids::account_bucket(e.account_id, bucket_count);
        let before = partitioned(rest, bucket_count);
        law_partition_is_complete(rest, bucket_count);
        lemma_part_place(before, b);
        let p = part_place(before, b);
        assert forall|i: int| 0 <= i < parts.len() implies (#[trigger] parts[i]).events
            == in_bucket(events, bucket_count, parts[i].bucket) && parts[i].events.len() > 0 by {
            if i == p {
                if p < before.len() {
                    assert(before[p].events == in_bucket(rest, bucket_count, b));
                } else {
                    assert(part_place(before, b) == before.len());
                    assert(in_bucket(rest, bucket_count, b) =~= Seq::empty());
                }
                assert(parts[i].events =~= in_bucket(rest, bucket_count, b).push(e));
            } else {
                assert(parts[i] == before[i]);
                if before[i].bucket == b {
                    if p < before.len() {
                        assert(before[i].bucket != before[p].bucket);
                    }
                }
            }
        }
        assert forall|i: int, j: int| 0 <= i < j < parts.len() implies (
        #[trigger] parts[i]).bucket != (#[trigger] parts[j]).bucket by {
            if i < before.len() && j < before.len() {
                assert(before[i].bucket != before[j].bucket);
            }
        }
        assert forall|bucket: int|
            in_bucket(events, bucket_count, bucket).len() > 0 <==> #[trigger] part_place(
                parts,
                bucket,
            ) < parts.len() by {
            lemma_part_place(parts, bucket);
            lemma_part_place(before, bucket);
            let q = part_place(parts, bucket);
            let q0 = part_place(before, bucket);
            assert(in_bucket(rest, bucket_count, bucket).len() > 0 <==> q0 < before.len());
            if q < parts.len() {
                if q < before.len() {
                    assert(parts[q].bucket == before[q].bucket);
                }
            }
            if q0 < before.len() {
                assert(parts[q0].bucket == bucket);
                assert(q <= q0);
            }
            if bucket == b {
                assert(parts[p].bucket == b);
                assert(q <= p);
            }
        }
    }
}

// ---------------------------------------------------------------------------
// Committing
// ---------------------------------------------------------------------------

/// `parts` are the parts of `events`, each in the order of a segment's rows.
pub open spec fn are_flush_parts(
    parts: Seq<PartModel>,
    events: Seq<EventModel>,
    bucket_count: int,
) -> bool {
    let wanted = partitioned(events, bucket_count);
    &&& parts.len() == wanted.len()
    &&& forall|i: int|
        0 <= i < parts.len() ==> (#[trigger] parts[i]).bucket == wanted[i].bucket
            && flusher::is_canonical_sort(wanted[i].events, parts[i].events)
            && parts[i].events.to_multiset() == wanted[i].events.to_multiset()
}

/// The segments that drained events are to be written to: one for each bucket that
/// they touch, with its rows in their order. Without events there are none.
pub fn flush_parts(events: Vec<UsageEvent>, bucket_count: u32) -> (r: Vec<FlushPart>)
    ensures
        are_flush_parts(part_views(r@), event::event_views(events@), bucket_count as int),
{
    let ghost all = event::event_views(events@);
    let parts = partition_by_bucket(events, bucket_count);
    let ghost given = parts@;
    let ghost wanted = partitioned(all, bucket_count as int);
    let mut out: Vec<FlushPart> = Vec::new();
    for part in it: parts.into_iter()
        invariant
            it.seq() == given,
            wanted == part_views(given),
            out@.len() == it.index(),
            forall|i: int|
                0 <= i < out@.len() ==> (#[trigger] part_views(out@)[i]).bucket == wanted[i].bucket
                    && flusher::is_canonical_sort(wanted[i].events, part_views(out@)[i].events)
                    && part_views(out@)[i].events.to_multiset() == wanted[i].events.to_multiset(),
    {
        assert(part == given[it.index() as int]);
        assert(wanted[it.index() as int] == part@);
        let bucket: u32 = part.bucket;
        let mut rows = part.events;
        sort_events_canonical(&mut rows);
        let ghost before = out@;
        let sorted = FlushPart { bucket, events: rows };
        out.push(sorted);
        assert(part_views(out@) =~= part_views(before).push(sorted@));
    }
    out
}

/// A manifest after a flush: with the segments that were written, and with the
/// log sealed up to `sealed`.
pub open spec fn flushed_manifest(m: ManifestModel, metas: Seq<MetaModel>, sealed: u64) -> ManifestModel {
    ManifestModel {
        raw_segments: m.raw_segments + metas,
        last_sealed_wal_id: if sealed > m.last_sealed_wal_id {
            sealed
        } else {
            m.last_sealed_wal_id
        },
        ..m
    }
}

/// Commits the segments of a flush.
pub fn commit_flush(manifest: &mut Manifest, metas: Vec<SegmentMeta>, sealed_wal_id: u64)
    ensures
        final(manifest)@ == flushed_manifest(
            old(manifest)@,
            manifest::meta_views(metas@),
            sealed_wal_id,
        ),
{
    let ghost before = manifest@;
    let ghost old_metas = manifest.raw_segments@;
    let ghost added = metas@;
    let mut more = metas;
    manifest.raw_segments.append(&mut more);
    if sealed_wal_id > manifest.last_sealed_wal_id {
        manifest.last_sealed_wal_id = sealed_wal_id;
    }
    proof {
        assert(manifest::meta_views(manifest.raw_segments@) =~= manifest::meta_views(old_metas)
            + manifest::meta_views(added));
        assert(manifest@ =~= flushed_manifest(before, manifest::meta_views(added), sealed_wal_id));
    }
}

/// The events of a bucket are those whose accounts fall into it, in their order.
pub proof fn law_events_of_buckets(events: Seq<EventModel>, bucket_count: int, bucket: int)
    ensures
        in_bucket(events, bucket_count, bucket) == events.filter(
            |e: EventModel| ids::account_bucket(e.account_id, bucket_count) == bucket,
        ),
    decreases events.len(),
{
    reveal(Seq::filter);
    let of_bucket = |e: EventModel| ids::account_bucket(e.account_id, bucket_count) == bucket;
    if events.len() > 0 {
        law_events_of_buckets(events.drop_last(), bucket_count, bucket);
    } else {
        assert(in_bucket(events, bucket_count, bucket) =~= events.filter(of_bucket));
    }
}

/// A flush adds its segments behind those that are there and seals the log up to its
/// file, unless more was sealed before; it changes nothing else.
pub proof fn law_flushing(m: ManifestModel, metas: Seq<MetaModel>, sealed: u64)
    ensures
        ({
            let after = flushed_manifest(m, metas, sealed);
            &&& after.raw_segments == m.raw_segments + metas
            &&& after.last_sealed_wal_id >= sealed
            &&& after.last_sealed_wal_id >= m.last_sealed_wal_id
            &&& after.last_sealed_wal_id == sealed || after.last_sealed_wal_id
                == m.last_sealed_wal_id
            &&& after.rollup_segments == m.rollup_segments
            &&& after.compacted_replacements == m.compacted_replacements
            &&& after.closed_periods == m.closed_periods
            &&& after.watermark_ms == m.watermark_ms
            &&& after.current_generation == m.current_generation
            &&& after.bucket_count == m.bucket_count
            &&& after.db_version == m.db_version
        }),
{
}

} // verus!
