//! Merging segments, and letting the merged ones go.

use vstd::prelude::*;

use crate::compact::planner;
use crate::ingest::flusher;
use crate::ingest::flusher::sort_events_canonical;
use crate::model::event;
use crate::model::event::{EventModel, UsageEvent};
use crate::query::executor;
use crate::query::order;
use crate::query::plan::PlanModel;
use crate::query::reconcile;
use crate::storage::manifest;
use crate::storage::manifest::{
    Manifest, ManifestModel, MetaModel, ReplacementModel, ReplacementRecord, SegmentMeta,
};
use crate::text;
use crate::text::contains_text;
use crate::textset::TextSet;

verus! {

/// What a pass has done.
#[derive(Debug, Clone, Copy, PartialEq, Eq, Structural)]
pub struct CompactionTickStats {
    pub compactions_committed: usize,
    pub replacements_finalized: usize,
}

/// The worker's settings.
#[derive(Debug, Clone, Copy, PartialEq, Eq, Structural)]
pub struct CompactionWorker {
    pub max_small_segments: usize,
    /// How long merged segments stay for queries that began before.
    pub grace_ms: i64,
}

// ---------------------------------------------------------------------------
// Merging
// ---------------------------------------------------------------------------

pub open spec fn has_id(events: Seq<EventModel>, id: Seq<char>) -> bool {
    exists|i: int| 0 <= i < events.len() && (#[trigger] events[i]).event_id == id
}

/// Events without those whose id came before.
pub open spec fn without_repeats(events: Seq<EventModel>) -> Seq<EventModel>
    decreases events.len(),
{
    if events.len() == 0 {
        Seq::empty()
    } else {
        let before = without_repeats(events.drop_last());
        if has_id(before, events.last().event_id) {
            before
        } else {
            before.push(events.last())
        }
    }
}

/// `merged` are the events of a merged segment: each id once, with the event that
/// came first, in the order of a segment's rows.
pub open spec fn is_merge(events: Seq<EventModel>, merged: Seq<EventModel>) -> bool {
    flusher::is_canonical_sort(without_repeats(events), merged) && merged.to_multiset()
        == without_repeats(events).to_multiset()
}

/// Merges the events of segments, one segment's behind the other's.
pub fn merge_events(events: Vec<UsageEvent>) -> (r: Vec<UsageEvent>)
    ensures
        is_merge(event::event_views(events@), event::event_views(r@)),
{
    let ghost given = events@;
    let ghost all = event::event_views(events@);
    let mut out: Vec<UsageEvent> = Vec::new();
    let mut seen = TextSet::new();
    assert(event::event_views(out@) =~= Seq::empty());
    for e in it: events.into_iter()
        invariant
            it.seq() == given,
            all == event::event_views(given),
            event::event_views(out@) == without_repeats(all.take(it.index() as int)),
            forall|id: Seq<char>| #[trigger]
                seen@.contains(id) <==> has_id(event::event_views(out@), id),
    {
        let ghost i = it.index() as int;
        let ghost before = event::event_views(out@);
        let ghost was = seen@;
        assert(e == given[i]);
        proof {
            assert(all.take(i + 1).drop_last() =~= all.take(i));
            assert(all.take(i + 1).last() == e@);
        }
        if !seen.contains(e.event_id.0.as_str()) {
            seen.insert(e.event_id.0.clone());
            proof {
                event::lemma_views_push(out@, e);
                lemma_one_more_id(before, e@);
            }
            out.push(e);
        }
    }
    assert(all.take(all.len() as int) =~= all);
    sort_events_canonical(&mut out);
    out
}

proof fn lemma_one_more_id(events: Seq<EventModel>, e: EventModel)
    ensures
        forall|id: Seq<char>| #[trigger]
            has_id(events.push(e), id) <==> has_id(events, id) || id == e.event_id,
{
    let after = events.push(e);
    assert forall|id: Seq<char>| #[trigger] has_id(after, id) <==> has_id(events, id) || id
        == e.event_id by {
        if has_id(events, id) {
            let i = choose|i: int| 0 <= i < events.len() && (#[trigger] events[i]).event_id == id;
            assert(after[i].event_id == id);
        }
        if id == e.event_id {
            assert(after[events.len() as int].event_id == id);
        }
        if has_id(after, id) {
            let i = choose|i: int| 0 <= i < after.len() && (#[trigger] after[i]).event_id == id;
            if i < events.len() {
                assert(events[i].event_id == id);
            }
        }
    }
}

pub open spec fn ids_distinct(events: Seq<EventModel>) -> bool {
    forall|i: int, j: int|
        0 <= i < j < events.len() ==> (#[trigger] events[i]).event_id != (
        #[trigger] events[j]).event_id
}

/// No id is lost, and none is there twice; where none was there twice before,
/// nothing is lost at all.
pub proof fn law_merging_keeps_every_id(events: Seq<EventModel>)
    ensures
        forall|id: Seq<char>| #[trigger]
            has_id(without_repeats(events), id) <==> has_id(events, id),
        ids_distinct(without_repeats(events)),
        ids_distinct(events) ==> without_repeats(events) == events,
    decreases events.len(),
{
    let kept = without_repeats(events);
    if events.len() > 0 {
        let rest = events.drop_last();
        let e = events.last();
        let before = without_repeats(rest);
        law_merging_keeps_every_id(rest);
        lemma_one_more_id(rest, e);
        lemma_one_more_id(before, e);
        assert(events =~= rest.push(e));
        assert forall|i: int, j: int| 0 <= i < j < kept.len() implies (
        #[trigger] kept[i]).event_id != (#[trigger] kept[j]).event_id by {
            assert(kept[i] == before[i]);
            if j < before.len() {
                assert(kept[j] == before[j]);
            } else {
                assert(kept[j] == e);
            }
        }
        if ids_distinct(events) {
            assert(ids_distinct(rest)) by {
                assert forall|i: int, j: int| 0 <= i < j < rest.len() implies (
                #[trigger] rest[i]).event_id != (#[trigger] rest[j]).event_id by {
                    assert(events[i] == rest[i] && events[j] == rest[j]);
                }
            }
            assert(!has_id(rest, e.event_id)) by {
                if has_id(rest, e.event_id) {
                    let i = choose|i: int|
                        0 <= i < rest.len() && (#[trigger] rest[i]).event_id == e.event_id;
                    assert(events[i] == rest[i]);
                    assert(events[events.len() - 1] == e);
                }
            }
        }
    } else {
        assert(kept =~= events);
    }
}

/// A query that adds up gets the same before and after segments are merged, where
/// no id was there twice. (The quantities must fit: their sum without signs is at
/// most the greatest quantity.)
pub proof fn law_merging_changes_no_total(
    p: PlanModel,
    events: Seq<EventModel>,
    merged: Seq<EventModel>,
    others: Seq<EventModel>,
)
    requires
        is_merge(events, merged),
        ids_distinct(events),
        !executor::wants_events(p),
        reconcile::turnover(events + others) <= i128::MAX,
        events.len() + others.len() <= u64::MAX,
    ensures
        executor::answer(p, Seq::empty(), events + others) == executor::answer(
            p,
            Seq::empty(),
            merged + others,
        ),
{
    law_merging_keeps_every_id(events);
    vstd::seq_lib::lemma_multiset_commutative(events, others);
    vstd::seq_lib::lemma_multiset_commutative(merged, others);
    order::law_order_does_not_matter(p, events + others, merged + others);
}

// ---------------------------------------------------------------------------
// Committing
// ---------------------------------------------------------------------------

/// The segments other than those named, in their order.
pub open spec fn not_named(metas: Seq<MetaModel>, ids: Seq<Seq<char>>) -> Seq<MetaModel>
    decreases metas.len(),
{
    if metas.len() == 0 {
        Seq::empty()
    } else if ids.contains(metas.last().segment_id) {
        not_named(metas.drop_last(), ids)
    } else {
        not_named(metas.drop_last(), ids).push(metas.last())
    }
}

/// A manifest in which a merged segment has taken the place of others.
pub open spec fn compacted_manifest(
    m: ManifestModel,
    old_ids: Seq<Seq<char>>,
    merged: MetaModel,
    now: i64,
) -> ManifestModel {
    ManifestModel {
        raw_segments: not_named(m.raw_segments, old_ids).push(merged),
        compacted_replacements: m.compacted_replacements.push(
            ReplacementModel {
                old_segments: old_ids,
                new_segments: seq![merged.segment_id],
                committed_at_ms: now,
            },
        ),
        ..m
    }
}

/// Whether merged segments have stayed for long enough.
pub open spec fn is_due(r: ReplacementModel, now: int, grace: int) -> bool {
    now - r.committed_at_ms > grace
}

/// The segments that can go, in their order.
pub open spec fn due_ids(records: Seq<ReplacementModel>, now: int, grace: int) -> Seq<Seq<char>>
    decreases records.len(),
{
    if records.len() == 0 {
        Seq::empty()
    } else if is_due(records.last(), now, grace) {
        due_ids(records.drop_last(), now, grace) + records.last().old_segments
    } else {
        due_ids(records.drop_last(), now, grace)
    }
}

/// The replacements whose segments stay, in their order.
pub open spec fn not_due(records: Seq<ReplacementModel>, now: int, grace: int) -> Seq<
    ReplacementModel,
>
    decreases records.len(),
{
    if records.len() == 0 {
        Seq::empty()
    } else if is_due(records.last(), now, grace) {
        not_due(records.drop_last(), now, grace)
    } else {
        not_due(records.drop_last(), now, grace).push(records.last())
    }
}

impl CompactionWorker {
    pub fn new(max_small_segments: usize, grace_ms: i64) -> (r: Self)
        ensures
            r.max_small_segments == max_small_segments,
            r.grace_ms == grace_ms,
    {
        CompactionWorker { max_small_segments, grace_ms }
    }

    /// What is recorded of segments that were merged into one.
    pub fn run_compaction(
        &self,
        input_segment_ids: Vec<String>,
        output_segment_id: String,
        now_ms: i64,
    ) -> (r: ReplacementRecord)
        ensures
            r@ == (ReplacementModel {
                old_segments: text::text_views(input_segment_ids@),
                new_segments: seq![output_segment_id@],
                committed_at_ms: now_ms,
            }),
    {
        let mut new_segments: Vec<String> = Vec::new();
        proof {
            text::lemma_texts_push(new_segments@, output_segment_id);
            assert(text::text_views(new_segments@) =~= Seq::empty());
        }
        new_segments.push(output_segment_id);
        assert(text::text_views(new_segments@) =~= seq![output_segment_id@]);
        ReplacementRecord { old_segments: input_segment_ids, new_segments, committed_at_ms: now_ms }
    }

    /// Puts a merged segment in the place of the segments `old_ids`.
    pub fn commit_compaction(
        &self,
        manifest: &mut Manifest,
        old_ids: Vec<String>,
        merged: SegmentMeta,
        now_ms: i64,
    )
        ensures
            final(manifest)@ == compacted_manifest(
                old(manifest)@,
                text::text_views(old_ids@),
                merged@,
                now_ms,
            ),
    {
        let ghost before = manifest@;
        let ghost all = before.raw_segments;
        let ghost ids = text::text_views(old_ids@);
        let mut kept: Vec<SegmentMeta> = Vec::new();
        assert(manifest::meta_views(kept@) =~= Seq::empty());
        for i in 0..manifest.raw_segments.len()
            invariant
                manifest@ == before,
                all == manifest::meta_views(manifest.raw_segments@),
                ids == text::text_views(old_ids@),
                manifest::meta_views(kept@) == not_named(all.take(i as int), ids),
        {
            let m = &manifest.raw_segments[i];
            assert(all.take(i + 1).drop_last() =~= all.take(i as int));
            assert(all.take(i + 1).last() == m@);
            if !contains_text(&old_ids, m.segment_id.as_str()) {
                let copy = m.clone();
                proof {
                    manifest::lemma_metas_push(kept@, copy);
                }
                kept.push(copy);
            }
        }
        assert(all.take(all.len() as int) =~= all);
        proof {
            manifest::lemma_metas_push(kept@, merged);
        }
        let output_id = merged.segment_id.clone();
        kept.push(merged);
        let record = self.run_compaction(old_ids, output_id, now_ms);
        let ghost was = manifest.compacted_replacements@;
        manifest.raw_segments = kept;
        manifest.compacted_replacements.push(record);
        proof {
            assert(manifest::replacement_views(manifest.compacted_replacements@)
                =~= manifest::replacement_views(was).push(record@));
            assert(manifest@ =~= compacted_manifest(before, ids, merged@, now_ms));
        }
    }

    /// The segments whose files can go at the time `now_ms`.
    pub fn due_segments(&self, manifest: &Manifest, now_ms: i64) -> (r: Vec<String>)
        ensures
            text::text_views(r@) == due_ids(
                manifest@.compacted_replacements,
                now_ms as int,
                self.grace_ms as int,
            ),
    {
        let ghost all = manifest@.compacted_replacements;
        let now: i128 = now_ms as i128;
        let grace: i128 = self.grace_ms as i128;
        let mut out: Vec<String> = Vec::new();
        assert(text::text_views(out@) =~= Seq::empty());
        for i in 0..manifest.compacted_replacements.len()
            invariant
                all == manifest::replacement_views(manifest.compacted_replacements@),
                now == now_ms,
                grace == self.grace_ms,
                text::text_views(out@) == due_ids(
                    all.take(i as int),
                    now_ms as int,
                    self.grace_ms as int,
                ),
        {
            let r = &manifest.compacted_replacements[i];
            assert(all.take(i + 1).drop_last() =~= all.take(i as int));
            assert(all.take(i + 1).last() == r@);
            if now - r.committed_at_ms as i128 > grace {
                let mut more = text::clone_texts(&r.old_segments);
                let ghost was = out@;
                let ghost added = more@;
                out.append(&mut more);
                assert(text::text_views(out@) =~= text::text_views(was) + text::text_views(added));
            }
        }
        assert(all.take(all.len() as int) =~= all);
        out
    }

    /// Forgets the replacements whose segments' files have gone at the time
    /// `now_ms`, and says how many they were.
    pub fn finalize_replacements(&self, manifest: &mut Manifest, now_ms: i64) -> (finalized: usize)
        ensures
            final(manifest)@ == (ManifestModel {
                compacted_replacements: not_due(
                    old(manifest)@.compacted_replacements,
                    now_ms as int,
                    self.grace_ms as int,
                ),
                ..old(manifest)@
            }),
            finalized == old(manifest)@.compacted_replacements.len()
                - final(manifest)@.compacted_replacements.len(),
    {
        let ghost before = manifest@;
        let ghost all = before.compacted_replacements;
        let now: i128 = now_ms as i128;
        let grace: i128 = self.grace_ms as i128;
        let mut kept: Vec<ReplacementRecord> = Vec::new();
        let mut finalized: usize = 0;
        assert(manifest::replacement_views(kept@) =~= Seq::empty());
        for i in 0..manifest.compacted_replacements.len()
            invariant
                manifest@ == before,
                all == manifest::replacement_views(manifest.compacted_replacements@),
                now == now_ms,
                grace == self.grace_ms,
                finalized == i - kept@.len(),
                manifest::replacement_views(kept@) == not_due(
                    all.take(i as int),
                    now_ms as int,
                    self.grace_ms as int,
                ),
        {
            let r = &manifest.compacted_replacements[i];
            assert(all.take(i + 1).drop_last() =~= all.take(i as int));
            assert(all.take(i + 1).last() == r@);
            if now - r.committed_at_ms as i128 > grace {
                finalized = finalized + 1;
            } else {
                let ghost was = kept@;
                let copy = r.clone();
                kept.push(copy);
                assert(manifest::replacement_views(kept@) =~= manifest::replacement_views(was).push(
                    r@,
                ));
            }
        }
        assert(all.take(all.len() as int) =~= all);
        manifest.compacted_replacements = kept;
        assert(manifest@ =~= (ManifestModel {
            compacted_replacements: not_due(all, now_ms as int, self.grace_ms as int),
            ..before
        }));
        finalized
    }
}

// ---------------------------------------------------------------------------
// Laws
// ---------------------------------------------------------------------------

pub open spec fn names_distinct(metas: Seq<MetaModel>) -> bool {
    forall|i: int, j: int|
        0 <= i < j < metas.len() ==> (#[trigger] metas[i]).segment_id != (
        #[trigger] metas[j]).segment_id
}

pub proof fn lemma_bucket_ids(metas: Seq<MetaModel>, bucket: u32, id: Seq<char>)
    ensures
        planner::bucket_ids(metas, bucket).contains(id) <==> exists|i: int|
            0 <= i < metas.len() && (#[trigger] metas[i]).segment_id == id && metas[i].bucket
                == bucket,
    decreases metas.len(),
{
    if metas.len() > 0 {
        let rest = metas.drop_last();
        lemma_bucket_ids(rest, bucket, id);
        let before = planner::bucket_ids(rest, bucket);
        let all = planner::bucket_ids(metas, bucket);
        if all.contains(id) {
            let k = choose|k: int| 0 <= k < all.len() && all[k] == id;
            if k < before.len() {
                assert(before[k] == id);
                let i = choose|i: int|
                    0 <= i < rest.len() && (#[trigger] rest[i]).segment_id == id && rest[i].bucket
                        == bucket;
                assert(metas[i].segment_id == id);
            } else {
                assert(metas[metas.len() - 1].segment_id == id);
            }
        }
        if exists|i: int|
            0 <= i < metas.len() && (#[trigger] metas[i]).segment_id == id && metas[i].bucket
                == bucket {
            let i = choose|i: int|
                0 <= i < metas.len() && (#[trigger] metas[i]).segment_id == id && metas[i].bucket
                    == bucket;
            if i < rest.len() {
                assert(rest[i].segment_id == id);
                assert(before.contains(id));
                let k = choose|k: int| 0 <= k < before.len() && before[k] == id;
                assert(all[k] == id);
            } else {
                assert(all[all.len() - 1] == id);
            }
        }
    }
}

/// Where the segments of a bucket go, those of other buckets stay as they are.
proof fn lemma_others_stay(
    metas: Seq<MetaModel>,
    part: Seq<MetaModel>,
    bucket: u32,
    other: u32,
)
    requires
        names_distinct(metas),
        part.is_prefix_of(metas),
    ensures
        planner::bucket_ids(
            not_named(part, planner::bucket_ids(metas, bucket)),
            other,
        ) == if other == bucket {
            Seq::<Seq<char>>::empty()
        } else {
            planner::bucket_ids(part, other)
        },
    decreases part.len(),
{
    let ids = planner::bucket_ids(metas, bucket);
    if part.len() > 0 {
        let rest = part.drop_last();
        let m = part.last();
        assert(rest.is_prefix_of(metas));
        lemma_others_stay(metas, rest, bucket, other);
        lemma_bucket_ids(metas, bucket, m.segment_id);
        assert(metas[part.len() - 1] == m);
        let kept = not_named(rest, ids);
        if ids.contains(m.segment_id) {
            let i = choose|i: int|
                0 <= i < metas.len() && (#[trigger] metas[i]).segment_id == m.segment_id
                    && metas[i].bucket == bucket;
            if i != part.len() - 1 {
                if i < part.len() - 1 {
                    assert(metas[i].segment_id != metas[part.len() - 1].segment_id);
                } else {
                    assert(metas[part.len() - 1].segment_id != metas[i].segment_id);
                }
            }
            assert(m.bucket == bucket);
        } else {
            assert(m.bucket != bucket) by {
                if m.bucket == bucket {
                    assert(metas[part.len() - 1].segment_id == m.segment_id);
                }
            }
            assert(kept.push(m).drop_last() =~= kept);
        }
    }
}

/// After the segments of a bucket have been merged the bucket has one, so that it
/// is not merged again; the other buckets are left alone.
pub proof fn law_merging_a_bucket(
    m: ManifestModel,
    bucket: u32,
    merged: MetaModel,
    now: i64,
    other: u32,
)
    requires
        names_distinct(m.raw_segments),
        merged.bucket == bucket,
    ensures
        ({
            let ids = planner::bucket_ids(m.raw_segments, bucket);
            let after = compacted_manifest(m, ids, merged, now);
            &&& planner::bucket_ids(after.raw_segments, bucket) == seq![merged.segment_id]
            &&& other != bucket ==> planner::bucket_ids(after.raw_segments, other)
                == planner::bucket_ids(m.raw_segments, other)
        }),
{
    let ids = planner::bucket_ids(m.raw_segments, bucket);
    let kept = not_named(m.raw_segments, ids);
    assert(m.raw_segments.is_prefix_of(m.raw_segments)) by {
        assert(m.raw_segments.subrange(0, m.raw_segments.len() as int) =~= m.raw_segments);
    }
    lemma_others_stay(m.raw_segments, m.raw_segments, bucket, bucket);
    lemma_others_stay(m.raw_segments, m.raw_segments, bucket, other);
    assert(kept.push(merged).drop_last() =~= kept);
    assert(planner::bucket_ids(kept.push(merged), bucket) =~= seq![merged.segment_id]);
}

/// Every replacement either stays whole or has all its segments let go.
pub proof fn law_finalizing_parts_the_replacements(
    records: Seq<ReplacementModel>,
    now: int,
    grace: int,
    i: int,
)
    requires
        0 <= i < records.len(),
    ensures
        is_due(records[i], now, grace) ==> forall|k: int|
            0 <= k < records[i].old_segments.len() ==> due_ids(records, now, grace).contains(
                #[trigger] records[i].old_segments[k],
            ),
        !is_due(records[i], now, grace) ==> not_due(records, now, grace).contains(records[i]),
    decreases records.len(),
{
    let rest = records.drop_last();
    let before = due_ids(rest, now, grace);
    let all = due_ids(records, now, grace);
    let kept_before = not_due(rest, now, grace);
    let kept = not_due(records, now, grace);
    if i < rest.len() {
        law_finalizing_parts_the_replacements(rest, now, grace, i);
        assert(rest[i] == records[i]);
        if is_due(records[i], now, grace) {
            assert forall|k: int| 0 <= k < records[i].old_segments.len() implies all.contains(
                #[trigger] records[i].old_segments[k],
            ) by {
                let id = rest[i].old_segments[k];
                assert(before.contains(id));
                let p = choose|p: int| 0 <= p < before.len() && before[p] == id;
                assert(all[p] == id);
            }
        } else {
            let p = choose|p: int| 0 <= p < kept_before.len() && kept_before[p] == records[i];
            assert(kept[p] == records[i]);
        }
    } else {
        assert(records.last() == records[i]);
        if is_due(records[i], now, grace) {
            assert forall|k: int| 0 <= k < records[i].old_segments.len() implies all.contains(
                #[trigger] records[i].old_segments[k],
            ) by {
                assert(all[before.len() + k] == records[i].old_segments[k]);
            }
        } else {
            assert(kept[kept.len() - 1] == records[i]);
        }
    }
}

/// The event at a place is the first with its id.
pub open spec fn is_first_of_its_id(events: Seq<EventModel>, i: int) -> bool {
    0 <= i < events.len() && forall|j: int|
        0 <= j < i ==> (#[trigger] events[j]).event_id != events[i].event_id
}

/// Of the events with one id the first is kept, and no other.
pub proof fn law_first_of_each_id_is_kept(events: Seq<EventModel>, e: EventModel)
    ensures
        without_repeats(events).contains(e) <==> exists|i: int| #[trigger]
            is_first_of_its_id(events, i) && events[i] == e,
    decreases events.len(),
{
    if events.len() > 0 {
        let init = events.drop_last();
        let last = events.last();
        let before = without_repeats(init);
        let after = without_repeats(events);
        law_first_of_each_id_is_kept(init, e);
        lemma_kept_ids(init, last.event_id);
        lemma_first_so_far(events);
        let n = init.len() as int;
        assert(is_first_of_its_id(events, n) <==> !has_id(init, last.event_id));
        if has_id(before, last.event_id) {
            assert(after == before);
        } else {
            lemma_contains_push(before, last, e);
        }
        if before.contains(e) {
            let i = choose|i: int| #[trigger] is_first_of_its_id(init, i) && init[i] == e;
            assert(is_first_of_its_id(events, i));
        }
        if exists|i: int| #[trigger] is_first_of_its_id(events, i) && events[i] == e {
            let i = choose|i: int| #[trigger] is_first_of_its_id(events, i) && events[i] == e;
            if i < n {
                assert(is_first_of_its_id(init, i));
            }
        }
        if after.contains(e) && !before.contains(e) {
            assert(is_first_of_its_id(events, n) && events[n] == e);
        }
    }
}

proof fn lemma_kept_ids(events: Seq<EventModel>, id: Seq<char>)
    ensures
        has_id(without_repeats(events), id) <==> has_id(events, id),
{
    law_merging_keeps_every_id(events);
}

proof fn lemma_contains_push(all: Seq<EventModel>, x: EventModel, e: EventModel)
    ensures
        all.push(x).contains(e) <==> all.contains(e) || x == e,
{
    let after = all.push(x);
    if all.contains(e) {
        let i = choose|i: int| 0 <= i < all.len() && all[i] == e;
        assert(after[i] == e);
    }
    if x == e {
        assert(after[all.len() as int] == e);
    }
    if after.contains(e) {
        let i = choose|i: int| 0 <= i < after.len() && after[i] == e;
        if i < all.len() {
            assert(all[i] == e);
        }
    }
}

proof fn lemma_first_so_far(events: Seq<EventModel>)
    requires
        events.len() > 0,
    ensures
        forall|i: int|
            0 <= i < events.len() - 1 ==> (#[trigger] is_first_of_its_id(events, i)
                <==> is_first_of_its_id(events.drop_last(), i)),
        is_first_of_its_id(events, events.len() - 1) <==> !has_id(
            events.drop_last(),
            events.last().event_id,
        ),
{
    let init = events.drop_last();
    let n = events.len() - 1;
    assert forall|i: int| 0 <= i < n implies (#[trigger] is_first_of_its_id(events, i)
        <==> is_first_of_its_id(init, i)) by {
        if is_first_of_its_id(init, i) {
            assert forall|j: int| 0 <= j < i implies (#[trigger] events[j]).event_id
                != events[i].event_id by {
                assert(init[j].event_id != init[i].event_id);
            }
        }
        if is_first_of_its_id(events, i) {
            assert forall|j: int| 0 <= j < i implies (#[trigger] init[j]).event_id
                != init[i].event_id by {
                assert(events[j].event_id != events[i].event_id);
            }
        }
    }
    if has_id(init, events.last().event_id) {
        let j = choose|j: int|
            0 <= j < init.len() && (#[trigger] init[j]).event_id == events.last().event_id;
        assert(events[j].event_id == events[n].event_id);
    } else {
        assert forall|j: int| 0 <= j < n implies (#[trigger] events[j]).event_id
            != events[n].event_id by {
            assert(init[j].event_id == events[j].event_id);
        }
    }
}

/// A merge takes exactly the named segments out, puts the merged one behind the others,
/// and keeps when it did so; it changes nothing else.
pub proof fn law_merging_segments(
    m: ManifestModel,
    old_ids: Seq<Seq<char>>,
    merged: MetaModel,
    now: i64,
)
    ensures
        ({
            let after = compacted_manifest(m, old_ids, merged, now);
            &&& after.raw_segments == m.raw_segments.filter(
                |s: MetaModel| !old_ids.contains(s.segment_id),
            ).push(merged)
            &&& after.compacted_replacements.len() == m.compacted_replacements.len() + 1
            &&& after.compacted_replacements.drop_last() == m.compacted_replacements
            &&& after.compacted_replacements.last().old_segments == old_ids
            &&& after.compacted_replacements.last().new_segments == seq![merged.segment_id]
            &&& after.compacted_replacements.last().committed_at_ms == now
            &&& after.rollup_segments == m.rollup_segments
            &&& after.closed_periods == m.closed_periods
            &&& after.watermark_ms == m.watermark_ms
            &&& after.last_sealed_wal_id == m.last_sealed_wal_id
            &&& after.current_generation == m.current_generation
            &&& after.bucket_count == m.bucket_count
            &&& after.db_version == m.db_version
        }),
{
    lemma_not_named(m.raw_segments, old_ids);
    let after = compacted_manifest(m, old_ids, merged, now);
    assert(after.compacted_replacements.drop_last() =~= m.compacted_replacements);
}

proof fn lemma_not_named(metas: Seq<MetaModel>, ids: Seq<Seq<char>>)
    ensures
        not_named(metas, ids) == metas.filter(|s: MetaModel| !ids.contains(s.segment_id)),
    decreases metas.len(),
{
    reveal(Seq::filter);
    let others = |s: MetaModel| !ids.contains(s.segment_id);
    if metas.len() > 0 {
        lemma_not_named(metas.drop_last(), ids);
    } else {
        assert(not_named(metas, ids) =~= metas.filter(others));
    }
}

/// A replacement is kept until it has stood for longer than the grace, and its old
/// segments can go then and not before.
pub proof fn law_grace_of_replacements(
    records: Seq<ReplacementModel>,
    now: int,
    grace: int,
    id: Seq<char>,
)
    ensures
        not_due(records, now, grace) == records.filter(
            |r: ReplacementModel| r.committed_at_ms + grace >= now,
        ),
        due_ids(records, now, grace).contains(id) <==> exists|i: int|
            0 <= i < records.len() && (#[trigger] records[i]).committed_at_ms + grace < now
                && records[i].old_segments.contains(id),
    decreases records.len(),
{
    reveal(Seq::filter);
    let stays = |r: ReplacementModel| r.committed_at_ms + grace >= now;
    if records.len() > 0 {
        let init = records.drop_last();
        let last = records.last();
        law_grace_of_replacements(init, now, grace, id);
        assert(records[records.len() - 1] == last);
        let before = due_ids(init, now, grace);
        let after = due_ids(records, now, grace);
        if after.contains(id) {
            let x = choose|x: int| 0 <= x < after.len() && after[x] == id;
            if x < before.len() {
                assert(before[x] == id);
                assert(before.contains(id));
                let i = choose|i: int|
                    0 <= i < init.len() && (#[trigger] init[i]).committed_at_ms + grace < now
                        && init[i].old_segments.contains(id);
                assert(records[i] == init[i]);
            } else {
                assert(last.old_segments[x - before.len()] == id);
            }
        }
        if exists|i: int|
            0 <= i < records.len() && (#[trigger] records[i]).committed_at_ms + grace < now
                && records[i].old_segments.contains(id) {
            let i = choose|i: int|
                0 <= i < records.len() && (#[trigger] records[i]).committed_at_ms + grace < now
                    && records[i].old_segments.contains(id);
            if i < init.len() {
                assert(init[i] == records[i]);
                assert(before.contains(id));
                let x = choose|x: int| 0 <= x < before.len() && before[x] == id;
                assert(after[x] == id);
            } else {
                let x = choose|x: int|
                    0 <= x < last.old_segments.len() && last.old_segments[x] == id;
                assert(after[before.len() + x] == id);
            }
        }
    } else {
        assert(not_due(records, now, grace) =~= records.filter(stays));
    }
}

} // verus!
