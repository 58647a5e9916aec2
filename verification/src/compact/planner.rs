//! Which segments are to be merged.

use vstd::prelude::*;

use crate::storage::manifest;
use crate::storage::manifest::{MetaModel, SegmentMeta};
use crate::text;

verus! {

/// When segments are merged.
#[derive(Debug, Clone, Copy, PartialEq, Eq, Structural)]
pub struct CompactionPlanner {
    /// How many segments a bucket may have.
    pub max_small_segments: usize,
    pub max_small_size_bytes: u64,
}

/// The names of the segments of one bucket.
#[verifier::ext_equal]
pub struct GroupModel {
    pub bucket: u32,
    pub ids: Seq<Seq<char>>,
}

struct BucketGroup {
    bucket: u32,
    ids: Vec<String>,
}

spec fn group_view(g: BucketGroup) -> GroupModel {
    GroupModel { bucket: g.bucket, ids: text::text_views(g.ids@) }
}

spec fn group_views(groups: Seq<BucketGroup>) -> Seq<GroupModel> {
    groups.map_values(|g: BucketGroup| group_view(g))
}

/// The place of a bucket among the groups, or their number where it has none.
pub open spec fn group_place(groups: Seq<GroupModel>, bucket: u32) -> int
    decreases groups.len(),
{
    if groups.len() == 0 || groups[0].bucket == bucket {
        0
    } else {
        1 + group_place(groups.drop_first(), bucket)
    }
}

/// The groups with one more segment.
pub open spec fn with_segment(groups: Seq<GroupModel>, bucket: u32, id: Seq<char>) -> Seq<GroupModel> {
    let p = group_place(groups, bucket);
    if p < groups.len() {
        groups.update(p, GroupModel { bucket, ids: groups[p].ids.push(id) })
    } else {
        groups.push(GroupModel { bucket, ids: seq![id] })
    }
}

/// Segments by their buckets, in the order in which the buckets come up.
pub open spec fn bucket_groups(metas: Seq<MetaModel>) -> Seq<GroupModel>
    decreases metas.len(),
{
    if metas.len() == 0 {
        Seq::empty()
    } else {
        with_segment(
            bucket_groups(metas.drop_last()),
            metas.last().bucket,
            metas.last().segment_id,
        )
    }
}

/// The groups with more than `max` segments.
pub open spec fn crowded(groups: Seq<GroupModel>, max: int) -> Seq<Seq<Seq<char>>>
    decreases groups.len(),
{
    if groups.len() == 0 {
        Seq::empty()
    } else if groups.last().ids.len() > max {
        crowded(groups.drop_last(), max).push(groups.last().ids)
    } else {
        crowded(groups.drop_last(), max)
    }
}

/// The names of segments that are to be merged, by bucket.
pub open spec fn plans(metas: Seq<MetaModel>, max: int) -> Seq<Seq<Seq<char>>> {
    crowded(bucket_groups(metas), max)
}

/// Lists of texts by their contents.
pub open spec fn plan_views(v: Seq<Vec<String>>) -> Seq<Seq<Seq<char>>> {
    v.map_values(|ids: Vec<String>| text::text_views(ids@))
}

fn group_segments(segments: &[SegmentMeta]) -> (r: Vec<BucketGroup>)
    ensures
        group_views(r@) == bucket_groups(manifest::meta_views(segments@)),
{
    let ghost all = manifest::meta_views(segments@);
    let mut groups: Vec<BucketGroup> = Vec::new();
    assert(group_views(groups@) =~= Seq::empty());
    assert(segments@.len() == segments.len());
    let total: usize = segments.len();
    for i in 0..total
        invariant
            total == segments@.len(),
            all == manifest::meta_views(segments@),
            group_views(groups@) == bucket_groups(all.take(i as int)),
    {
        let ghost before = group_views(groups@);
        assert(all.take(i + 1).drop_last() =~= all.take(i as int));
        assert(all.take(i + 1).last() == segments@[i as int]@);
        let bucket: u32 = segments[i].bucket;
        let id = segments[i].segment_id.clone();
        let n: usize = groups.len();
        let mut p: usize = 0;
        assert(before.skip(0) =~= before);
        while p < n && groups[p].bucket != bucket
            invariant
                n == groups@.len(),
                p <= n,
                before == group_views(groups@),
                group_place(before, bucket) == p + group_place(before.skip(p as int), bucket),
            decreases n - p,
        {
            assert(before.skip(p as int)[0] == group_view(groups@[p as int]));
            assert(before.skip(p as int).drop_first() =~= before.skip(p + 1));
            p = p + 1;
        }
        let ghost name = id@;
        if p < n {
            assert(before.skip(p as int)[0] == group_view(groups@[p as int]));
            proof {
                text::lemma_texts_push(groups@[p as int].ids@, id);
            }
            let group = &mut groups[p];
            group.ids.push(id);
            assert(group_views(groups@) =~= with_segment(before, bucket, name));
        } else {
            let mut ids: Vec<String> = Vec::new();
            proof {
                text::lemma_texts_push(ids@, id);
                assert(text::text_views(ids@) =~= Seq::empty());
            }
            ids.push(id);
            let ghost was = groups@;
            let group = BucketGroup { bucket, ids };
            groups.push(group);
            proof {
                assert(text::text_views(ids@) =~= seq![name]);
                assert(group_views(groups@) =~= group_views(was).push(group_view(group)));
            }
        }
    }
    assert(all.take(all.len() as int) =~= all);
    groups
}

impl CompactionPlanner {
    pub fn new() -> (r: Self)
        ensures
            r.max_small_segments == 16,
            r.max_small_size_bytes == 32 * 1024 * 1024,
    {
        CompactionPlanner { max_small_segments: 16, max_small_size_bytes: 33_554_432 }
    }

    /// The names of segments that are to be merged: those of each bucket that has
    /// more than it may have.
    pub fn plan_compaction(&self, segments: &[SegmentMeta]) -> (r: Vec<Vec<String>>)
        ensures
            plan_views(r@) == plans(
                manifest::meta_views(segments@),
                self.max_small_segments as int,
            ),
    {
        let groups = group_segments(segments);
        let ghost given = groups@;
        let ghost all = group_views(groups@);
        let ghost max = self.max_small_segments as int;
        let mut out: Vec<Vec<String>> = Vec::new();
        assert(plan_views(out@) =~= Seq::empty());
        for g in it: groups.into_iter()
            invariant
                it.seq() == given,
                all == group_views(given),
                max == self.max_small_segments,
                plan_views(out@) == crowded(all.take(it.index() as int), max),
        {
            let ghost i = it.index() as int;
            assert(g == given[i]);
            assert(all.take(i + 1).drop_last() =~= all.take(i));
            assert(all.take(i + 1).last() == group_view(g));
            if g.ids.len() > self.max_small_segments {
                let ghost was = out@;
                out.push(g.ids);
                assert(plan_views(out@) =~= plan_views(was).push(text::text_views(g.ids@)));
            }
        }
        assert(all.take(all.len() as int) =~= all);
        out
    }
}

impl Default for CompactionPlanner {
    fn default() -> (r: Self)
        ensures
            r.max_small_segments == 16,
            r.max_small_size_bytes == 32 * 1024 * 1024,
    {
        CompactionPlanner::new()
    }
}

// ---------------------------------------------------------------------------
// Laws
// ---------------------------------------------------------------------------

/// The names of the segments of a bucket, in their order.
pub open spec fn bucket_ids(metas: Seq<MetaModel>, bucket: u32) -> Seq<Seq<char>>
    decreases metas.len(),
{
    if metas.len() == 0 {
        Seq::empty()
    } else if metas.last().bucket == bucket {
        bucket_ids(metas.drop_last(), bucket).push(metas.last().segment_id)
    } else {
        bucket_ids(metas.drop_last(), bucket)
    }
}

proof fn lemma_group_place(groups: Seq<GroupModel>, bucket: u32)
    ensures
        0 <= group_place(groups, bucket) <= groups.len(),
        group_place(groups, bucket) < groups.len() ==> groups[group_place(groups, bucket)].bucket
            == bucket,
        forall|i: int|
            0 <= i < group_place(groups, bucket) ==> (#[trigger] groups[i]).bucket != bucket,
    decreases groups.len(),
{
    if groups.len() > 0 && groups[0].bucket != bucket {
        let rest = groups.drop_first();
        lemma_group_place(rest, bucket);
        assert forall|i: int| 0 <= i < group_place(groups, bucket) implies (
        #[trigger] groups[i]).bucket != bucket by {
            if i > 0 {
                assert(rest[i - 1] == groups[i]);
            }
        }
    }
}

/// A group holds the segments of its bucket, and the bucket of a segment has a
/// group.
proof fn lemma_groups(metas: Seq<MetaModel>)
    ensures
        ({
            let groups = bucket_groups(metas);
            &&& forall|i: int|
                0 <= i < groups.len() ==> (#[trigger] groups[i]).ids == bucket_ids(
                    metas,
                    groups[i].bucket,
                )
            &&& forall|i: int, j: int|
                0 <= i < j < groups.len() ==> (#[trigger] groups[i]).bucket != (
                #[trigger] groups[j]).bucket
            &&& forall|bucket: u32|
                bucket_ids(metas, bucket).len() > 0 ==> #[trigger] group_place(groups, bucket)
                    < groups.len()
        }),
    decreases metas.len(),
{
    let groups = bucket_groups(metas);
    if metas.len() > 0 {
        let rest = metas.drop_last();
        let m = metas.last();
        let before = bucket_groups(rest);
        lemma_groups(rest);
        lemma_group_place(before, m.bucket);
        let p = group_place(before, m.bucket);
        assert forall|i: int| 0 <= i < groups.len() implies (#[trigger] groups[i]).ids
            == bucket_ids(metas, groups[i].bucket) by {
            if i == p {
                if p < before.len() {
                    assert(before[p].ids == bucket_ids(rest, m.bucket));
                } else {
                    assert(bucket_ids(rest, m.bucket) =~= Seq::empty());
                }
                assert(groups[i].ids =~= bucket_ids(rest, m.bucket).push(m.segment_id));
            } else {
                assert(groups[i] == before[i]);
                if before[i].bucket == m.bucket && p < before.len() {
                    assert(before[i].bucket != before[p].bucket);
                }
            }
        }
        assert forall|i: int, j: int| 0 <= i < j < groups.len() implies (
        #[trigger] groups[i]).bucket != (#[trigger] groups[j]).bucket by {
            if i < before.len() && j < before.len() {
                assert(before[i].bucket != before[j].bucket);
            }
        }
        assert forall|bucket: u32| bucket_ids(metas, bucket).len() > 0 implies #[trigger] group_place(
            groups,
            bucket,
        ) < groups.len() by {
            lemma_group_place(groups, bucket);
            lemma_group_place(before, bucket);
            if bucket == m.bucket {
                assert(groups[p].bucket == bucket);
            } else {
                let q = group_place(before, bucket);
                assert(groups[q].bucket == bucket);
            }
        }
    }
}

proof fn lemma_crowded(groups: Seq<GroupModel>, max: int, ids: Seq<Seq<char>>)
    ensures
        crowded(groups, max).contains(ids) <==> exists|i: int|
            0 <= i < groups.len() && (#[trigger] groups[i]).ids == ids && ids.len() > max,
    decreases groups.len(),
{
    if groups.len() > 0 {
        let rest = groups.drop_last();
        lemma_crowded(rest, max, ids);
        let before = crowded(rest, max);
        let all = crowded(groups, max);
        if all.contains(ids) {
            let k = choose|k: int| 0 <= k < all.len() && all[k] == ids;
            if k < before.len() {
                assert(before[k] == ids);
                let i = choose|i: int|
                    0 <= i < rest.len() && (#[trigger] rest[i]).ids == ids && ids.len() > max;
                assert(groups[i].ids == ids);
            } else {
                assert(groups[groups.len() - 1].ids == ids);
            }
        }
        if exists|i: int|
            0 <= i < groups.len() && (#[trigger] groups[i]).ids == ids && ids.len() > max {
            let i = choose|i: int|
                0 <= i < groups.len() && (#[trigger] groups[i]).ids == ids && ids.len() > max;
            if i < rest.len() {
                assert(rest[i].ids == ids);
                assert(before.contains(ids));
                let k = choose|k: int| 0 <= k < before.len() && before[k] == ids;
                assert(all[k] == ids);
            } else {
                assert(all[all.len() - 1] == ids);
            }
        }
    }
}

/// A bucket's segments are merged exactly where it has more than it may have, all
/// of them together, and never with those of another bucket.
pub proof fn law_plans_are_per_bucket(metas: Seq<MetaModel>, max: int, ids: Seq<Seq<char>>)
    requires
        0 <= max,
    ensures
        plans(metas, max).contains(ids) <==> exists|bucket: u32|
            #[trigger] bucket_ids(metas, bucket) == ids && ids.len() > max,
{
    let groups = bucket_groups(metas);
    lemma_groups(metas);
    lemma_crowded(groups, max, ids);
    if plans(metas, max).contains(ids) {
        let i = choose|i: int|
            0 <= i < groups.len() && (#[trigger] groups[i]).ids == ids && ids.len() > max;
        assert(bucket_ids(metas, groups[i].bucket) == ids);
    }
    if exists|bucket: u32| #[trigger] bucket_ids(metas, bucket) == ids && ids.len() > max {
        let bucket = choose|bucket: u32| #[trigger]
            bucket_ids(metas, bucket) == ids && ids.len() > max;
        let p = group_place(groups, bucket);
        lemma_group_place(groups, bucket);
        assert(p < groups.len());
        assert(groups[p].ids == ids);
    }
}

/// The segments of a bucket are those that are labelled with it, in their order.
pub proof fn law_segments_of_buckets(metas: Seq<MetaModel>, bucket: u32)
    ensures
        bucket_ids(metas, bucket) == metas.filter(|s: MetaModel| s.bucket == bucket).map_values(
            |s: MetaModel| s.segment_id,
        ),
    decreases metas.len(),
{
    reveal(Seq::filter);
    let own = |s: MetaModel| s.bucket == bucket;
    let name = |s: MetaModel| s.segment_id;
    if metas.len() > 0 {
        let init = metas.drop_last();
        law_segments_of_buckets(init, bucket);
        let some = init.filter(own);
        assert(some.push(metas.last()).map_values(name) =~= some.map_values(name).push(
            metas.last().segment_id,
        ));
    } else {
        assert(bucket_ids(metas, bucket) =~= metas.filter(own).map_values(name));
    }
}

} // verus!
