//! Which segments a query can pass by.

use vstd::prelude::*;

use crate::hours;
use crate::ingest::flusher;
use crate::model::event::EventModel;
use crate::model::ids;
use crate::model::ids::{bucket_for_account, AccountId};
use crate::query::executor;
use crate::query::plan;
use crate::query::plan::{PlanModel, QueryFilter, QueryPlan};
use crate::rollup::hourly::RecordModel;
use crate::rollup::worker;
use crate::storage::manifest;
use crate::storage::manifest::{MetaModel, SegmentMeta};
use crate::text;
use crate::text::{same_text, str_less};
use crate::textset::TextSet;

verus! {

/// The number of buckets that accounts are distributed over: at least one.
pub open spec fn buckets(bucket_count: int) -> int {
    if bucket_count < 1 {
        1
    } else {
        bucket_count
    }
}

/// A segment can hold records of an account: it is labelled with the account's
/// bucket, and its accounts do not all come before or after.
pub open spec fn may_hold_account(m: MetaModel, account: Seq<char>, bucket_count: int) -> bool {
    &&& m.bucket == ids::account_bucket(account, buckets(bucket_count))
    &&& m.min_account_id matches Some(a) ==> !text::text_lt(account, a)
    &&& m.max_account_id matches Some(a) ==> !text::text_lt(a, account)
}

/// A value that the filter lets through is among `ids`.
pub open spec fn shares_value(f: plan::FilterModel, ids: Set<Seq<char>>) -> bool {
    exists|i: int| 0 <= i < f.values.len() && ids.contains(#[trigger] f.values[i])
}

/// A segment can hold records that a filter lets through.
pub open spec fn may_pass(m: MetaModel, f: plan::FilterModel) -> bool {
    if f.field == "product_id"@ {
        shares_value(f, m.product_ids)
    } else if f.field == "meter_id"@ {
        shares_value(f, m.meter_ids)
    } else if f.field == "model_id"@ {
        shares_value(f, m.model_ids)
    } else {
        true
    }
}

/// A segment can hold records that a plan lets through.
pub open spec fn may_match(p: PlanModel, m: MetaModel, bucket_count: int) -> bool {
    &&& worker::overlaps(m, p.from_ms as int, p.to_ms as int)
    &&& p.account_id matches Some(a) ==> may_hold_account(m, a, bucket_count)
    &&& forall|i: int| 0 <= i < p.filters.len() ==> may_pass(m, #[trigger] p.filters[i])
}

/// The names of the segments that a plan concerns, in their order.
pub open spec fn relevant_ids(p: PlanModel, metas: Seq<MetaModel>, bucket_count: int) -> Seq<
    Seq<char>,
>
    decreases metas.len(),
{
    if metas.len() == 0 {
        Seq::empty()
    } else if may_match(p, metas.last(), bucket_count) {
        relevant_ids(p, metas.drop_last(), bucket_count).push(metas.last().segment_id)
    } else {
        relevant_ids(p, metas.drop_last(), bucket_count)
    }
}

fn has_any(f: &QueryFilter, ids: &TextSet) -> (r: bool)
    ensures
        r == shares_value(f@, ids@),
{
    for i in 0..f.values.len()
        invariant
            forall|j: int| 0 <= j < i ==> !ids@.contains(#[trigger] f@.values[j]),
    {
        assert(f@.values[i as int] == f.values@[i as int]@);
        if ids.contains(f.values[i].as_str()) {
            return true;
        }
    }
    false
}

fn filter_may_pass(m: &SegmentMeta, f: &QueryFilter) -> (r: bool)
    ensures
        r == may_pass(m@, f@),
{
    if same_text(f.field.as_str(), "product_id") {
        has_any(f, &m.product_ids)
    } else if same_text(f.field.as_str(), "meter_id") {
        has_any(f, &m.meter_ids)
    } else if same_text(f.field.as_str(), "model_id") {
        has_any(f, &m.model_ids)
    } else {
        true
    }
}

/// The bucket of an account, at least one bucket being there.
pub fn account_bucket_of(account: &str, bucket_count: u32) -> (r: u32)
    ensures
        r == ids::account_bucket(account@, buckets(bucket_count as int)),
{
    let count: u32 = if bucket_count < 1 {
        1
    } else {
        bucket_count
    };
    bucket_for_account(&AccountId(account.to_owned()), count)
}

fn account_may_be_held(m: &SegmentMeta, account: &str, bucket_count: u32) -> (r: bool)
    ensures
        r == may_hold_account(m@, account@, bucket_count as int),
{
    if m.bucket != account_bucket_of(account, bucket_count) {
        return false;
    }
    if let Some(a) = &m.min_account_id {
        if str_less(account, a.0.as_str()) {
            return false;
        }
    }
    if let Some(a) = &m.max_account_id {
        if str_less(a.0.as_str(), account) {
            return false;
        }
    }
    true
}

/// Whether the plan has to read the segment.
pub fn segment_may_match(plan: &QueryPlan, m: &SegmentMeta, bucket_count: u32) -> (r: bool)
    ensures
        r == may_match(plan@, m@, bucket_count as int),
{
    if !(m.min_timestamp_ms < plan.to_ms && m.max_timestamp_ms >= plan.from_ms) {
        return false;
    }
    if let Some(a) = &plan.account_id {
        if !account_may_be_held(m, a.as_str(), bucket_count) {
            return false;
        }
    }
    for i in 0..plan.filters.len()
        invariant
            forall|j: int| 0 <= j < i ==> may_pass(m@, #[trigger] plan@.filters[j]),
    {
        assert(plan@.filters[i as int] == plan.filters@[i as int]@);
        if !filter_may_pass(m, &plan.filters[i]) {
            return false;
        }
    }
    true
}

/// The names of the segments that the plan has to read.
pub fn relevant_segments(plan: &QueryPlan, metas: &Vec<SegmentMeta>, bucket_count: u32) -> (r: Vec<
    String,
>)
    ensures
        text::text_views(r@) == relevant_ids(
            plan@,
            manifest::meta_views(metas@),
            bucket_count as int,
        ),
{
    let ghost all = manifest::meta_views(metas@);
    let mut r: Vec<String> = Vec::new();
    assert(text::text_views(r@) =~= Seq::empty());
    for i in 0..metas.len()
        invariant
            all == manifest::meta_views(metas@),
            text::text_views(r@) == relevant_ids(plan@, all.take(i as int), bucket_count as int),
    {
        assert(all.take(i + 1).drop_last() =~= all.take(i as int));
        assert(all.take(i + 1).last() == metas@[i as int]@);
        if segment_may_match(plan, &metas[i], bucket_count) {
            let id = metas[i].segment_id.clone();
            proof {
                text::lemma_texts_push(r@, id);
            }
            r.push(id);
        }
    }
    assert(all.take(all.len() as int) =~= all);
    r
}

// ---------------------------------------------------------------------------
// Nothing that matches is passed by
// ---------------------------------------------------------------------------

proof fn lemma_first_account(events: Seq<EventModel>, i: int)
    requires
        0 <= i < events.len(),
    ensures
        flusher::first_account(events) is Some,
        !text::text_lt(events[i].account_id, flusher::first_account(events)->0),
        flusher::last_account(events) is Some,
        !text::text_lt(flusher::last_account(events)->0, events[i].account_id),
    decreases events.len(),
{
    let init = events.drop_last();
    let last = events.last().account_id;
    text::lemma_text_lt_irreflexive(last);
    if i < events.len() - 1 {
        assert(init[i] == events[i]);
        lemma_first_account(init, i);
        let a = events[i].account_id;
        let lo = flusher::first_account(init)->0;
        let hi = flusher::last_account(init)->0;
        if text::text_lt(last, lo) && text::text_lt(a, last) {
            text::lemma_text_lt_transitive(a, last, lo);
        }
        if text::text_lt(hi, last) && text::text_lt(last, a) {
            text::lemma_text_lt_transitive(hi, last, a);
        }
    } else {
        if let Some(lo) = flusher::first_account(init) {
            text::lemma_text_lt_total(last, lo);
        }
        if let Some(hi) = flusher::last_account(init) {
            text::lemma_text_lt_total(last, hi);
        }
    }
}

proof fn lemma_accepted_value(f: plan::FilterModel, v: Seq<char>, ids: Set<Seq<char>>)
    requires
        f.values.contains(v),
        ids.contains(v),
    ensures
        shares_value(f, ids),
{
    let i = choose|i: int| 0 <= i < f.values.len() && f.values[i] == v;
    assert(ids.contains(f.values[i]));
}

/// A raw segment that a query passes by holds no event that the query lets
/// through, as long as the segment is labelled with the bucket of its accounts.
pub proof fn law_pruning_keeps_events(
    p: PlanModel,
    segment_id: Seq<char>,
    events: Seq<EventModel>,
    bucket: u32,
    checksum: u64,
    bucket_count: int,
    i: int,
)
    requires
        0 <= i < events.len(),
        ids::account_bucket(events[i].account_id, buckets(bucket_count)) == bucket,
        executor::event_matches(p, events[i]),
    ensures
        may_match(p, flusher::segment_meta(segment_id, events, bucket, checksum), bucket_count),
{
    let m = flusher::segment_meta(segment_id, events, bucket, checksum);
    let e = events[i];
    worker::lemma_time_bounds(events, i);
    lemma_first_account(events, i);
    assert forall|k: int| 0 <= k < p.filters.len() implies may_pass(m, #[trigger] p.filters[k]) by {
        let f = p.filters[k];
        assert(executor::filter_accepts(f, executor::event_value(e, f.field)));
        reveal_strlit("account_id");
        reveal_strlit("subscription_id");
        reveal_strlit("product_id");
        reveal_strlit("meter_id");
        reveal_strlit("model_id");
        if f.field == "product_id"@ {
            assert("product_id"@ != "account_id"@) by {
                assert("product_id"@[0] != "account_id"@[0]);
            }
            assert("product_id"@ != "subscription_id"@) by {
                assert("product_id"@[0] != "subscription_id"@[0]);
            }
            assert(m.product_ids.contains(e.product_id));
            lemma_accepted_value(f, e.product_id, m.product_ids);
        } else if f.field == "meter_id"@ {
            assert("meter_id"@[0] != "account_id"@[0]);
            assert("meter_id"@[0] != "subscription_id"@[0]);
            assert("meter_id"@[0] != "product_id"@[0]);
            assert(m.meter_ids.contains(e.meter_id));
            lemma_accepted_value(f, e.meter_id, m.meter_ids);
        } else if f.field == "model_id"@ {
            assert("model_id"@[0] != "account_id"@[0]);
            assert("model_id"@[0] != "subscription_id"@[0]);
            assert("model_id"@[0] != "product_id"@[0]);
            assert("model_id"@[1] != "meter_id"@[1]);
            let v = e.model_id->0;
            assert(e.model_id == Some(v));
            assert(m.model_ids.contains(v)) by {
                assert(events[i].model_id == Some(v));
            }
            lemma_accepted_value(f, v, m.model_ids);
        }
    }
}

proof fn lemma_first_record_account(records: Seq<RecordModel>, i: int)
    requires
        0 <= i < records.len(),
    ensures
        worker::first_record_account(records) is Some,
        !text::text_lt(records[i].key.account_id, worker::first_record_account(records)->0),
        worker::last_record_account(records) is Some,
        !text::text_lt(worker::last_record_account(records)->0, records[i].key.account_id),
    decreases records.len(),
{
    let init = records.drop_last();
    let last = records.last().key.account_id;
    text::lemma_text_lt_irreflexive(last);
    if i < records.len() - 1 {
        assert(init[i] == records[i]);
        lemma_first_record_account(init, i);
        let a = records[i].key.account_id;
        let lo = worker::first_record_account(init)->0;
        let hi = worker::last_record_account(init)->0;
        if text::text_lt(last, lo) && text::text_lt(a, last) {
            text::lemma_text_lt_transitive(a, last, lo);
        }
        if text::text_lt(hi, last) && text::text_lt(last, a) {
            text::lemma_text_lt_transitive(hi, last, a);
        }
    } else {
        if let Some(lo) = worker::first_record_account(init) {
            text::lemma_text_lt_total(last, lo);
        }
        if let Some(hi) = worker::last_record_account(init) {
            text::lemma_text_lt_total(last, hi);
        }
    }
}

/// A rollup segment that a query passes by holds no row that the query lets
/// through, as long as the rows are those of its hour and its bucket.
pub proof fn law_pruning_keeps_rollups(
    p: PlanModel,
    segment_id: Seq<char>,
    records: Seq<RecordModel>,
    bucket: u32,
    checksum: u64,
    min_ts: i64,
    max_ts: i64,
    inputs: Seq<Seq<char>>,
    bucket_count: int,
    i: int,
)
    requires
        0 <= i < records.len(),
        min_ts <= records[i].key.hour_start_ms <= max_ts,
        ids::account_bucket(records[i].key.account_id, buckets(bucket_count)) == bucket,
        executor::record_matches(p, records[i]),
    ensures
        may_match(
            p,
            worker::rollup_meta(segment_id, records, bucket, checksum, min_ts, max_ts, inputs),
            bucket_count,
        ),
{
    let m = worker::rollup_meta(segment_id, records, bucket, checksum, min_ts, max_ts, inputs);
    let r = records[i];
    lemma_first_record_account(records, i);
    assert forall|k: int| 0 <= k < p.filters.len() implies may_pass(m, #[trigger] p.filters[k]) by {
        let f = p.filters[k];
        assert(executor::filter_accepts(f, executor::record_value(r, f.field)));
        reveal_strlit("account_id");
        reveal_strlit("subscription_id");
        reveal_strlit("product_id");
        reveal_strlit("meter_id");
        reveal_strlit("model_id");
        if f.field == "product_id"@ {
            assert("product_id"@[0] != "account_id"@[0]);
            assert("product_id"@[0] != "subscription_id"@[0]);
            assert(m.product_ids.contains(r.key.product_id)) by {
                assert(records[i].key.product_id == r.key.product_id);
            }
            lemma_accepted_value(f, r.key.product_id, m.product_ids);
        } else if f.field == "meter_id"@ {
            assert("meter_id"@[0] != "account_id"@[0]);
            assert("meter_id"@[0] != "subscription_id"@[0]);
            assert("meter_id"@[0] != "product_id"@[0]);
            assert(m.meter_ids.contains(r.key.meter_id)) by {
                assert(records[i].key.meter_id == r.key.meter_id);
            }
            lemma_accepted_value(f, r.key.meter_id, m.meter_ids);
        } else if f.field == "model_id"@ {
            assert("model_id"@[0] != "account_id"@[0]);
            assert("model_id"@[0] != "subscription_id"@[0]);
            assert("model_id"@[0] != "product_id"@[0]);
            assert("model_id"@[1] != "meter_id"@[1]);
            let v = r.key.model_id->0;
            assert(r.key.model_id == Some(v));
            assert(m.model_ids.contains(v)) by {
                assert(records[i].key.model_id == Some(v));
            }
            lemma_accepted_value(f, v, m.model_ids);
        }
    }
}

/// A query concerns exactly the segments that it may match, in their order. None is
/// among them that has no time of the query's range, or that is labelled with a bucket
/// other than that of the query's account.
pub proof fn law_segments_of_a_query(p: PlanModel, metas: Seq<MetaModel>, bucket_count: int)
    ensures
        relevant_ids(p, metas, bucket_count) == metas.filter(
            |m: MetaModel| may_match(p, m, bucket_count),
        ).map_values(|m: MetaModel| m.segment_id),
        forall|i: int|
            0 <= i < metas.len() && may_match(p, #[trigger] metas[i], bucket_count) ==> {
                &&& metas[i].min_timestamp_ms < p.to_ms
                &&& metas[i].max_timestamp_ms >= p.from_ms
                &&& p.account_id matches Some(a) ==> metas[i].bucket == ids::account_bucket(
                    a,
                    if bucket_count < 1 {
                        1
                    } else {
                        bucket_count
                    },
                )
            },
    decreases metas.len(),
{
    reveal(Seq::filter);
    let own = |m: MetaModel| may_match(p, m, bucket_count);
    let name = |m: MetaModel| m.segment_id;
    if metas.len() > 0 {
        let init = metas.drop_last();
        law_segments_of_a_query(p, init, bucket_count);
        let some = init.filter(own);
        assert(some.push(metas.last()).map_values(name) =~= some.map_values(name).push(
            metas.last().segment_id,
        ));
        assert forall|i: int|
            0 <= i < metas.len() && may_match(p, #[trigger] metas[i], bucket_count) implies {
            &&& metas[i].min_timestamp_ms < p.to_ms
            &&& metas[i].max_timestamp_ms >= p.from_ms
            &&& p.account_id matches Some(a) ==> metas[i].bucket == ids::account_bucket(
                a,
                if bucket_count < 1 {
                    1
                } else {
                    bucket_count
                },
            )
        } by {
            if i < init.len() {
                assert(metas[i] == init[i]);
            }
        }
    } else {
        assert(relevant_ids(p, metas, bucket_count) =~= metas.filter(own).map_values(name));
    }
}

/// A segment is passed by where all its accounts come before or behind the one that is
/// asked for, and where it has none of the products, meters or models that a filter lets
/// through. A filter on anything else passes no segment by.
pub proof fn law_segments_that_are_passed_by(
    p: PlanModel,
    m: MetaModel,
    bucket_count: int,
    i: int,
)
    requires
        may_match(p, m, bucket_count),
        0 <= i < p.filters.len(),
    ensures
        p.account_id matches Some(a) ==> {
            &&& m.min_account_id matches Some(least) ==> text::text_le(least, a)
            &&& m.max_account_id matches Some(greatest) ==> text::text_le(a, greatest)
        },
        p.filters[i].field == "product_id"@ ==> exists|v: Seq<char>|
            p.filters[i].values.contains(v) && m.product_ids.contains(v),
        p.filters[i].field == "meter_id"@ ==> exists|v: Seq<char>|
            p.filters[i].values.contains(v) && m.meter_ids.contains(v),
        p.filters[i].field == "model_id"@ ==> exists|v: Seq<char>|
            p.filters[i].values.contains(v) && m.model_ids.contains(v),
        forall|f: plan::FilterModel|
            f.field != "product_id"@ && f.field != "meter_id"@ && f.field != "model_id"@
                ==> #[trigger] may_pass(m, f),
{
    reveal_strlit("product_id");
    reveal_strlit("meter_id");
    reveal_strlit("model_id");
    assert("product_id"@.len() == 10);
    assert("meter_id"@.len() == 8 && "meter_id"@[1] == 'e');
    assert("model_id"@.len() == 8 && "model_id"@[1] == 'o');
    let f = p.filters[i];
    assert(may_pass(m, f));
    if f.field == "product_id"@ {
        lemma_shared(f, m.product_ids);
    }
    if f.field == "meter_id"@ {
        lemma_shared(f, m.meter_ids);
    }
    if f.field == "model_id"@ {
        lemma_shared(f, m.model_ids);
    }
    if let Some(a) = p.account_id {
        if let Some(least) = m.min_account_id {
            text::lemma_text_lt_total(a, least);
        }
        if let Some(greatest) = m.max_account_id {
            text::lemma_text_lt_total(greatest, a);
        }
    }
}

proof fn lemma_shared(f: plan::FilterModel, ids: Set<Seq<char>>)
    requires
        shares_value(f, ids),
    ensures
        exists|v: Seq<char>| f.values.contains(v) && ids.contains(v),
{
    let i = choose|i: int| 0 <= i < f.values.len() && ids.contains(#[trigger] f.values[i]);
    assert(f.values.contains(f.values[i]));
}

} // verus!
