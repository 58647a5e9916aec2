//! From the memtable to raw segments: the order of the rows, their distribution
//! over the buckets, and the description of a segment.

use vstd::prelude::*;

use crate::model::event;
use crate::model::event::{EventModel, UsageEvent};
use crate::model::ids::AccountId;
use crate::quantity;
use crate::quantity::saturating_plus;
use crate::query::reconcile;
use crate::rollup::totals;
use crate::storage::manifest::{MetaModel, SegmentKind, SegmentMeta};
use crate::text;
use crate::text::str_less;
use crate::textset::TextSet;

verus! {

/// The earliest time of events, or the greatest number where there are none.
pub open spec fn earliest(events: Seq<EventModel>) -> i64
    decreases events.len(),
{
    if events.len() == 0 {
        i64::MAX
    } else {
        let before = earliest(events.drop_last());
        if events.last().timestamp_ms < before {
            events.last().timestamp_ms
        } else {
            before
        }
    }
}

/// The latest time of events, or the least number where there are none.
pub open spec fn latest(events: Seq<EventModel>) -> i64
    decreases events.len(),
{
    if events.len() == 0 {
        i64::MIN
    } else {
        let before = latest(events.drop_last());
        if events.last().timestamp_ms > before {
            events.last().timestamp_ms
        } else {
            before
        }
    }
}

/// The lesser of a text and one that may be missing.
pub open spec fn lesser(a: Option<Seq<char>>, b: Seq<char>) -> Seq<char> {
    match a {
        Some(a) => if text::text_lt(b, a) {
            b
        } else {
            a
        },
        None => b,
    }
}

/// The greater of a text and one that may be missing.
pub open spec fn greater(a: Option<Seq<char>>, b: Seq<char>) -> Seq<char> {
    match a {
        Some(a) => if text::text_lt(a, b) {
            b
        } else {
            a
        },
        None => b,
    }
}

/// The first account of events, in the order of their names.
pub open spec fn first_account(events: Seq<EventModel>) -> Option<Seq<char>>
    decreases events.len(),
{
    if events.len() == 0 {
        None
    } else {
        Some(lesser(first_account(events.drop_last()), events.last().account_id))
    }
}

/// The last account of events, in the order of their names.
pub open spec fn last_account(events: Seq<EventModel>) -> Option<Seq<char>>
    decreases events.len(),
{
    if events.len() == 0 {
        None
    } else {
        Some(greater(last_account(events.drop_last()), events.last().account_id))
    }
}

/// The quantities of events, added up one by one, each time kept within bounds.
pub open spec fn quantity_total(events: Seq<EventModel>) -> int
    decreases events.len(),
{
    if events.len() == 0 {
        0
    } else {
        quantity::bounded(quantity_total(events.drop_last()) + events.last().quantity)
    }
}

pub open spec fn products(events: Seq<EventModel>) -> Set<Seq<char>> {
    Set::new(
        |k: Seq<char>| exists|i: int| 0 <= i < events.len() && (#[trigger] events[i]).product_id == k,
    )
}

pub open spec fn meters(events: Seq<EventModel>) -> Set<Seq<char>> {
    Set::new(
        |k: Seq<char>| exists|i: int| 0 <= i < events.len() && (#[trigger] events[i]).meter_id == k,
    )
}

pub open spec fn models(events: Seq<EventModel>) -> Set<Seq<char>> {
    Set::new(
        |k: Seq<char>|
            exists|i: int| 0 <= i < events.len() && (#[trigger] events[i]).model_id == Some(k),
    )
}

/// The description of a raw segment that holds `events`.
pub open spec fn segment_meta(
    segment_id: Seq<char>,
    events: Seq<EventModel>,
    bucket: u32,
    checksum: u64,
) -> MetaModel {
    MetaModel {
        segment_id,
        kind: SegmentKind::Raw,
        min_timestamp_ms: if earliest(events) == i64::MAX {
            0
        } else {
            earliest(events)
        },
        max_timestamp_ms: if latest(events) == i64::MIN {
            0
        } else {
            latest(events)
        },
        bucket,
        row_count: events.len() as u64,
        min_account_id: first_account(events),
        max_account_id: last_account(events),
        product_ids: products(events),
        meter_ids: meters(events),
        model_ids: models(events),
        quantity_sum: Some(quantity_total(events) as i128),
        checksum,
        input_segment_ids: Seq::empty(),
    }
}

pub proof fn lemma_quantity_total_bound(events: Seq<EventModel>)
    ensures
        i128::MIN <= quantity_total(events) <= i128::MAX,
    decreases events.len(),
{
    if events.len() > 0 {
        lemma_quantity_total_bound(events.drop_last());
    }
}

proof fn lemma_sets_push(events: Seq<EventModel>, e: EventModel)
    ensures
        products(events.push(e)) == products(events).insert(e.product_id),
        meters(events.push(e)) == meters(events).insert(e.meter_id),
        e.model_id is None ==> models(events.push(e)) == models(events),
        e.model_id matches Some(m) ==> models(events.push(e)) == models(events).insert(m),
{
    let after = events.push(e);
    assert(after[events.len() as int] == e);
    assert forall|i: int| 0 <= i < events.len() implies after[i] == events[i] by {}
    assert forall|k: Seq<char>|
        products(after).contains(k) == products(events).insert(e.product_id).contains(k) by {
        if products(after).contains(k) {
            let i = choose|i: int| 0 <= i < after.len() && (#[trigger] after[i]).product_id == k;
            if i < events.len() {
                assert(events[i].product_id == k);
            }
        }
        if products(events).contains(k) {
            let i = choose|i: int| 0 <= i < events.len() && (#[trigger] events[i]).product_id == k;
            assert(after[i].product_id == k);
        }
    }
    assert(products(after) =~= products(events).insert(e.product_id));
    assert forall|k: Seq<char>|
        meters(after).contains(k) == meters(events).insert(e.meter_id).contains(k) by {
        if meters(after).contains(k) {
            let i = choose|i: int| 0 <= i < after.len() && (#[trigger] after[i]).meter_id == k;
            if i < events.len() {
                assert(events[i].meter_id == k);
            }
        }
        if meters(events).contains(k) {
            let i = choose|i: int| 0 <= i < events.len() && (#[trigger] events[i]).meter_id == k;
            assert(after[i].meter_id == k);
        }
    }
    assert(meters(after) =~= meters(events).insert(e.meter_id));
    assert forall|k: Seq<char>|
        models(after).contains(k) == (models(events).contains(k) || e.model_id == Some(k)) by {
        if models(after).contains(k) {
            let i = choose|i: int| 0 <= i < after.len() && (#[trigger] after[i]).model_id == Some(k);
            if i < events.len() {
                assert(events[i].model_id == Some(k));
            }
        }
        if models(events).contains(k) {
            let i = choose|i: int|
                0 <= i < events.len() && (#[trigger] events[i]).model_id == Some(k);
            assert(after[i].model_id == Some(k));
        }
    }
    if let Some(m) = e.model_id {
        assert(models(after) =~= models(events).insert(m));
    } else {
        assert(models(after) =~= models(events));
    }
}

/// `current`, or `account` where that comes first.
pub(crate) fn least_account(current: Option<String>, account: &String) -> (r: Option<String>)
    ensures
        text::option_view(r) == Some(lesser(text::option_view(current), account@)),
{
    match current {
        Some(c) => if str_less(account.as_str(), c.as_str()) {
            Some(account.clone())
        } else {
            Some(c)
        },
        None => Some(account.clone()),
    }
}

/// `current`, or `account` where that comes last.
pub(crate) fn greatest_account(current: Option<String>, account: &String) -> (r: Option<String>)
    ensures
        text::option_view(r) == Some(greater(text::option_view(current), account@)),
{
    match current {
        Some(c) => if str_less(c.as_str(), account.as_str()) {
            Some(account.clone())
        } else {
            Some(c)
        },
        None => Some(account.clone()),
    }
}

/// An account identifier out of its name.
pub(crate) fn account_of(name: Option<String>) -> (r: Option<AccountId>)
    ensures
        crate::storage::manifest::account_view(r) == text::option_view(name),
{
    match name {
        Some(n) => Some(AccountId(n)),
        None => None,
    }
}

/// Builds the description of a segment that holds `batch`.
pub fn build_segment_meta(
    segment_id: &str,
    batch: &[UsageEvent],
    bucket: u32,
    checksum: u64,
) -> (r: SegmentMeta)
    ensures
        r@ == segment_meta(segment_id@, event::event_views(batch@), bucket, checksum),
{
    let ghost all = event::event_views(batch@);
    let mut min_ts: i64 = i64::MAX;
    let mut max_ts: i64 = i64::MIN;
    let mut min_account: Option<String> = None;
    let mut max_account: Option<String> = None;
    let mut product_ids = TextSet::new();
    let mut meter_ids = TextSet::new();
    let mut model_ids = TextSet::new();
    let mut quantity_sum: i128 = 0;
    assert(products(all.take(0)) =~= Set::empty());
    assert(meters(all.take(0)) =~= Set::empty());
    assert(models(all.take(0)) =~= Set::empty());
    for i in 0..batch.len()
        invariant
            all == event::event_views(batch@),
            min_ts == earliest(all.take(i as int)),
            max_ts == latest(all.take(i as int)),
            text::option_view(min_account) == first_account(all.take(i as int)),
            text::option_view(max_account) == last_account(all.take(i as int)),
            product_ids@ == products(all.take(i as int)),
            meter_ids@ == meters(all.take(i as int)),
            model_ids@ == models(all.take(i as int)),
            quantity_sum == quantity_total(all.take(i as int)),
    {
        let e = &batch[i];
        let ghost upto = all.take(i + 1);
        assert(upto.drop_last() =~= all.take(i as int));
        assert(upto =~= all.take(i as int).push(e@));
        proof {
            lemma_sets_push(all.take(i as int), e@);
        }
        if e.timestamp_ms < min_ts {
            min_ts = e.timestamp_ms;
        }
        if e.timestamp_ms > max_ts {
            max_ts = e.timestamp_ms;
        }
        min_account = least_account(min_account, &e.account_id.0);
        max_account = greatest_account(max_account, &e.account_id.0);
        product_ids.insert(e.product_id.0.clone());
        meter_ids.insert(e.meter_id.0.clone());
        if let Some(m) = &e.model_id {
            model_ids.insert(m.0.clone());
        }
        quantity_sum = saturating_plus(quantity_sum, e.quantity);
    }
    assert(all.take(batch@.len() as int) =~= all);
    let meta = SegmentMeta {
        segment_id: segment_id.to_owned(),
        kind: SegmentKind::Raw,
        min_timestamp_ms: if min_ts == i64::MAX {
            0
        } else {
            min_ts
        },
        max_timestamp_ms: if max_ts == i64::MIN {
            0
        } else {
            max_ts
        },
        bucket,
        row_count: batch.len() as u64,
        min_account_id: account_of(min_account),
        max_account_id: account_of(max_account),
        product_ids,
        meter_ids,
        model_ids,
        quantity_sum: Some(quantity_sum),
        checksum,
        input_segment_ids: Vec::new(),
    };
    assert(meta@.input_segment_ids =~= Seq::empty());
    meta
}

// ---------------------------------------------------------------------------
// The order of rows
// ---------------------------------------------------------------------------

/// No model comes before any model.
pub open spec fn model_lt(a: Option<Seq<char>>, b: Option<Seq<char>>) -> bool {
    match (a, b) {
        (None, Some(_)) => true,
        (Some(x), Some(y)) => text::text_lt(x, y),
        _ => false,
    }
}

/// The order in which rows are kept: by account, product, meter, model and time.
pub open spec fn canonical_lt(a: EventModel, b: EventModel) -> bool {
    if a.account_id != b.account_id {
        text::text_lt(a.account_id, b.account_id)
    } else if a.product_id != b.product_id {
        text::text_lt(a.product_id, b.product_id)
    } else if a.meter_id != b.meter_id {
        text::text_lt(a.meter_id, b.meter_id)
    } else if a.model_id != b.model_id {
        model_lt(a.model_id, b.model_id)
    } else {
        a.timestamp_ms < b.timestamp_ms
    }
}

/// Row `x` comes before row `y`: by the canonical order, and among rows that
/// this order does not tell apart, by their places.
pub open spec fn row_before(events: Seq<EventModel>, x: int, y: int) -> bool {
    canonical_lt(events[x], events[y]) || (!canonical_lt(events[y], events[x]) && x < y)
}

/// `order` lists the places of rows in the canonical order. Rows that it does
/// not tell apart keep their order.
pub open spec fn in_canonical_order(order: Seq<int>, events: Seq<EventModel>) -> bool {
    &&& forall|i: int| 0 <= i < order.len() ==> 0 <= #[trigger] order[i] < events.len()
    &&& forall|i: int, j: int|
        0 <= i < j < order.len() ==> row_before(events, #[trigger] order[i], #[trigger] order[j])
}

/// The rows at the given places.
pub open spec fn rows_at(events: Seq<EventModel>, order: Seq<int>) -> Seq<EventModel> {
    order.map_values(|x: int| events[x])
}

proof fn lemma_model_lt(a: Option<Seq<char>>, b: Option<Seq<char>>, c: Option<Seq<char>>)
    ensures
        !model_lt(a, a),
        a != b ==> model_lt(a, b) || model_lt(b, a),
        model_lt(a, b) && model_lt(b, c) ==> model_lt(a, c),
{
    if let Some(x) = a {
        text::lemma_text_lt_irreflexive(x);
        if let Some(y) = b {
            text::lemma_text_lt_total(x, y);
            if let Some(z) = c {
                if text::text_lt(x, y) && text::text_lt(y, z) {
                    text::lemma_text_lt_transitive(x, y, z);
                }
            }
        }
    }
}

proof fn lemma_text_order(a: Seq<char>, b: Seq<char>, c: Seq<char>)
    ensures
        !text::text_lt(a, a),
        a != b ==> text::text_lt(a, b) || text::text_lt(b, a),
        text::text_lt(a, b) && text::text_lt(b, c) ==> text::text_lt(a, c),
{
    text::lemma_text_lt_irreflexive(a);
    text::lemma_text_lt_total(a, b);
    if text::text_lt(a, b) && text::text_lt(b, c) {
        text::lemma_text_lt_transitive(a, b, c);
    }
}

proof fn lemma_canonical_order(a: EventModel, b: EventModel, c: EventModel)
    ensures
        !canonical_lt(a, a),
        canonical_lt(a, b) && canonical_lt(b, c) ==> canonical_lt(a, c),
        canonical_lt(a, b) && !canonical_lt(c, b) ==> canonical_lt(a, c),
        !canonical_lt(b, a) && canonical_lt(b, c) ==> canonical_lt(a, c),
        !canonical_lt(b, a) && !canonical_lt(c, b) ==> !canonical_lt(c, a),
{
    lemma_text_order(a.account_id, b.account_id, c.account_id);
    lemma_text_order(b.account_id, c.account_id, a.account_id);
    lemma_text_order(c.account_id, a.account_id, b.account_id);
    lemma_text_order(a.account_id, c.account_id, b.account_id);
    lemma_text_order(a.product_id, b.product_id, c.product_id);
    lemma_text_order(b.product_id, c.product_id, a.product_id);
    lemma_text_order(c.product_id, a.product_id, b.product_id);
    lemma_text_order(a.product_id, c.product_id, b.product_id);
    lemma_text_order(a.meter_id, b.meter_id, c.meter_id);
    lemma_text_order(b.meter_id, c.meter_id, a.meter_id);
    lemma_text_order(c.meter_id, a.meter_id, b.meter_id);
    lemma_text_order(a.meter_id, c.meter_id, b.meter_id);
    lemma_model_lt(a.model_id, b.model_id, c.model_id);
    lemma_model_lt(b.model_id, c.model_id, a.model_id);
    lemma_model_lt(c.model_id, a.model_id, b.model_id);
    lemma_model_lt(a.model_id, c.model_id, b.model_id);
}

proof fn lemma_row_before_transitive(events: Seq<EventModel>, x: int, y: int, z: int)
    requires
        row_before(events, x, y),
        row_before(events, y, z),
    ensures
        row_before(events, x, z),
{
    lemma_canonical_order(events[x], events[y], events[z]);
}

fn model_less(a: &UsageEvent, b: &UsageEvent) -> (r: bool)
    ensures
        r == model_lt(a@.model_id, b@.model_id),
{
    match (&a.model_id, &b.model_id) {
        (None, Some(_)) => true,
        (Some(x), Some(y)) => str_less(x.0.as_str(), y.0.as_str()),
        _ => false,
    }
}

fn canonical_less(a: &UsageEvent, b: &UsageEvent) -> (r: bool)
    ensures
        r == canonical_lt(a@, b@),
{
    proof {
        lemma_text_order(a@.account_id, b@.account_id, b@.account_id);
        lemma_text_order(b@.account_id, a@.account_id, a@.account_id);
        lemma_text_order(a@.product_id, b@.product_id, b@.product_id);
        lemma_text_order(b@.product_id, a@.product_id, a@.product_id);
        lemma_text_order(a@.meter_id, b@.meter_id, b@.meter_id);
        lemma_text_order(b@.meter_id, a@.meter_id, a@.meter_id);
        lemma_model_lt(a@.model_id, b@.model_id, b@.model_id);
        lemma_model_lt(b@.model_id, a@.model_id, a@.model_id);
        lemma_canonical_order(a@, b@, a@);
    }
    if str_less(a.account_id.0.as_str(), b.account_id.0.as_str()) {
        return true;
    }
    if str_less(b.account_id.0.as_str(), a.account_id.0.as_str()) {
        return false;
    }
    if str_less(a.product_id.0.as_str(), b.product_id.0.as_str()) {
        return true;
    }
    if str_less(b.product_id.0.as_str(), a.product_id.0.as_str()) {
        return false;
    }
    if str_less(a.meter_id.0.as_str(), b.meter_id.0.as_str()) {
        return true;
    }
    if str_less(b.meter_id.0.as_str(), a.meter_id.0.as_str()) {
        return false;
    }
    if model_less(a, b) {
        return true;
    }
    if model_less(b, a) {
        return false;
    }
    a.timestamp_ms < b.timestamp_ms
}

pub open spec fn places(order: Seq<usize>) -> Seq<int> {
    order.map_values(|x: usize| x as int)
}

/// Merges two lists of places, each in order, all places of the first being
/// before those of the second.
fn merge(events: &Vec<UsageEvent>, a: &Vec<usize>, b: &Vec<usize>, split: usize) -> (out: Vec<
    usize,
>)
    requires
        in_canonical_order(places(a@), event::event_views(events@)),
        in_canonical_order(places(b@), event::event_views(events@)),
        forall|i: int| 0 <= i < a@.len() ==> #[trigger] a@[i] < split,
        forall|i: int| 0 <= i < b@.len() ==> split <= #[trigger] b@[i],
    ensures
        in_canonical_order(places(out@), event::event_views(events@)),
        rows_at(event::event_views(events@), places(out@)).to_multiset() == rows_at(
            event::event_views(events@),
            places(a@),
        ).to_multiset().add(rows_at(event::event_views(events@), places(b@)).to_multiset()),
        out@.len() == a@.len() + b@.len(),
        forall|i: int|
            0 <= i < out@.len() ==> a@.contains(#[trigger] out@[i]) || b@.contains(out@[i]),
{
    let ghost all = event::event_views(events@);
    let mut out: Vec<usize> = Vec::new();
    let mut i: usize = 0;
    let mut j: usize = 0;
    proof {
        assert(rows_at(all, places(a@.take(0))) =~= Seq::empty());
        assert(rows_at(all, places(b@.take(0))) =~= Seq::empty());
        assert(rows_at(all, places(out@)) =~= Seq::empty());
        broadcast use vstd::seq_lib::group_to_multiset_ensures;

        assert(Seq::<EventModel>::empty().to_multiset() =~= Seq::<EventModel>::empty().to_multiset().add(
            Seq::<EventModel>::empty().to_multiset(),
        ));
    }
    while i < a.len() || j < b.len()
        invariant
            all == event::event_views(events@),
            i <= a@.len(),
            j <= b@.len(),
            out@.len() == i + j,
            in_canonical_order(places(a@), all),
            in_canonical_order(places(b@), all),
            in_canonical_order(places(out@), all),
            forall|x: int| 0 <= x < a@.len() ==> #[trigger] a@[x] < split,
            forall|x: int| 0 <= x < b@.len() ==> split <= #[trigger] b@[x],
            forall|x: int, y: int|
                0 <= x < out@.len() && i <= y < a@.len() ==> row_before(
                    all,
                    #[trigger] out@[x] as int,
                    #[trigger] a@[y] as int,
                ),
            forall|x: int, y: int|
                0 <= x < out@.len() && j <= y < b@.len() ==> row_before(
                    all,
                    #[trigger] out@[x] as int,
                    #[trigger] b@[y] as int,
                ),
            forall|x: int|
                0 <= x < out@.len() ==> a@.contains(#[trigger] out@[x]) || b@.contains(out@[x]),
            rows_at(all, places(out@)).to_multiset() == rows_at(
                all,
                places(a@.take(i as int)),
            ).to_multiset().add(rows_at(all, places(b@.take(j as int))).to_multiset()),
        decreases a@.len() - i + b@.len() - j,
    {
        let take_left = if i == a.len() {
            false
        } else if j == b.len() {
            true
        } else {
            let x: usize = a[i];
            let y: usize = b[j];
            assert(places(a@)[i as int] == x);
            assert(places(b@)[j as int] == y);
            !canonical_less(&events[y], &events[x])
        };
        let ghost before = out@;
        let ghost next: int;
        if take_left {
            proof {
                next = a@[i as int] as int;
                assert forall|y: int| j <= y < b@.len() implies row_before(
                    all,
                    next,
                    #[trigger] b@[y] as int,
                ) by {
                    assert(places(b@)[j as int] == b@[j as int]);
                    assert(places(b@)[y] == b@[y]);
                    assert(row_before(all, next, b@[j as int] as int));
                    if y > j {
                        lemma_row_before_transitive(all, next, b@[j as int] as int, b@[y] as int);
                    }
                }
                assert forall|y: int| i < y < a@.len() implies row_before(
                    all,
                    next,
                    #[trigger] a@[y] as int,
                ) by {
                    assert(places(a@)[i as int] == a@[i as int]);
                    assert(places(a@)[y] == a@[y]);
                }
                lemma_step(all, a@, i as int);
                assert(a@.contains(a@[i as int]));
            }
            out.push(a[i]);
            i = i + 1;
        } else {
            proof {
                next = b@[j as int] as int;
                assert forall|y: int| i <= y < a@.len() implies row_before(
                    all,
                    next,
                    #[trigger] a@[y] as int,
                ) by {
                    assert(places(a@)[i as int] == a@[i as int]);
                    assert(places(a@)[y] == a@[y]);
                    assert(row_before(all, next, a@[i as int] as int));
                    if y > i {
                        lemma_row_before_transitive(all, next, a@[i as int] as int, a@[y] as int);
                    }
                }
                assert forall|y: int| j < y < b@.len() implies row_before(
                    all,
                    next,
                    #[trigger] b@[y] as int,
                ) by {
                    assert(places(b@)[j as int] == b@[j as int]);
                    assert(places(b@)[y] == b@[y]);
                }
                lemma_step(all, b@, j as int);
                assert(b@.contains(b@[j as int]));
            }
            out.push(b[j]);
            j = j + 1;
        }
        proof {
            let after = out@;
            assert(places(after) =~= places(before).push(next));
            assert(rows_at(all, places(after)) =~= rows_at(all, places(before)).push(all[next]));
            assert forall|x: int, y: int| 0 <= x < y < after.len() implies row_before(
                all,
                #[trigger] places(after)[x],
                #[trigger] places(after)[y],
            ) by {
                if y < before.len() {
                    assert(places(before)[x] == places(after)[x]);
                    assert(places(before)[y] == places(after)[y]);
                } else {
                    assert(after[x] == before[x]);
                }
            }
            assert forall|x: int| 0 <= x < after.len() implies 0 <= #[trigger] places(after)[x]
                < all.len() by {
                if x < before.len() {
                    assert(places(before)[x] == places(after)[x]);
                } else {
                    if take_left {
                        assert(places(a@)[i - 1] == next);
                    } else {
                        assert(places(b@)[j - 1] == next);
                    }
                }
            }
            vstd::seq_lib::to_multiset_build(rows_at(all, places(before)), all[next]);
            assert(rows_at(all, places(after)).to_multiset() =~= rows_at(
                all,
                places(a@.take(i as int)),
            ).to_multiset().add(rows_at(all, places(b@.take(j as int))).to_multiset()));
        }
    }
    assert(a@.take(a@.len() as int) =~= a@);
    assert(b@.take(b@.len() as int) =~= b@);
    out
}

proof fn lemma_step(all: Seq<EventModel>, order: Seq<usize>, i: int)
    requires
        0 <= i < order.len(),
    ensures
        rows_at(all, places(order.take(i + 1))).to_multiset() == rows_at(
            all,
            places(order.take(i)),
        ).to_multiset().insert(all[order[i] as int]),
{
    assert(rows_at(all, places(order.take(i + 1))) =~= rows_at(all, places(order.take(i))).push(
        all[order[i] as int],
    ));
    vstd::seq_lib::to_multiset_build(
        rows_at(all, places(order.take(i))),
        all[order[i] as int],
    );
}

/// The places `lo..hi` in the canonical order of their rows.
fn ordered_places(events: &Vec<UsageEvent>, lo: usize, hi: usize) -> (out: Vec<usize>)
    requires
        lo <= hi <= events@.len(),
    ensures
        in_canonical_order(places(out@), event::event_views(events@)),
        rows_at(event::event_views(events@), places(out@)).to_multiset() == event::event_views(
            events@,
        ).subrange(lo as int, hi as int).to_multiset(),
        out@.len() == hi - lo,
        forall|i: int| 0 <= i < out@.len() ==> lo <= #[trigger] out@[i] < hi,
    decreases hi - lo,
{
    let ghost all = event::event_views(events@);
    if hi - lo == 0 {
        let out: Vec<usize> = Vec::new();
        assert(rows_at(all, places(out@)) =~= all.subrange(lo as int, hi as int));
        out
    } else if hi - lo == 1 {
        let mut out: Vec<usize> = Vec::new();
        out.push(lo);
        assert(rows_at(all, places(out@)) =~= all.subrange(lo as int, hi as int));
        out
    } else {
        let mid: usize = lo + (hi - lo) / 2;
        let left = ordered_places(events, lo, mid);
        let right = ordered_places(events, mid, hi);
        let out = merge(events, &left, &right, mid);
        proof {
            let l = all.subrange(lo as int, mid as int);
            let r = all.subrange(mid as int, hi as int);
            assert(l + r =~= all.subrange(lo as int, hi as int));
            vstd::seq_lib::lemma_multiset_commutative(l, r);
            assert forall|i: int| 0 <= i < out@.len() implies lo <= #[trigger] out@[i] < hi by {
                if left@.contains(out@[i]) {
                    let k = choose|k: int| 0 <= k < left@.len() && left@[k] == out@[i];
                    assert(lo <= left@[k] < mid);
                } else {
                    let k = choose|k: int| 0 <= k < right@.len() && right@[k] == out@[i];
                    assert(mid <= right@[k] < hi);
                }
            }
        }
        out
    }
}

/// `after` is `before` in the canonical order.
pub open spec fn is_canonical_sort(before: Seq<EventModel>, after: Seq<EventModel>) -> bool {
    exists|order: Seq<int>|
        #![trigger rows_at(before, order)]
        order.len() == before.len() && in_canonical_order(order, before) && after == rows_at(
            before,
            order,
        )
}

/// Puts events into the canonical order: by account, product, meter, model and
/// time. Events that this does not tell apart keep their order.
pub fn sort_events_canonical(events: &mut Vec<UsageEvent>)
    ensures
        is_canonical_sort(event::event_views(old(events)@), event::event_views(final(events)@)),
        event::event_views(final(events)@).to_multiset() == event::event_views(
            old(events)@,
        ).to_multiset(),
{
    let ghost all = event::event_views(events@);
    let order = ordered_places(events, 0, events.len());
    let mut sorted: Vec<UsageEvent> = Vec::new();
    let ghost wanted = rows_at(all, places(order@));
    for i in 0..order.len()
        invariant
            all == event::event_views(events@),
            wanted == rows_at(all, places(order@)),
            forall|x: int| 0 <= x < order@.len() ==> #[trigger] order@[x] < events@.len(),
            event::event_views(sorted@) == wanted.take(i as int),
    {
        let e = events[order[i]].clone();
        proof {
            event::lemma_views_push(sorted@, e);
            assert(wanted[i as int] == all[order@[i as int] as int]);
            assert(all[order@[i as int] as int] == events@[order@[i as int] as int]@);
        }
        sorted.push(e);
        assert(wanted.take(i + 1) =~= wanted.take(i as int).push(wanted[i as int]));
    }
    proof {
        assert(wanted.take(order@.len() as int) =~= wanted);
        assert(all.subrange(0, all.len() as int) =~= all);
        assert(places(order@).len() == all.len());
    }
    *events = sorted;
}

/// The description of a raw segment is what it was given, with the number of its events,
/// the products, meters and models that occur in them and no others, the first and the
/// last of their accounts and of their times, and the sum of their quantities. (The
/// quantities must fit: their sum without signs is at most the greatest quantity. The
/// times are neither the first nor the last that there is.)
pub proof fn law_descriptions_of_segments(
    segment_id: Seq<char>,
    events: Seq<EventModel>,
    bucket: u32,
    checksum: u64,
    name: Seq<char>,
)
    requires
        events.len() <= u64::MAX,
        forall|i: int|
            0 <= i < events.len() ==> i64::MIN < (#[trigger] events[i]).timestamp_ms < i64::MAX,
    ensures
        ({
            let meta = segment_meta(segment_id, events, bucket, checksum);
            &&& meta.segment_id == segment_id
            &&& meta.kind == SegmentKind::Raw
            &&& meta.bucket == bucket
            &&& meta.row_count == events.len()
            &&& meta.checksum == checksum
            &&& meta.input_segment_ids.len() == 0
            &&& meta.product_ids.contains(name) <==> exists|i: int|
                0 <= i < events.len() && (#[trigger] events[i]).product_id == name
            &&& meta.meter_ids.contains(name) <==> exists|i: int|
                0 <= i < events.len() && (#[trigger] events[i]).meter_id == name
            &&& meta.model_ids.contains(name) <==> exists|i: int|
                0 <= i < events.len() && (#[trigger] events[i]).model_id == Some(name)
            &&& forall|i: int|
                0 <= i < events.len() ==> {
                    &&& meta.min_timestamp_ms <= (#[trigger] events[i]).timestamp_ms
                        <= meta.max_timestamp_ms
                    &&& meta.min_account_id is Some
                    &&& meta.max_account_id is Some
                    &&& text::text_le(meta.min_account_id->0, events[i].account_id)
                    &&& text::text_le(events[i].account_id, meta.max_account_id->0)
                }
            &&& events.len() > 0 ==> exists|i: int|
                0 <= i < events.len() && (#[trigger] events[i]).timestamp_ms
                    == meta.min_timestamp_ms
            &&& events.len() > 0 ==> exists|i: int|
                0 <= i < events.len() && (#[trigger] events[i]).timestamp_ms
                    == meta.max_timestamp_ms
            &&& events.len() > 0 ==> exists|i: int|
                0 <= i < events.len() && meta.min_account_id == Some(
                    (#[trigger] events[i]).account_id,
                )
            &&& events.len() > 0 ==> exists|i: int|
                0 <= i < events.len() && meta.max_account_id == Some(
                    (#[trigger] events[i]).account_id,
                )
            &&& reconcile::turnover(events) <= i128::MAX ==> meta.quantity_sum == Some(
                totals::event_total(events) as i128,
            )
        }),
{
    lemma_bounds_of_times(events);
    lemma_bounds_of_accounts(events);
    lemma_sum_of_quantities(events);
}

proof fn lemma_sum_of_quantities(events: Seq<EventModel>)
    ensures
        reconcile::magnitude(totals::event_total(events)) <= reconcile::turnover(events),
        reconcile::turnover(events) <= i128::MAX ==> quantity_total(events) == totals::event_total(
            events,
        ),
    decreases events.len(),
{
    if events.len() > 0 {
        lemma_sum_of_quantities(events.drop_last());
    }
}

proof fn lemma_bounds_of_times(events: Seq<EventModel>)
    ensures
        forall|i: int|
            0 <= i < events.len() ==> earliest(events) <= (#[trigger] events[i]).timestamp_ms
                <= latest(events),
        events.len() > 0 ==> exists|i: int|
            0 <= i < events.len() && (#[trigger] events[i]).timestamp_ms == earliest(events),
        events.len() > 0 ==> exists|i: int|
            0 <= i < events.len() && (#[trigger] events[i]).timestamp_ms == latest(events),
    decreases events.len(),
{
    if events.len() > 0 {
        let init = events.drop_last();
        lemma_bounds_of_times(init);
        assert(events[events.len() - 1] == events.last());
        assert forall|i: int| 0 <= i < events.len() implies earliest(events) <= (
        #[trigger] events[i]).timestamp_ms <= latest(events) by {
            if i < init.len() {
                assert(events[i] == init[i]);
            }
        }
        if init.len() > 0 {
            let x = choose|x: int|
                0 <= x < init.len() && (#[trigger] init[x]).timestamp_ms == earliest(init);
            assert(events[x] == init[x]);
            let y = choose|y: int|
                0 <= y < init.len() && (#[trigger] init[y]).timestamp_ms == latest(init);
            assert(events[y] == init[y]);
        }
    }
}

proof fn lemma_bounds_of_accounts(events: Seq<EventModel>)
    ensures
        events.len() > 0 ==> first_account(events) is Some && last_account(events) is Some,
        forall|i: int|
            0 <= i < events.len() ==> text::text_le(
                first_account(events)->0,
                (#[trigger] events[i]).account_id,
            ) && text::text_le(events[i].account_id, last_account(events)->0),
        events.len() > 0 ==> exists|i: int|
            0 <= i < events.len() && first_account(events) == Some(
                (#[trigger] events[i]).account_id,
            ),
        events.len() > 0 ==> exists|i: int|
            0 <= i < events.len() && last_account(events) == Some((#[trigger] events[i]).account_id),
    decreases events.len(),
{
    if events.len() > 0 {
        let init = events.drop_last();
        let last = events.last().account_id;
        lemma_bounds_of_accounts(init);
        assert(events[events.len() - 1].account_id == last);
        let lo = first_account(events)->0;
        let hi = last_account(events)->0;
        if init.len() > 0 {
            let a = first_account(init)->0;
            let z = last_account(init)->0;
            text::lemma_text_lt_total(a, last);
            text::lemma_text_lt_total(z, last);
            let x = choose|x: int|
                0 <= x < init.len() && first_account(init) == Some((#[trigger] init[x]).account_id);
            assert(events[x] == init[x]);
            let y = choose|y: int|
                0 <= y < init.len() && last_account(init) == Some((#[trigger] init[y]).account_id);
            assert(events[y] == init[y]);
            assert forall|i: int| 0 <= i < events.len() implies text::text_le(
                lo,
                (#[trigger] events[i]).account_id,
            ) && text::text_le(events[i].account_id, hi) by {
                if i < init.len() {
                    assert(events[i] == init[i]);
                    let v = init[i].account_id;
                    if lo != a && a != v {
                        text::lemma_text_lt_transitive(lo, a, v);
                    }
                    if hi != z && z != v {
                        text::lemma_text_lt_transitive(v, z, hi);
                    }
                }
            }
        }
    }
}

/// Rows in the canonical order: of two rows, the one of the lesser account comes first;
/// of one account, that of the lesser product; of one product, that of the lesser
/// meter; of one meter, that without a model before those with one, and these by their
/// models; of one model, the earlier.
pub proof fn law_rows_are_sorted(
    before: Seq<EventModel>,
    after: Seq<EventModel>,
    i: int,
    j: int,
)
    requires
        is_canonical_sort(before, after),
        0 <= i < j < after.len(),
    ensures
        after.len() == before.len(),
        ({
            let (a, b) = (after[i], after[j]);
            &&& text::text_le(a.account_id, b.account_id)
            &&& a.account_id == b.account_id ==> {
                &&& text::text_le(a.product_id, b.product_id)
                &&& a.product_id == b.product_id ==> {
                    &&& text::text_le(a.meter_id, b.meter_id)
                    &&& a.meter_id == b.meter_id ==> {
                        &&& a.model_id is Some ==> b.model_id is Some && text::text_le(
                            a.model_id->0,
                            b.model_id->0,
                        )
                        &&& a.model_id == b.model_id ==> a.timestamp_ms <= b.timestamp_ms
                    }
                }
            }
        }),
{
    let order = choose|order: Seq<int>|
        #![trigger rows_at(before, order)]
        order.len() == before.len() && in_canonical_order(order, before) && after == rows_at(
            before,
            order,
        );
    let (a, b) = (after[i], after[j]);
    assert(a == before[order[i]] && b == before[order[j]]);
    assert(row_before(before, order[i], order[j]));
    text::lemma_text_lt_total(a.account_id, b.account_id);
    text::lemma_text_lt_total(a.product_id, b.product_id);
    text::lemma_text_lt_total(a.meter_id, b.meter_id);
    if a.model_id is Some && b.model_id is Some {
        text::lemma_text_lt_total(a.model_id->0, b.model_id->0);
    }
}

} // verus!
