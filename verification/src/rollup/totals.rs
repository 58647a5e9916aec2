//! What rollup rows add up to, and that the order of their events does not matter.

use vstd::prelude::*;

use crate::hours;
use crate::hours::HOUR_MS;
use crate::model::event::EventModel;
use crate::rollup::builder;
use crate::rollup::hourly::{KeyModel, RecordModel};

verus! {

// ---------------------------------------------------------------------------
// Sums
// ---------------------------------------------------------------------------

/// The quantities of events.
pub open spec fn event_total(events: Seq<EventModel>) -> int
    decreases events.len(),
{
    if events.len() == 0 {
        0
    } else {
        event_total(events.drop_last()) + events.last().quantity
    }
}

/// The quantities of rows.
pub open spec fn quantity_total(records: Seq<RecordModel>) -> int
    decreases records.len(),
{
    if records.len() == 0 {
        0
    } else {
        quantity_total(records.drop_last()) + records.last().quantity_sum
    }
}

/// The events that rows count.
pub open spec fn count_total(records: Seq<RecordModel>) -> int
    decreases records.len(),
{
    if records.len() == 0 {
        0
    } else {
        count_total(records.drop_last()) + records.last().event_count
    }
}

/// The quantities of the events with the key `key`, whether or not they fit.
pub open spec fn exact_quantity(events: Seq<EventModel>, key: KeyModel) -> int
    decreases events.len(),
{
    if events.len() == 0 {
        0
    } else {
        exact_quantity(events.drop_last(), key) + quantity_share(events.last(), key)
    }
}

/// What an event adds to the quantity of a key.
pub open spec fn quantity_share(e: EventModel, key: KeyModel) -> int {
    if builder::event_rollup_key(e) == key {
        e.quantity as int
    } else {
        0
    }
}

/// However far the events have been added up, the sum of each key fits.
pub open spec fn sums_fit(events: Seq<EventModel>) -> bool {
    forall|n: int, key: KeyModel|
        0 <= n <= events.len() ==> i128::MIN <= #[trigger] exact_quantity(events.take(n), key)
            <= i128::MAX
}

proof fn lemma_sums_fit_before(events: Seq<EventModel>)
    requires
        sums_fit(events),
        events.len() > 0,
    ensures
        sums_fit(events.drop_last()),
{
    let rest = events.drop_last();
    assert forall|n: int, key: KeyModel| 0 <= n <= rest.len() implies i128::MIN
        <= #[trigger] exact_quantity(rest.take(n), key) <= i128::MAX by {
        assert(rest.take(n) =~= events.take(n));
    }
}

/// Where sums fit, a row has the exact one.
proof fn lemma_exact(events: Seq<EventModel>, key: KeyModel)
    requires
        sums_fit(events),
    ensures
        builder::key_quantity(events, key) == exact_quantity(events, key),
        i128::MIN <= exact_quantity(events, key) <= i128::MAX,
    decreases events.len(),
{
    assert(events.take(events.len() as int) =~= events);
    assert(i128::MIN <= exact_quantity(events.take(events.len() as int), key) <= i128::MAX);
    if events.len() > 0 {
        lemma_sums_fit_before(events);
        lemma_exact(events.drop_last(), key);
    }
}

proof fn lemma_totals_update(records: Seq<RecordModel>, i: int, r: RecordModel)
    requires
        0 <= i < records.len(),
    ensures
        quantity_total(records.update(i, r)) == quantity_total(records) - records[i].quantity_sum
            + r.quantity_sum,
        count_total(records.update(i, r)) == count_total(records) - records[i].event_count
            + r.event_count,
    decreases records.len(),
{
    let after = records.update(i, r);
    if i == records.len() - 1 {
        assert(after.drop_last() =~= records.drop_last());
    } else {
        lemma_totals_update(records.drop_last(), i, r);
        assert(after.drop_last() =~= records.drop_last().update(i, r));
        assert(after.last() == records.last());
    }
}

proof fn lemma_key_count_bound(events: Seq<EventModel>, key: KeyModel)
    ensures
        builder::key_count(events, key) <= events.len(),
    decreases events.len(),
{
    if events.len() > 0 {
        lemma_key_count_bound(events.drop_last(), key);
    }
}

/// A key of some event is counted.
proof fn lemma_counted(events: Seq<EventModel>, i: int)
    requires
        0 <= i < events.len(),
    ensures
        builder::key_count(events, builder::event_rollup_key(events[i])) > 0,
    decreases events.len(),
{
    if i < events.len() - 1 {
        lemma_counted(events.drop_last(), i);
        assert(events.drop_last()[i] == events[i]);
    }
}

proof fn lemma_no_empty_row(events: Seq<EventModel>)
    ensures
        forall|i: int|
            0 <= i < builder::rollup_of(events).len() ==> (#[trigger] builder::rollup_of(
                events,
            )[i]).event_count > 0,
{
    let rows = builder::rollup_of(events);
    builder::law_rollup_of_rolls_up(events);
    assert forall|i: int| 0 <= i < rows.len() implies (#[trigger] rows[i]).event_count > 0 by {
        assert(builder::spans(rows[i], events));
        let k = choose|k: int|
            0 <= k < events.len() && builder::event_rollup_key(#[trigger] events[k]) == rows[i].key
                && events[k].timestamp_ms == rows[i].first_event_ms;
        lemma_counted(events, k);
    }
}

/// What one more event makes of the totals.
proof fn lemma_totals_with(records: Seq<RecordModel>, e: EventModel)
    ensures
        ({
            let place = builder::key_place(records, builder::event_rollup_key(e));
            let after = builder::with_event(records, e);
            if place < records.len() {
                let grown = builder::grown_record(records[place], e);
                &&& count_total(after) == count_total(records) - records[place].event_count
                    + grown.event_count
                &&& quantity_total(after) == quantity_total(records) - records[place].quantity_sum
                    + grown.quantity_sum
            } else {
                &&& count_total(after) == count_total(records) + 1
                &&& quantity_total(after) == quantity_total(records) + e.quantity
            }
        }),
{
    let key = builder::event_rollup_key(e);
    let place = builder::key_place(records, key);
    builder::lemma_key_place(records, key);
    if place < records.len() {
        lemma_totals_update(records, place, builder::grown_record(records[place], e));
    } else {
        assert(builder::with_event(records, e).drop_last() =~= records);
    }
}

proof fn lemma_count_total(events: Seq<EventModel>)
    requires
        events.len() <= u64::MAX,
    ensures
        count_total(builder::rollup_of(events)) == events.len(),
    decreases events.len(),
{
    if events.len() > 0 {
        let rest = events.drop_last();
        let before = builder::rollup_of(rest);
        let key = builder::event_rollup_key(events.last());
        lemma_count_total(rest);
        lemma_totals_with(before, events.last());
        builder::law_rollup_of_rolls_up(rest);
        builder::lemma_key_place(before, key);
        lemma_key_count_bound(rest, key);
        let place = builder::key_place(before, key);
        if place < before.len() {
            assert(before[place].event_count == builder::key_count(rest, key));
        }
    }
}

/// The rows of events count each of them once, and there is no row without an
/// event.
pub proof fn law_rows_count_every_event(events: Seq<EventModel>)
    requires
        events.len() <= u64::MAX,
    ensures
        count_total(builder::rollup_of(events)) == events.len(),
        forall|i: int|
            0 <= i < builder::rollup_of(events).len() ==> (#[trigger] builder::rollup_of(
                events,
            )[i]).event_count > 0,
{
    lemma_count_total(events);
    lemma_no_empty_row(events);
}

/// The quantities of the rows of events add up to those of the events. (However
/// far they have been added up, the sum of each row must fit.)
pub proof fn law_rows_sum_every_event(events: Seq<EventModel>)
    requires
        sums_fit(events),
    ensures
        quantity_total(builder::rollup_of(events)) == event_total(events),
    decreases events.len(),
{
    if events.len() > 0 {
        let rest = events.drop_last();
        let before = builder::rollup_of(rest);
        let key = builder::event_rollup_key(events.last());
        let place = builder::key_place(before, key);
        lemma_sums_fit_before(events);
        law_rows_sum_every_event(rest);
        lemma_totals_with(before, events.last());
        builder::law_rollup_of_rolls_up(rest);
        builder::lemma_key_place(before, key);
        if place < before.len() {
            lemma_exact(rest, key);
            lemma_exact(events, key);
            assert(before[place].quantity_sum == exact_quantity(rest, key));
        }
    }
}

/// A row begins at the start of an hour, and its first and last event lie in that
/// hour, in this order. (Times before the epoch count towards it: those of the hour
/// before it fall into the row that begins with it.)
pub proof fn law_rows_lie_in_their_hours(events: Seq<EventModel>, i: int)
    requires
        0 <= i < builder::rollup_of(events).len(),
    ensures
        ({
            let r = builder::rollup_of(events)[i];
            let start = r.key.hour_start_ms;
            &&& start as int % (HOUR_MS as int) == 0
            &&& start - HOUR_MS < r.first_event_ms <= r.last_event_ms < start + HOUR_MS
            &&& r.first_event_ms >= 0 ==> start <= r.first_event_ms
            &&& r.last_event_ms < 0 ==> r.last_event_ms <= start
        }),
{
    let r = builder::rollup_of(events)[i];
    builder::law_rollup_of_rolls_up(events);
    assert(builder::spans(r, events));
    let a = choose|k: int|
        0 <= k < events.len() && builder::event_rollup_key(#[trigger] events[k]) == r.key
            && events[k].timestamp_ms == r.first_event_ms;
    let b = choose|k: int|
        0 <= k < events.len() && builder::event_rollup_key(#[trigger] events[k]) == r.key
            && events[k].timestamp_ms == r.last_event_ms;
    hours::lemma_start_of(events[a].timestamp_ms as int, HOUR_MS as int);
    hours::lemma_start_of(events[b].timestamp_ms as int, HOUR_MS as int);
    assert(builder::event_rollup_key(events[a]).hour_start_ms == r.key.hour_start_ms);
    assert(builder::event_rollup_key(events[b]).hour_start_ms == r.key.hour_start_ms);
}

// ---------------------------------------------------------------------------
// Order
// ---------------------------------------------------------------------------

/// What an event adds to the number of events of a key.
spec fn count_share(e: EventModel, key: KeyModel) -> int {
    if builder::event_rollup_key(e) == key {
        1
    } else {
        0
    }
}

proof fn lemma_share_of(events: Seq<EventModel>, i: int, key: KeyModel)
    requires
        0 <= i < events.len(),
    ensures
        exact_quantity(events, key) == exact_quantity(events.remove(i), key) + quantity_share(
            events[i],
            key,
        ),
        builder::key_count(events, key) == builder::key_count(events.remove(i), key) + count_share(
            events[i],
            key,
        ),
    decreases events.len(),
{
    let rest = events.remove(i);
    if i == events.len() - 1 {
        assert(rest =~= events.drop_last());
    } else {
        lemma_share_of(events.drop_last(), i, key);
        assert(rest.drop_last() =~= events.drop_last().remove(i));
        assert(rest.last() == events.last());
        assert(events.drop_last()[i] == events[i]);
    }
}

proof fn lemma_same_sums(a: Seq<EventModel>, b: Seq<EventModel>, key: KeyModel)
    requires
        a.to_multiset() == b.to_multiset(),
    ensures
        exact_quantity(a, key) == exact_quantity(b, key),
        builder::key_count(a, key) == builder::key_count(b, key),
    decreases a.len(),
{
    a.to_multiset_ensures();
    b.to_multiset_ensures();
    assert(a.to_multiset().len() == a.len());
    assert(b.to_multiset().len() == b.len());
    if a.len() > 0 {
        let e = a.last();
        assert(a[a.len() - 1] == e);
        assert(a.contains(e));
        assert(b.to_multiset().count(e) > 0);
        assert(b.contains(e));
        let i = choose|i: int| 0 <= i < b.len() && b[i] == e;
        let ra = a.remove(a.len() - 1);
        let rb = b.remove(i);
        assert(ra.to_multiset() =~= a.to_multiset().remove(e));
        assert(rb.to_multiset() =~= b.to_multiset().remove(e));
        lemma_same_sums(ra, rb, key);
        lemma_share_of(a, a.len() - 1, key);
        lemma_share_of(b, i, key);
    } else {
        assert(a =~= b);
    }
}

/// A row of the events in one order is a row of them in another.
proof fn lemma_same_row(a: Seq<EventModel>, b: Seq<EventModel>, r: RecordModel)
    requires
        a.to_multiset() == b.to_multiset(),
        sums_fit(a),
        sums_fit(b),
        builder::rollup_of(a).contains(r),
    ensures
        builder::rollup_of(b).contains(r),
{
    let ra = builder::rollup_of(a);
    let rb = builder::rollup_of(b);
    builder::law_rollup_of_rolls_up(a);
    builder::law_rollup_of_rolls_up(b);
    a.to_multiset_ensures();
    b.to_multiset_ensures();
    assert forall|e: EventModel| a.contains(e) == #[trigger] b.contains(e) by {
        assert(a.contains(e) <==> a.to_multiset().count(e) > 0);
        assert(b.contains(e) <==> b.to_multiset().count(e) > 0);
    }
    let i = choose|i: int| 0 <= i < ra.len() && ra[i] == r;
    assert(builder::spans(ra[i], a));
    let f = choose|k: int|
        0 <= k < a.len() && builder::event_rollup_key(#[trigger] a[k]) == r.key
            && a[k].timestamp_ms == r.first_event_ms;
    let l = choose|k: int|
        0 <= k < a.len() && builder::event_rollup_key(#[trigger] a[k]) == r.key
            && a[k].timestamp_ms == r.last_event_ms;
    assert(a.contains(a[f]) && a.contains(a[l]));
    assert(b.contains(a[f]) && b.contains(a[l]));
    let bf = choose|k: int| 0 <= k < b.len() && b[k] == a[f];
    let bl = choose|k: int| 0 <= k < b.len() && b[k] == a[l];
    assert(builder::some_record_has(rb, builder::event_rollup_key(b[bf])));
    let j = choose|j: int| 0 <= j < rb.len() && (#[trigger] rb[j]).key == r.key;
    let s = rb[j];
    assert(builder::spans(s, b));
    let g = choose|k: int|
        0 <= k < b.len() && builder::event_rollup_key(#[trigger] b[k]) == s.key
            && b[k].timestamp_ms == s.first_event_ms;
    let h = choose|k: int|
        0 <= k < b.len() && builder::event_rollup_key(#[trigger] b[k]) == s.key
            && b[k].timestamp_ms == s.last_event_ms;
    assert(b.contains(b[g]) && b.contains(b[h]));
    assert(a.contains(b[g]) && a.contains(b[h]));
    let ag = choose|k: int| 0 <= k < a.len() && a[k] == b[g];
    let ah = choose|k: int| 0 <= k < a.len() && a[k] == b[h];
    assert(builder::event_rollup_key(a[ag]) == r.key);
    assert(builder::event_rollup_key(a[ah]) == r.key);
    assert(builder::event_rollup_key(b[bf]) == s.key);
    assert(builder::event_rollup_key(b[bl]) == s.key);
    lemma_same_sums(a, b, r.key);
    lemma_exact(a, r.key);
    lemma_exact(b, r.key);
    assert(s =~= r);
}

/// Rows with different keys are there once each.
proof fn lemma_rows_once(records: Seq<RecordModel>)
    requires
        builder::keys_distinct(records),
    ensures
        forall|r: RecordModel| #[trigger] records.to_multiset().count(r) <= 1,
{
    assert(records.no_duplicates()) by {
        assert forall|i: int, j: int|
            0 <= i < records.len() && 0 <= j < records.len() && i != j implies records[i]
            != records[j] by {
            if i < j {
                assert(records[i].key != records[j].key);
            } else {
                assert(records[j].key != records[i].key);
            }
        }
    }
    records.lemma_multiset_has_no_duplicates();
    records.to_multiset_ensures();
    assert forall|r: RecordModel| #[trigger] records.to_multiset().count(r) <= 1 by {
        if records.to_multiset().count(r) > 0 {
            assert(records.to_multiset().contains(r));
        }
    }
}

/// The same events give the same rows, in whatever order they come. (However far
/// they have been added up, the sum of each row must fit.)
pub proof fn law_order_does_not_change_rows(a: Seq<EventModel>, b: Seq<EventModel>)
    requires
        a.to_multiset() == b.to_multiset(),
        sums_fit(a),
        sums_fit(b),
    ensures
        builder::rollup_of(a).to_multiset() == builder::rollup_of(b).to_multiset(),
{
    let ra = builder::rollup_of(a);
    let rb = builder::rollup_of(b);
    builder::law_rollup_of_rolls_up(a);
    builder::law_rollup_of_rolls_up(b);
    lemma_rows_once(ra);
    lemma_rows_once(rb);
    ra.to_multiset_ensures();
    rb.to_multiset_ensures();
    assert forall|r: RecordModel| ra.to_multiset().count(r) == #[trigger] rb.to_multiset().count(
        r,
    ) by {
        assert(ra.to_multiset().count(r) <= 1);
        if ra.contains(r) {
            lemma_same_row(a, b, r);
        }
        if rb.contains(r) {
            lemma_same_row(b, a, r);
        }
    }
    assert(ra.to_multiset() =~= rb.to_multiset());
}

} // verus!
