//! The order in which events are read does not matter to what is added up.

use vstd::prelude::*;

use crate::model::event::EventModel;
use crate::query::executor;
use crate::query::plan::PlanModel;
use crate::query::reconcile;
use crate::rollup::hourly::RecordModel;

verus! {

/// What an event adds to the quantity under a key.
spec fn quantity_share(p: PlanModel, e: EventModel, key: Seq<Seq<char>>) -> int {
    if executor::event_matches(p, e) && executor::event_key(p, e) == key {
        e.quantity as int
    } else {
        0
    }
}

/// What an event adds to the number of events under a key.
spec fn count_share(p: PlanModel, e: EventModel, key: Seq<Seq<char>>) -> int {
    if executor::event_matches(p, e) && executor::event_key(p, e) == key {
        1
    } else {
        0
    }
}

proof fn lemma_last_share(p: PlanModel, events: Seq<EventModel>, key: Seq<Seq<char>>)
    requires
        events.len() > 0,
    ensures
        reconcile::exact_quantity(executor::event_rows(p, events), key)
            == reconcile::exact_quantity(executor::event_rows(p, events.drop_last()), key)
            + quantity_share(p, events.last(), key),
        reconcile::exact_count(executor::event_rows(p, events), key) == reconcile::exact_count(
            executor::event_rows(p, events.drop_last()),
            key,
        ) + count_share(p, events.last(), key),
{
    let before = executor::event_rows(p, events.drop_last());
    let row = executor::event_row(p, events.last());
    assert(before.push(row).drop_last() =~= before);
}

proof fn lemma_share_of(p: PlanModel, events: Seq<EventModel>, i: int, key: Seq<Seq<char>>)
    requires
        0 <= i < events.len(),
    ensures
        reconcile::exact_quantity(executor::event_rows(p, events), key)
            == reconcile::exact_quantity(executor::event_rows(p, events.remove(i)), key)
            + quantity_share(p, events[i], key),
        reconcile::exact_count(executor::event_rows(p, events), key) == reconcile::exact_count(
            executor::event_rows(p, events.remove(i)),
            key,
        ) + count_share(p, events[i], key),
        reconcile::turnover(events) == reconcile::turnover(events.remove(i)) + reconcile::magnitude(
            events[i].quantity as int,
        ),
    decreases events.len(),
{
    let rest = events.remove(i);
    lemma_last_share(p, events, key);
    if i == events.len() - 1 {
        assert(rest =~= events.drop_last());
    } else {
        lemma_last_share(p, rest, key);
        lemma_share_of(p, events.drop_last(), i, key);
        assert(rest.drop_last() =~= events.drop_last().remove(i));
        assert(rest.last() == events.last());
        assert(events.drop_last()[i] == events[i]);
    }
}

/// The same events in another order add up to the same, under every key.
proof fn lemma_same_sums(
    p: PlanModel,
    a: Seq<EventModel>,
    b: Seq<EventModel>,
    key: Seq<Seq<char>>,
)
    requires
        a.to_multiset() == b.to_multiset(),
    ensures
        reconcile::exact_quantity(executor::event_rows(p, a), key) == reconcile::exact_quantity(
            executor::event_rows(p, b),
            key,
        ),
        reconcile::exact_count(executor::event_rows(p, a), key) == reconcile::exact_count(
            executor::event_rows(p, b),
            key,
        ),
        reconcile::turnover(a) == reconcile::turnover(b),
        a.len() == b.len(),
    decreases a.len(),
{
    a.to_multiset_ensures();
    b.to_multiset_ensures();
    assert(a.to_multiset().len() == a.len());
    assert(b.to_multiset().len() == b.len());
    if a.len() > 0 {
        let e = a.last();
        assert(a[a.len() - 1] == e);
        assert(a.contains(e));
        assert(b.to_multiset().count(e) > 0);
        assert(b.contains(e));
        let i = choose|i: int| 0 <= i < b.len() && b[i] == e;
        let ra = a.remove(a.len() - 1);
        let rb = b.remove(i);
        assert(ra =~= a.drop_last());
        assert(ra.to_multiset() =~= a.to_multiset().remove(e));
        assert(rb.to_multiset() =~= b.to_multiset().remove(e));
        lemma_same_sums(p, ra, rb, key);
        lemma_share_of(p, a, a.len() - 1, key);
        lemma_share_of(p, b, i, key);
    } else {
        assert(a =~= b);
    }
}

/// A key has a row exactly where events are counted under it.
proof fn lemma_counted_keys(p: PlanModel, events: Seq<EventModel>, key: Seq<Seq<char>>)
    ensures
        executor::some_row_has(executor::event_rows(p, events), key) <==> reconcile::exact_count(
            executor::event_rows(p, events),
            key,
        ) > 0,
        0 <= reconcile::exact_count(executor::event_rows(p, events), key) <= events.len(),
        reconcile::row_turnover(executor::event_rows(p, events)) <= reconcile::turnover(events),
        0 <= reconcile::turnover(events),
    decreases events.len(),
{
    let rows = executor::event_rows(p, events);
    if events.len() > 0 {
        let rest = events.drop_last();
        let before = executor::event_rows(p, rest);
        let e = events.last();
        lemma_counted_keys(p, rest, key);
        lemma_last_share(p, events, key);
        if executor::event_matches(p, e) {
            let row = executor::event_row(p, e);
            assert(rows.drop_last() =~= before);
            assert(rows.last() == row);
            if executor::some_row_has(before, key) {
                let i = choose|i: int| 0 <= i < before.len() && (#[trigger] before[i]).key == key;
                assert(rows[i].key == key);
            }
            if row.key == key {
                assert(rows[rows.len() - 1].key == key);
            }
            if executor::some_row_has(rows, key) {
                let i = choose|i: int| 0 <= i < rows.len() && (#[trigger] rows[i]).key == key;
                if i < before.len() {
                    assert(before[i].key == key);
                }
            }
        }
    }
}

/// A query that adds up gets the same from the same events in whatever order they
/// are read, as they are after a compaction. (The quantities must fit: their sum
/// without signs is at most the greatest quantity.)
pub proof fn law_order_does_not_matter(p: PlanModel, a: Seq<EventModel>, b: Seq<EventModel>)
    requires
        a.to_multiset() == b.to_multiset(),
        !executor::wants_events(p),
        reconcile::turnover(a) <= i128::MAX,
        a.len() <= u64::MAX,
    ensures
        executor::answer(p, Seq::empty(), a) == executor::answer(p, Seq::empty(), b),
{
    let none = Seq::<RecordModel>::empty();
    let ra = executor::event_rows(p, a);
    let rb = executor::event_rows(p, b);
    assert(executor::plan_rows(p, none, a) =~= ra);
    assert(executor::plan_rows(p, none, b) =~= rb);
    assert forall|key: Seq<Seq<char>>| true implies {
        &&& #[trigger] executor::some_row_has(ra, key) <==> executor::some_row_has(rb, key)
        &&& executor::quantity_of(ra, key) == executor::quantity_of(rb, key)
        &&& executor::count_of(ra, key) == executor::count_of(rb, key)
    } by {
        lemma_same_sums(p, a, b, key);
        lemma_counted_keys(p, a, key);
        lemma_counted_keys(p, b, key);
        reconcile::lemma_exact_rows(ra, key);
        reconcile::lemma_exact_rows(rb, key);
        reconcile::lemma_exact_counts(ra, key);
        reconcile::lemma_exact_counts(rb, key);
    }
    assert forall|key: Seq<Seq<char>>| #[trigger]
        executor::quantity_of(ra, key) == executor::quantity_of(rb, key) by {
        assert(executor::some_row_has(ra, key) <==> executor::some_row_has(rb, key));
    }
    assert forall|key: Seq<Seq<char>>| #[trigger]
        executor::count_of(ra, key) == executor::count_of(rb, key) by {
        assert(executor::some_row_has(ra, key) <==> executor::some_row_has(rb, key));
    }
    reconcile::lemma_same_groups(ra, rb);
}

} // verus!
