//! Adding events up by the hour.

use vstd::prelude::*;

use crate::hours;
use crate::hours::{start_of_unit, HOUR_MS};
use crate::model::dimensions;
use crate::model::dimensions::canonical_text;
use crate::model::event::{clone_model, clone_subscription, EventModel, UsageEvent};
use crate::model::event;
use crate::model::ids::{ModelId, SubscriptionId};
use crate::quantity;
use crate::quantity::saturating_plus;
use crate::rollup::hourly;
use crate::rollup::hourly::{
    HourlyRollupKey, HourlyRollupRecord, HourlyRollupState, KeyModel, RecordModel,
};
use crate::text::same_text;

verus! {

/// The rollup row that an event belongs to.
pub open spec fn event_rollup_key(e: EventModel) -> KeyModel {
    KeyModel {
        account_id: e.account_id,
        subscription_id: e.subscription_id,
        product_id: e.product_id,
        meter_id: e.meter_id,
        model_id: e.model_id,
        source: e.source,
        unit: e.unit,
        hour_start_ms: hours::start_of(e.timestamp_ms as int, HOUR_MS as int) as i64,
        dimensions_canonical: dimensions::dimension_text(e.dimensions),
    }
}

/// The row of the first event with its key.
pub open spec fn first_record(e: EventModel) -> RecordModel {
    RecordModel {
        key: event_rollup_key(e),
        quantity_sum: e.quantity,
        event_count: 1,
        first_event_ms: e.timestamp_ms,
        last_event_ms: e.timestamp_ms,
    }
}

/// A row with one more event of its key.
pub open spec fn grown_record(r: RecordModel, e: EventModel) -> RecordModel {
    RecordModel {
        key: r.key,
        quantity_sum: quantity::bounded(r.quantity_sum + e.quantity) as i128,
        event_count: if r.event_count == u64::MAX {
            u64::MAX
        } else {
            (r.event_count + 1) as u64
        },
        first_event_ms: if e.timestamp_ms < r.first_event_ms {
            e.timestamp_ms
        } else {
            r.first_event_ms
        },
        last_event_ms: if e.timestamp_ms > r.last_event_ms {
            e.timestamp_ms
        } else {
            r.last_event_ms
        },
    }
}

/// The place of the first row with the key `key`, or the number of rows.
pub open spec fn key_place(records: Seq<RecordModel>, key: KeyModel) -> int
    decreases records.len(),
{
    if records.len() == 0 {
        0
    } else if records[0].key == key {
        0
    } else {
        1 + key_place(records.drop_first(), key)
    }
}

/// Rows with one more event: the row of its key grows, or it begins a row.
pub open spec fn with_event(records: Seq<RecordModel>, e: EventModel) -> Seq<RecordModel> {
    let place = key_place(records, event_rollup_key(e));
    if place < records.len() {
        records.update(place, grown_record(records[place], e))
    } else {
        records.push(first_record(e))
    }
}

/// The rollup rows of events.
pub open spec fn rollup_of(events: Seq<EventModel>) -> Seq<RecordModel>
    decreases events.len(),
{
    if events.len() == 0 {
        Seq::empty()
    } else {
        with_event(rollup_of(events.drop_last()), events.last())
    }
}

/// Adds events up into rollup rows.
pub struct RollupBuilder {
    state: HourlyRollupState,
}

impl View for RollupBuilder {
    type V = Seq<RecordModel>;

    closed spec fn view(&self) -> Seq<RecordModel> {
        hourly::record_views(self.state.aggregates@)
    }
}

fn same_model(a: &Option<ModelId>, b: &Option<ModelId>) -> (r: bool)
    ensures
        r == (event::model_view(*a) == event::model_view(*b)),
{
    match (a, b) {
        (Some(x), Some(y)) => same_text(x.0.as_str(), y.0.as_str()),
        (None, None) => true,
        _ => false,
    }
}

fn same_subscription(a: &Option<SubscriptionId>, b: &Option<SubscriptionId>) -> (r: bool)
    ensures
        r == (event::subscription_view(*a) == event::subscription_view(*b)),
{
    match (a, b) {
        (Some(x), Some(y)) => same_text(x.0.as_str(), y.0.as_str()),
        (None, None) => true,
        _ => false,
    }
}

/// Whether a row has the key `key`.
fn has_key(r: &HourlyRollupRecord, key: &HourlyRollupKey) -> (b: bool)
    ensures
        b == (r@.key == key@),
{
    let b = r.hour_start_ms == key.hour_start_ms && same_text(
        r.account_id.0.as_str(),
        key.account_id.0.as_str(),
    ) && same_text(r.meter_id.0.as_str(), key.meter_id.0.as_str()) && same_text(
        r.product_id.0.as_str(),
        key.product_id.0.as_str(),
    ) && same_text(r.source.0.as_str(), key.source.0.as_str()) && same_text(
        r.unit.0.as_str(),
        key.unit.0.as_str(),
    ) && same_model(&r.model_id, &key.model_id) && same_subscription(
        &r.subscription_id,
        &key.subscription_id,
    ) && same_text(r.dimensions_canonical.as_str(), key.dimensions_canonical.as_str());
    proof {
        if b {
            assert(r@.key =~= key@);
        }
    }
    b
}

/// The key of the row that an event belongs to.
fn key_of(e: &UsageEvent) -> (r: HourlyRollupKey)
    ensures
        r@ == event_rollup_key(e@),
{
    HourlyRollupKey {
        account_id: e.account_id.clone(),
        subscription_id: clone_subscription(&e.subscription_id),
        product_id: e.product_id.clone(),
        meter_id: e.meter_id.clone(),
        model_id: clone_model(&e.model_id),
        source: e.source.clone(),
        unit: e.unit.clone(),
        hour_start_ms: start_of_unit(e.timestamp_ms, HOUR_MS),
        dimensions_canonical: canonical_text(&e.dimensions),
    }
}

impl RollupBuilder {
    /// No rows.
    pub fn new() -> (r: Self)
        ensures
            r@ == Seq::<RecordModel>::empty(),
    {
        let r = RollupBuilder { state: HourlyRollupState::new() };
        assert(r@ =~= Seq::<RecordModel>::empty());
        r
    }

    fn place_of(&self, key: &HourlyRollupKey) -> (p: usize)
        ensures
            p == key_place(self@, key@),
            p <= self@.len(),
            p < self@.len() ==> self@[p as int].key == key@,
    {
        let ghost all = self@;
        let mut i: usize = 0;
        assert(all.skip(0) =~= all);
        while i < self.state.aggregates.len()
            invariant
                i <= self.state.aggregates@.len(),
                all == hourly::record_views(self.state.aggregates@),
                key_place(all, key@) == i + key_place(all.skip(i as int), key@),
            decreases self.state.aggregates@.len() - i,
        {
            assert(all[i as int] == self.state.aggregates@[i as int]@);
            assert(all.skip(i as int)[0] == all[i as int]);
            assert(all.skip(i as int).drop_first() =~= all.skip(i + 1));
            if has_key(&self.state.aggregates[i], key) {
                return i;
            }
            i = i + 1;
        }
        assert(all.skip(i as int) =~= Seq::empty());
        i
    }

    /// Adds an event to the row of its key.
    pub fn process_event(&mut self, event: &UsageEvent)
        ensures
            final(self)@ == with_event(old(self)@, event@),
    {
        let key = key_of(event);
        let place = self.place_of(&key);
        let ghost before = self.state.aggregates@;
        if place < self.state.aggregates.len() {
            let mut r = self.state.aggregates[place].clone();
            r.quantity_sum = saturating_plus(r.quantity_sum, event.quantity);
            r.event_count = r.event_count.saturating_add(1);
            if event.timestamp_ms < r.first_event_ms {
                r.first_event_ms = event.timestamp_ms;
            }
            if event.timestamp_ms > r.last_event_ms {
                r.last_event_ms = event.timestamp_ms;
            }
            assert(hourly::record_views(before)[place as int] == before[place as int]@);
            assert(r@ == grown_record(before[place as int]@, event@));
            self.state.aggregates.set(place, r);
            assert(hourly::record_views(self.state.aggregates@) =~= hourly::record_views(
                before,
            ).update(place as int, r@));
        } else {
            let r = HourlyRollupRecord {
                account_id: key.account_id,
                subscription_id: key.subscription_id,
                product_id: key.product_id,
                meter_id: key.meter_id,
                model_id: key.model_id,
                source: key.source,
                unit: key.unit,
                hour_start_ms: key.hour_start_ms,
                dimensions_canonical: key.dimensions_canonical,
                quantity_sum: event.quantity,
                event_count: 1,
                first_event_ms: event.timestamp_ms,
                last_event_ms: event.timestamp_ms,
            };
            proof {
                hourly::lemma_records_push(before, r);
            }
            self.state.aggregates.push(r);
        }
    }

    /// The rows.
    pub fn finalize(self) -> (r: Vec<HourlyRollupRecord>)
        ensures
            hourly::record_views(r@) == self@,
    {
        self.state.aggregates
    }
}

impl Default for RollupBuilder {
    fn default() -> (r: Self)
        ensures
            r@ == Seq::<RecordModel>::empty(),
    {
        RollupBuilder::new()
    }
}

// ---------------------------------------------------------------------------
// What rollup rows say of their events
// ---------------------------------------------------------------------------

/// The quantities of the events with the key `key`, added up one by one, each
/// time kept within bounds.
pub open spec fn key_quantity(events: Seq<EventModel>, key: KeyModel) -> int
    decreases events.len(),
{
    if events.len() == 0 {
        0
    } else if event_rollup_key(events.last()) == key {
        quantity::bounded(key_quantity(events.drop_last(), key) + events.last().quantity)
    } else {
        key_quantity(events.drop_last(), key)
    }
}

/// How many events have the key `key`.
pub open spec fn key_count(events: Seq<EventModel>, key: KeyModel) -> nat
    decreases events.len(),
{
    if events.len() == 0 {
        0
    } else if event_rollup_key(events.last()) == key {
        key_count(events.drop_last(), key) + 1
    } else {
        key_count(events.drop_last(), key)
    }
}

pub open spec fn some_event_has(events: Seq<EventModel>, key: KeyModel) -> bool {
    exists|i: int| 0 <= i < events.len() && event_rollup_key(#[trigger] events[i]) == key
}

pub open spec fn some_record_has(records: Seq<RecordModel>, key: KeyModel) -> bool {
    exists|i: int| 0 <= i < records.len() && (#[trigger] records[i]).key == key
}

pub open spec fn keys_distinct(records: Seq<RecordModel>) -> bool {
    forall|i: int, j: int|
        0 <= i < j < records.len() ==> (#[trigger] records[i]).key != (#[trigger] records[j]).key
}

/// The time of every event of `key` lies between those of the row, which are
/// times of such events.
pub open spec fn spans(r: RecordModel, events: Seq<EventModel>) -> bool {
    &&& forall|i: int|
        0 <= i < events.len() && event_rollup_key(#[trigger] events[i]) == r.key
            ==> r.first_event_ms <= events[i].timestamp_ms <= r.last_event_ms
    &&& exists|i: int|
        0 <= i < events.len() && event_rollup_key(#[trigger] events[i]) == r.key
            && events[i].timestamp_ms == r.first_event_ms
    &&& exists|i: int|
        0 <= i < events.len() && event_rollup_key(#[trigger] events[i]) == r.key
            && events[i].timestamp_ms == r.last_event_ms
}

/// `records` roll up `events`: one row for each key that occurs, with the sum of
/// the quantities, the number of the events, and their first and last time.
pub open spec fn rolls_up(records: Seq<RecordModel>, events: Seq<EventModel>) -> bool {
    &&& keys_distinct(records)
    &&& forall|i: int|
        0 <= i < events.len() ==> some_record_has(records, event_rollup_key(#[trigger] events[i]))
    &&& forall|i: int|
        0 <= i < records.len() ==> {
            &&& (#[trigger] records[i]).quantity_sum == key_quantity(events, records[i].key)
            &&& records[i].event_count == if key_count(events, records[i].key) > u64::MAX {
                u64::MAX as int
            } else {
                key_count(events, records[i].key) as int
            }
            &&& spans(records[i], events)
        }
}

pub proof fn lemma_key_place(records: Seq<RecordModel>, key: KeyModel)
    ensures
        0 <= key_place(records, key) <= records.len(),
        key_place(records, key) < records.len() ==> records[key_place(records, key)].key == key,
        key_place(records, key) == records.len() ==> !some_record_has(records, key),
    decreases records.len(),
{
    if records.len() > 0 && records[0].key != key {
        let rest = records.drop_first();
        lemma_key_place(rest, key);
        if key_place(rest, key) == rest.len() && some_record_has(records, key) {
            let i = choose|i: int| 0 <= i < records.len() && (#[trigger] records[i]).key == key;
            assert(rest[i - 1].key == key);
        }
    }
}

proof fn lemma_unseen(events: Seq<EventModel>, key: KeyModel)
    requires
        !some_event_has(events, key),
    ensures
        key_quantity(events, key) == 0,
        key_count(events, key) == 0,
    decreases events.len(),
{
    if events.len() > 0 {
        assert(event_rollup_key(events[events.len() - 1]) != key);
        assert forall|i: int| 0 <= i < events.drop_last().len() implies event_rollup_key(
            #[trigger] events.drop_last()[i],
        ) != key by {
            assert(event_rollup_key(events[i]) != key);
        }
        lemma_unseen(events.drop_last(), key);
    }
}

pub proof fn lemma_key_quantity_bound(events: Seq<EventModel>, key: KeyModel)
    ensures
        i128::MIN <= key_quantity(events, key) <= i128::MAX,
    decreases events.len(),
{
    if events.len() > 0 {
        lemma_key_quantity_bound(events.drop_last(), key);
    }
}

proof fn lemma_spans_kept(r: RecordModel, events: Seq<EventModel>, e: EventModel)
    requires
        spans(r, events),
    ensures
        event_rollup_key(e) != r.key ==> spans(r, events.push(e)),
        event_rollup_key(e) == r.key ==> spans(grown_record(r, e), events.push(e)),
{
    let after = events.push(e);
    assert(after[events.len() as int] == e);
    let a = choose|i: int|
        0 <= i < events.len() && event_rollup_key(#[trigger] events[i]) == r.key
            && events[i].timestamp_ms == r.first_event_ms;
    let b = choose|i: int|
        0 <= i < events.len() && event_rollup_key(#[trigger] events[i]) == r.key
            && events[i].timestamp_ms == r.last_event_ms;
    assert(after[a] == events[a]);
    assert(after[b] == events[b]);
    let g = if event_rollup_key(e) == r.key {
        grown_record(r, e)
    } else {
        r
    };
    assert forall|i: int|
        0 <= i < after.len() && event_rollup_key(#[trigger] after[i]) == r.key implies
        g.first_event_ms <= after[i].timestamp_ms <= g.last_event_ms by {
        if i < events.len() {
            assert(after[i] == events[i]);
        }
    }
}

/// One more event keeps rows a rollup of their events.
pub proof fn lemma_with_event(records: Seq<RecordModel>, events: Seq<EventModel>, e: EventModel)
    requires
        rolls_up(records, events),
    ensures
        rolls_up(with_event(records, e), events.push(e)),
{
    let key = event_rollup_key(e);
    let after = events.push(e);
    let place = key_place(records, key);
    let grown = with_event(records, e);
    lemma_key_place(records, key);
    assert(after.drop_last() =~= events);
    assert(after.last() == e);
    lemma_key_quantity_bound(events, key);
    if place < records.len() {
        assert forall|i: int| 0 <= i < grown.len() implies (#[trigger] grown[i]).key
            == records[i].key by {}
        assert forall|i: int| 0 <= i < after.len() implies some_record_has(
            grown,
            event_rollup_key(#[trigger] after[i]),
        ) by {
            if i < events.len() {
                assert(after[i] == events[i]);
                assert(some_record_has(records, event_rollup_key(events[i])));
                let j = choose|j: int|
                    0 <= j < records.len() && (#[trigger] records[j]).key == event_rollup_key(
                        events[i],
                    );
                assert(grown[j].key == event_rollup_key(events[i]));
            } else {
                assert(grown[place].key == key);
            }
        }
        assert forall|i: int| 0 <= i < grown.len() implies {
            &&& (#[trigger] grown[i]).quantity_sum == key_quantity(after, grown[i].key)
            &&& grown[i].event_count == if key_count(after, grown[i].key) > u64::MAX {
                u64::MAX as int
            } else {
                key_count(after, grown[i].key) as int
            }
            &&& spans(grown[i], after)
        } by {
            assert(spans(records[i], events));
            lemma_spans_kept(records[i], events, e);
            if i != place {
                if i < place {
                    assert(records[i].key != records[place].key);
                } else {
                    assert(records[place].key != records[i].key);
                }
                assert(grown[i] == records[i]);
            }
        }
        assert(keys_distinct(grown)) by {
            assert forall|i: int, j: int| 0 <= i < j < grown.len() implies (
            #[trigger] grown[i]).key != (#[trigger] grown[j]).key by {
                assert(records[i].key != records[j].key);
            }
        }
    } else {
        assert(!some_event_has(events, key)) by {
            if some_event_has(events, key) {
                let i = choose|i: int|
                    0 <= i < events.len() && event_rollup_key(#[trigger] events[i]) == key;
                assert(some_record_has(records, event_rollup_key(events[i])));
            }
        }
        lemma_unseen(events, key);
        assert(grown[records.len() as int] == first_record(e));
        assert forall|i: int| 0 <= i < records.len() implies grown[i] == records[i] by {}
        assert forall|i: int| 0 <= i < after.len() implies some_record_has(
            grown,
            event_rollup_key(#[trigger] after[i]),
        ) by {
            if i < events.len() {
                assert(after[i] == events[i]);
                assert(some_record_has(records, event_rollup_key(events[i])));
                let j = choose|j: int|
                    0 <= j < records.len() && (#[trigger] records[j]).key == event_rollup_key(
                        events[i],
                    );
                assert(grown[j].key == event_rollup_key(events[i]));
            } else {
                assert(grown[records.len() as int].key == key);
            }
        }
        assert forall|i: int| 0 <= i < grown.len() implies {
            &&& (#[trigger] grown[i]).quantity_sum == key_quantity(after, grown[i].key)
            &&& grown[i].event_count == if key_count(after, grown[i].key) > u64::MAX {
                u64::MAX as int
            } else {
                key_count(after, grown[i].key) as int
            }
            &&& spans(grown[i], after)
        } by {
            if i < records.len() {
                assert(spans(records[i], events));
                assert(records[i].key != key);
                lemma_spans_kept(records[i], events, e);
            } else {
                assert(after[events.len() as int] == e);
                assert forall|j: int|
                    0 <= j < after.len() && event_rollup_key(#[trigger] after[j])
                        == key implies after[j] == e by {
                    if j < events.len() {
                        assert(after[j] == events[j]);
                    }
                }
            }
        }
        assert(keys_distinct(grown)) by {
            assert forall|i: int, j: int| 0 <= i < j < grown.len() implies (
            #[trigger] grown[i]).key != (#[trigger] grown[j]).key by {
                if j < records.len() {
                    assert(records[i].key != records[j].key);
                } else {
                    assert(records[i].key != key);
                }
            }
        }
    }
}

/// The rows that events make roll them up: one row for each key that occurs,
/// with the sum of the quantities, the number of the events, and their first and
/// last time.
pub proof fn law_rollup_of_rolls_up(events: Seq<EventModel>)
    ensures
        rolls_up(rollup_of(events), events),
    decreases events.len(),
{
    if events.len() > 0 {
        law_rollup_of_rolls_up(events.drop_last());
        lemma_with_event(rollup_of(events.drop_last()), events.drop_last(), events.last());
        assert(events.drop_last().push(events.last()) =~= events);
    }
}

} // verus!
