//! What the server does with a batch of events: validating them, telling new ones
//! from those that are known, and taking the new ones in.

use vstd::prelude::*;

use std::collections::HashMap;

use crate::calendar;
use crate::ingest::dedupe;
use crate::ingest::dedupe::{DedupeResult, EventHash, HotDedupe, KnownModel};
use crate::ingest::memtable;
use crate::ingest::memtable::Memtable;
use crate::ingest::wal::Wal;
use crate::lists::is_empty_text;
use crate::model::event;
use crate::model::event::{EventKind, EventModel, UsageEvent};
use crate::period;
use crate::period::refused_by_close;
use crate::runtime::recovery;
use crate::runtime::recovery::compute_event_hashes;
use crate::runtime::state::FlushMessage;
use crate::storage::manifest::{ClosedModel, Manifest};

verus! {

broadcast use vstd::std_specs::hash::group_hash_axioms;

/// How many dimensions an event may have.
pub const MAX_DIMENSIONS: usize = 16;

/// What is wrong with an event.
#[derive(Debug, Clone, Copy, PartialEq, Eq, Structural)]
pub enum ValidationError {
    MissingEventId,
    MissingAccountId,
    MissingProductId,
    MissingMeterId,
    NonPositiveTimestamp,
    TooManyDimensions,
    CorrectionMissingRef,
}

/// The first thing that is wrong with an event.
pub open spec fn fault_of(e: EventModel) -> Option<ValidationError> {
    if e.event_id.len() == 0 {
        Some(ValidationError::MissingEventId)
    } else if e.account_id.len() == 0 {
        Some(ValidationError::MissingAccountId)
    } else if e.product_id.len() == 0 {
        Some(ValidationError::MissingProductId)
    } else if e.meter_id.len() == 0 {
        Some(ValidationError::MissingMeterId)
    } else if e.timestamp_ms <= 0 {
        Some(ValidationError::NonPositiveTimestamp)
    } else if e.dimensions.len() > MAX_DIMENSIONS {
        Some(ValidationError::TooManyDimensions)
    } else if e.kind != EventKind::Usage && e.correction_ref is None {
        Some(ValidationError::CorrectionMissingRef)
    } else {
        None
    }
}

/// Checks that an event says what it must.
pub fn validate_event(event: &UsageEvent) -> (r: Result<(), ValidationError>)
    ensures
        match r {
            Ok(_) => fault_of(event@) is None,
            Err(e) => fault_of(event@) == Some(e),
        },
        r is Ok <==> says_what_it_must(event@),
{
    if is_empty_text(&event.event_id.0) {
        return Err(ValidationError::MissingEventId);
    }
    if is_empty_text(&event.account_id.0) {
        return Err(ValidationError::MissingAccountId);
    }
    if is_empty_text(&event.product_id.0) {
        return Err(ValidationError::MissingProductId);
    }
    if is_empty_text(&event.meter_id.0) {
        return Err(ValidationError::MissingMeterId);
    }
    if event.timestamp_ms <= 0 {
        return Err(ValidationError::NonPositiveTimestamp);
    }
    if event.dimensions.inner.len() > MAX_DIMENSIONS {
        return Err(ValidationError::TooManyDimensions);
    }
    let adjusts = match event.kind {
        EventKind::Usage => false,
        _ => true,
    };
    if adjusts && event.correction_ref.is_none() {
        return Err(ValidationError::CorrectionMissingRef);
    }
    Ok(())
}

/// An event has its ids and a time since the epoch, at most sixteen dimensions, and
/// a correction or a retraction says what it is about.
pub open spec fn says_what_it_must(e: EventModel) -> bool {
    &&& e.event_id.len() > 0
    &&& e.account_id.len() > 0
    &&& e.product_id.len() > 0
    &&& e.meter_id.len() > 0
    &&& e.timestamp_ms > 0
    &&& e.dimensions.len() <= 16
    &&& e.kind == EventKind::Usage || e.correction_ref is Some
}

/// An event passes exactly where it says what it must, whatever else it says or
/// leaves out; a fault is what it is called, and comes where nothing that is looked
/// at before it is wrong.
pub proof fn law_valid_events(e: EventModel, fault: ValidationError)
    ensures
        fault_of(e) is None <==> says_what_it_must(e),
        fault_of(e) == Some(fault) <==> match fault {
            ValidationError::MissingEventId => e.event_id.len() == 0,
            ValidationError::MissingAccountId => e.event_id.len() > 0 && e.account_id.len() == 0,
            ValidationError::MissingProductId => e.event_id.len() > 0 && e.account_id.len() > 0
                && e.product_id.len() == 0,
            ValidationError::MissingMeterId => e.event_id.len() > 0 && e.account_id.len() > 0
                && e.product_id.len() > 0 && e.meter_id.len() == 0,
            ValidationError::NonPositiveTimestamp => e.event_id.len() > 0 && e.account_id.len() > 0
                && e.product_id.len() > 0 && e.meter_id.len() > 0 && e.timestamp_ms <= 0,
            ValidationError::TooManyDimensions => e.event_id.len() > 0 && e.account_id.len() > 0
                && e.product_id.len() > 0 && e.meter_id.len() > 0 && e.timestamp_ms > 0
                && e.dimensions.len() > 16,
            ValidationError::CorrectionMissingRef => e.event_id.len() > 0 && e.account_id.len() > 0
                && e.product_id.len() > 0 && e.meter_id.len() > 0 && e.timestamp_ms > 0
                && e.dimensions.len() <= 16 && (e.kind == EventKind::Correction || e.kind
                == EventKind::Retraction) && e.correction_ref is None,
        },
{
}

/// What an event says beyond what it must has no part in whether it passes.
pub proof fn law_other_fields_do_not_matter(a: EventModel, b: EventModel)
    requires
        a.event_id == b.event_id,
        a.account_id == b.account_id,
        a.product_id == b.product_id,
        a.meter_id == b.meter_id,
        a.timestamp_ms == b.timestamp_ms,
        a.dimensions.len() == b.dimensions.len(),
        a.kind == b.kind,
        a.correction_ref is Some == b.correction_ref is Some,
    ensures
        fault_of(a) == fault_of(b),
{
}

// ---------------------------------------------------------------------------
// Admission
// ---------------------------------------------------------------------------

/// An event with its hashes.
#[derive(Debug)]
pub struct Classified {
    pub event: UsageEvent,
    pub event_id_hash: EventHash,
    pub payload_hash: EventHash,
}

impl Classified {
    /// The hashes are those of the event.
    pub open spec fn wf(self) -> bool {
        self.event_id_hash == recovery::id_of(self.event@) && self.payload_hash == recovery::payload_of(self.event@)
    }
}

pub open spec fn all_wf(classified: Seq<Classified>) -> bool {
    forall|i: int| 0 <= i < classified.len() ==> (#[trigger] classified[i]).wf()
}

pub open spec fn classified_views(classified: Seq<Classified>) -> Seq<EventModel> {
    classified.map_values(|c: Classified| c.event@)
}

/// An event with the time at which it was taken in.
pub open spec fn stamped(e: EventModel, now: i64) -> EventModel {
    EventModel { ingested_at_ms: now, ..e }
}

/// Whether an event is let in: nothing is wrong with it, and its month is open or
/// it adjusts one that is closed.
pub open spec fn is_admitted(e: EventModel, periods: Seq<ClosedModel>) -> bool {
    fault_of(e) is None && !period::refused(periods, e)
}

/// The events that are let in, in their order, with the time.
pub open spec fn admitted(
    events: Seq<EventModel>,
    periods: Seq<ClosedModel>,
    now: i64,
) -> Seq<EventModel>
    decreases events.len(),
{
    if events.len() == 0 {
        Seq::empty()
    } else if is_admitted(events.last(), periods) {
        admitted(events.drop_last(), periods, now).push(stamped(events.last(), now))
    } else {
        admitted(events.drop_last(), periods, now)
    }
}

/// A batch lets in, in their order, exactly its events that say what they must and
/// are no usage of a month that has been closed for their account; each is as it
/// came, but for the time at which it was taken in.
pub proof fn law_what_a_batch_lets_in(
    events: Seq<EventModel>,
    periods: Seq<ClosedModel>,
    now: i64,
)
    ensures
        admitted(events, periods, now) == events.filter(
            |e: EventModel|
                says_what_it_must(e) && !(e.kind == EventKind::Usage && (
                calendar::month_of(e.timestamp_ms as int) matches Some((year, month))
                    && exists|i: int|
                    0 <= i < periods.len() && (#[trigger] periods[i]).account_id == e.account_id
                        && periods[i].year == year && periods[i].month == month)),
        ).map_values(|e: EventModel| EventModel { ingested_at_ms: now, ..e }),
    decreases events.len(),
{
    reveal(Seq::filter);
    let passes = |e: EventModel|
        says_what_it_must(e) && !(e.kind == EventKind::Usage && (calendar::month_of(
            e.timestamp_ms as int,
        ) matches Some((year, month)) && exists|i: int|
            0 <= i < periods.len() && (#[trigger] periods[i]).account_id == e.account_id
                && periods[i].year == year && periods[i].month == month));
    let with_time = |e: EventModel| EventModel { ingested_at_ms: now, ..e };
    if events.len() > 0 {
        let init = events.drop_last();
        let e = events.last();
        law_what_a_batch_lets_in(init, periods, now);
        law_valid_events(e, ValidationError::MissingEventId);
        assert(is_admitted(e, periods) == passes(e)) by {
            if let Some((year, month)) = calendar::month_of(e.timestamp_ms as int) {
                if period::is_closed(periods, e.account_id, year, month) {
                    let i = choose|i: int|
                        0 <= i < periods.len() && period::is_entry(
                            #[trigger] periods[i],
                            e.account_id,
                            year,
                            month,
                        );
                    assert(periods[i].account_id == e.account_id);
                }
                if exists|i: int|
                    0 <= i < periods.len() && (#[trigger] periods[i]).account_id == e.account_id
                        && periods[i].year == year && periods[i].month == month {
                    let i = choose|i: int|
                        0 <= i < periods.len() && (#[trigger] periods[i]).account_id
                            == e.account_id && periods[i].year == year && periods[i].month == month;
                    assert(period::is_entry(periods[i], e.account_id, year, month));
                }
            }
        }
        let some = init.filter(passes);
        assert(some.push(e).map_values(with_time) =~= some.map_values(with_time).push(
            with_time(e),
        ));
    } else {
        assert(admitted(events, periods, now) =~= events.filter(passes).map_values(with_time));
    }
}

/// Lets the events of a batch in that pass, each with the time `now_ms` and with
/// its hashes, and counts those that do not. The server's clock says when an event
/// came, whatever the client's does.
pub fn admit_batch(events: Vec<UsageEvent>, manifest: &Manifest, now_ms: i64) -> (r: (
    Vec<Classified>,
    usize,
))
    ensures
        classified_views(r.0@) == admitted(
            event::event_views(events@),
            manifest@.closed_periods,
            now_ms,
        ),
        all_wf(r.0@),
        r.1 == events@.len() - r.0@.len(),
{
    let ghost all = event::event_views(events@);
    let ghost given = events@;
    let ghost periods = manifest@.closed_periods;
    let total: usize = events.len();
    let mut out: Vec<Classified> = Vec::new();
    let mut rejected: usize = 0;
    assert(classified_views(out@) =~= Seq::empty());
    for e in it: events.into_iter()
        invariant
            it.seq() == given,
            all == event::event_views(given),
            total == given.len(),
            periods == manifest@.closed_periods,
            classified_views(out@) == admitted(all.take(it.index() as int), periods, now_ms),
            all_wf(out@),
            rejected == it.index() - out@.len(),
    {
        let ghost i = it.index() as int;
        assert(e == given[i]);
        assert(all.take(i + 1).drop_last() =~= all.take(i));
        assert(all.take(i + 1).last() == e@);
        let valid = match validate_event(&e) {
            Ok(_) => true,
            Err(_) => false,
        };
        if !valid || refused_by_close(manifest, &e) {
            rejected = rejected + 1;
        } else {
            let mut event = e;
            event.ingested_at_ms = now_ms;
            assert(event@ =~= stamped(e@, now_ms));
            let (event_id_hash, payload_hash) = compute_event_hashes(&event);
            let ghost before = out@;
            let c = Classified { event, event_id_hash, payload_hash };
            out.push(c);
            assert(classified_views(out@) =~= classified_views(before).push(c.event@));
        }
    }
    assert(all.take(all.len() as int) =~= all);
    (out, rejected)
}

// ---------------------------------------------------------------------------
// New events, duplicates and conflicts
// ---------------------------------------------------------------------------

/// The payloads of events by their ids; of events with one id, the last one's.
pub open spec fn payloads_by_id(events: Seq<EventModel>) -> Map<EventHash, EventHash>
    decreases events.len(),
{
    if events.len() == 0 {
        Map::empty()
    } else {
        payloads_by_id(events.drop_last()).insert(recovery::id_of(events.last()), recovery::payload_of(events.last()))
    }
}

/// What an event is to the new events before it in its batch, and to the known
/// ones.
pub open spec fn verdict(
    known: KnownModel,
    batch: Map<EventHash, EventHash>,
    e: EventModel,
) -> DedupeResult {
    if batch.dom().contains(recovery::id_of(e)) {
        if batch[recovery::id_of(e)] == recovery::payload_of(e) {
            DedupeResult::ExactDuplicate
        } else {
            DedupeResult::PayloadConflict
        }
    } else {
        known.classified(recovery::id_of(e), recovery::payload_of(e))
    }
}

/// The new events of a batch, in their order.
pub open spec fn new_events(known: KnownModel, events: Seq<EventModel>) -> Seq<EventModel>
    decreases events.len(),
{
    if events.len() == 0 {
        Seq::empty()
    } else {
        let before = new_events(known, events.drop_last());
        if verdict(known, payloads_by_id(before), events.last()) == DedupeResult::NewEvent {
            before.push(events.last())
        } else {
            before
        }
    }
}

/// How many events of a batch are found to be `kind`.
pub open spec fn count_found(
    known: KnownModel,
    events: Seq<EventModel>,
    kind: DedupeResult,
) -> nat
    decreases events.len(),
{
    if events.len() == 0 {
        0
    } else {
        let before = new_events(known, events.drop_last());
        let found = verdict(known, payloads_by_id(before), events.last());
        count_found(known, events.drop_last(), kind) + if found == kind {
            1nat
        } else {
            0nat
        }
    }
}

/// A batch, sorted out.
#[derive(Debug)]
pub struct SortedBatch {
    pub new_events: Vec<Classified>,
    pub duplicates: usize,
    pub conflicts: usize,
}

/// Every event of a batch is new, a duplicate or in conflict.
pub proof fn lemma_counts_add_up(known: KnownModel, events: Seq<EventModel>)
    ensures
        new_events(known, events).len() + count_found(
            known,
            events,
            DedupeResult::ExactDuplicate,
        ) + count_found(known, events, DedupeResult::PayloadConflict) == events.len(),
    decreases events.len(),
{
    if events.len() > 0 {
        lemma_counts_add_up(known, events.drop_last());
    }
}

/// What one more event adds to what is found in a batch.
proof fn lemma_one_more(known: KnownModel, events: Seq<EventModel>, e: EventModel)
    ensures
        ({
            let before = new_events(known, events);
            let found = verdict(known, payloads_by_id(before), e);
            &&& new_events(known, events.push(e)) == if found == DedupeResult::NewEvent {
                before.push(e)
            } else {
                before
            }
            &&& forall|kind: DedupeResult| #[trigger]
                count_found(known, events.push(e), kind) == count_found(known, events, kind) + if found
                    == kind {
                    1nat
                } else {
                    0nat
                }
            &&& payloads_by_id(before.push(e)) == payloads_by_id(before).insert(
                recovery::id_of(e),
                recovery::payload_of(e),
            )
        }),
{
    assert(events.push(e).drop_last() =~= events);
    let before = new_events(known, events);
    assert(before.push(e).drop_last() =~= before);
}

/// Tells the new events of a batch from those that are known or that came before
/// in it. Nothing is made known yet: that has to wait until the new events are in
/// the log.
pub fn sort_batch(dedupe: &HotDedupe, classified: Vec<Classified>) -> (r: SortedBatch)
    requires
        all_wf(classified@),
    ensures
        classified_views(r.new_events@) == new_events(dedupe@, classified_views(classified@)),
        all_wf(r.new_events@),
        r.duplicates == count_found(
            dedupe@,
            classified_views(classified@),
            DedupeResult::ExactDuplicate,
        ),
        r.conflicts == count_found(
            dedupe@,
            classified_views(classified@),
            DedupeResult::PayloadConflict,
        ),
{
    let ghost given = classified@;
    let ghost all = classified_views(classified@);
    let total: usize = classified.len();
    let mut fresh: Vec<Classified> = Vec::new();
    let mut seen: HashMap<EventHash, EventHash> = HashMap::new();
    let mut duplicates: usize = 0;
    let mut conflicts: usize = 0;
    assert(classified_views(fresh@) =~= Seq::empty());
    assert(seen@ =~= Map::<EventHash, EventHash>::empty());
    for c in it: classified.into_iter()
        invariant
            it.seq() == given,
            all == classified_views(given),
            total == given.len(),
            all_wf(given),
            all_wf(fresh@),
            classified_views(fresh@) == new_events(dedupe@, all.take(it.index() as int)),
            seen@ == payloads_by_id(classified_views(fresh@)),
            duplicates == count_found(
                dedupe@,
                all.take(it.index() as int),
                DedupeResult::ExactDuplicate,
            ),
            conflicts == count_found(
                dedupe@,
                all.take(it.index() as int),
                DedupeResult::PayloadConflict,
            ),
    {
        let ghost i = it.index() as int;
        assert(c == given[i]);
        assert(c.wf());
        let ghost part = all.take(i);
        proof {
            assert(all.take(i + 1) =~= part.push(c.event@));
            lemma_counts_add_up(dedupe@, part);
            lemma_one_more(dedupe@, part, c.event@);
        }
        let found = match seen.get(&c.event_id_hash) {
            Some(prior) => if *prior == c.payload_hash {
                DedupeResult::ExactDuplicate
            } else {
                DedupeResult::PayloadConflict
            },
            None => dedupe.classify(c.event_id_hash, c.payload_hash),
        };
        assert(found == verdict(dedupe@, seen@, c.event@));
        match found {
            DedupeResult::NewEvent => {
                let ghost before = fresh@;
                seen.insert(c.event_id_hash, c.payload_hash);
                fresh.push(c);
                proof {
                    assert(classified_views(fresh@) =~= classified_views(before).push(c.event@));
                }
            },
            DedupeResult::ExactDuplicate => {
                duplicates = duplicates + 1;
            },
            DedupeResult::PayloadConflict => {
                conflicts = conflicts + 1;
            },
        }
    }
    assert(all.take(all.len() as int) =~= all);
    SortedBatch { new_events: fresh, duplicates, conflicts }
}

// ---------------------------------------------------------------------------
// Taking the new events in
// ---------------------------------------------------------------------------

/// Whether events take more than `max_bytes`, and have to be flushed.
pub open spec fn is_full(events: Seq<EventModel>, max_bytes: int) -> bool {
    memtable::counted(memtable::estimated_all(events) as int) > max_bytes
}

/// Makes new events known and puts them into the memtable, once they are in the
/// log. A memtable that has grown too large is drained: the log's active file is
/// sealed, and its events are handed back to be flushed.
pub fn commit_batch(
    dedupe: &mut HotDedupe,
    memtable: &mut Memtable,
    wal: &mut Wal,
    new_events: Vec<Classified>,
    now_ms: i64,
    max_memtable_size_bytes: usize,
) -> (drained: Option<FlushMessage>)
    requires
        old(memtable).wf(),
        old(wal).active_id < u64::MAX,
        all_wf(new_events@),
    ensures
        final(dedupe)@ == dedupe::all_committed(
            old(dedupe)@,
            recovery::hashes_of(classified_views(new_events@)),
        ),
        forall|id: EventHash|
            final(dedupe)@.payloads.dom().contains(id) ==> #[trigger] final(dedupe).first_seen(id)
                == if old(dedupe)@.payloads.dom().contains(id) {
                old(dedupe).first_seen(id)
            } else {
                now_ms as int
            },
        final(memtable).wf(),
        match drained {
            Some(msg) => {
                &&& is_full(
                    old(memtable)@ + classified_views(new_events@),
                    max_memtable_size_bytes as int,
                )
                &&& event::event_views(msg.events@) == old(memtable)@ + classified_views(
                    new_events@,
                )
                &&& msg.sealed_wal_id == old(wal).active_id
                &&& final(wal).active_id == old(wal).active_id + 1
                &&& final(memtable)@.len() == 0
                &&& final(memtable).oldest() is None
            },
            None => {
                &&& !is_full(
                    old(memtable)@ + classified_views(new_events@),
                    max_memtable_size_bytes as int,
                )
                &&& *final(wal) == *old(wal)
                &&& final(memtable)@ == old(memtable)@ + classified_views(new_events@)
                &&& final(memtable).oldest() == if old(memtable)@.len() > 0 {
                    old(memtable).oldest()
                } else if new_events@.len() > 0 {
                    Some(now_ms)
                } else {
                    None
                }
            },
        },
{
    let ghost given = new_events@;
    let ghost all = classified_views(new_events@);
    let ghost hashes = recovery::hashes_of(all);
    let ghost known = dedupe@;
    let ghost held = memtable@;
    let ghost since = memtable.oldest();
    proof {
        memtable::law_age_where_events_wait(*memtable);
    }
    assert(hashes.take(0) =~= Seq::empty());
    assert(held + all.take(0) =~= held);
    for c in it: new_events.into_iter()
        invariant
            it.seq() == given,
            all == classified_views(given),
            hashes == recovery::hashes_of(all),
            all_wf(given),
            dedupe@ == dedupe::all_committed(known, hashes.take(it.index() as int)),
            forall|id: EventHash|
                old(dedupe)@.payloads.dom().contains(id) ==> #[trigger]
                    dedupe@.payloads.dom().contains(id),
            forall|id: EventHash|
                dedupe@.payloads.dom().contains(id) ==> #[trigger] dedupe.first_seen(id)
                    == if old(dedupe)@.payloads.dom().contains(id) {
                    old(dedupe).first_seen(id)
                } else {
                    now_ms as int
                },
            memtable.wf(),
            memtable@ == held + all.take(it.index() as int),
            memtable.oldest() == if held.len() > 0 {
                since
            } else if it.index() > 0 {
                Some(now_ms)
            } else {
                None
            },
    {
        let ghost i = it.index() as int;
        assert(c == given[i]);
        assert(c.wf());
        proof {
            assert(hashes.take(i + 1).drop_last() =~= hashes.take(i));
            assert(hashes.take(i + 1).last() == (c.event_id_hash, c.payload_hash));
            assert(held + all.take(i + 1) =~= (held + all.take(i)).push(c.event@));
        }
        let ghost before = *dedupe;
        dedupe.commit_at(c.event_id_hash, c.payload_hash, now_ms);
        proof {
            assert forall|id: EventHash| dedupe@.payloads.dom().contains(id) implies #[trigger]
                dedupe.first_seen(id) == (if old(dedupe)@.payloads.dom().contains(id) {
                old(dedupe).first_seen(id)
            } else {
                now_ms as int
            }) by {
                if before@.payloads.dom().contains(id) {
                    assert(dedupe.first_seen(id) == before.first_seen(id));
                }
            }
        }
        memtable.insert_at(c.event, now_ms);
    }
    proof {
        assert(hashes.take(hashes.len() as int) =~= hashes);
        assert(all.take(all.len() as int) =~= all);
    }
    if memtable.size_bytes() > max_memtable_size_bytes {
        let events = memtable.drain_all();
        let sealed_wal_id: u64 = wal.rotate();
        Some(FlushMessage { events, sealed_wal_id })
    } else {
        None
    }
}

// ---------------------------------------------------------------------------
// Laws
// ---------------------------------------------------------------------------

/// Every event of a batch is counted once: as rejected, as accepted, as a
/// duplicate or as a conflict.
pub proof fn law_every_event_is_counted(
    known: KnownModel,
    events: Seq<EventModel>,
    periods: Seq<ClosedModel>,
    now: i64,
)
    ensures
        ({
            let passed = admitted(events, periods, now);
            let rejected = events.len() - passed.len();
            &&& rejected >= 0
            &&& rejected + new_events(known, passed).len() + count_found(
                known,
                passed,
                DedupeResult::ExactDuplicate,
            ) + count_found(known, passed, DedupeResult::PayloadConflict) == events.len()
        }),
{
    lemma_admitted_len(events, periods, now);
    lemma_counts_add_up(known, admitted(events, periods, now));
}

proof fn lemma_admitted_len(events: Seq<EventModel>, periods: Seq<ClosedModel>, now: i64)
    ensures
        admitted(events, periods, now).len() <= events.len(),
    decreases events.len(),
{
    if events.len() > 0 {
        lemma_admitted_len(events.drop_last(), periods, now);
    }
}

/// `b` says of every id what `a` says of it, where `a` says something.
pub open spec fn extends(a: Map<EventHash, EventHash>, b: Map<EventHash, EventHash>) -> bool {
    forall|id: EventHash| #[trigger]
        a.dom().contains(id) ==> b.dom().contains(id) && b[id] == a[id]
}

/// No event's id is known, and no two events have one id.
pub open spec fn all_fresh(m: KnownModel, events: Seq<EventModel>) -> bool {
    &&& forall|i: int|
        0 <= i < events.len() ==> !m.payloads.dom().contains(recovery::id_of(#[trigger] events[i]))
    &&& forall|i: int, j: int|
        0 <= i < j < events.len() ==> recovery::id_of(#[trigger] events[i]) != recovery::id_of(#[trigger] events[j])
}

pub proof fn lemma_batch_ids(events: Seq<EventModel>, id: EventHash)
    ensures
        payloads_by_id(events).dom().contains(id) <==> exists|i: int|
            0 <= i < events.len() && recovery::id_of(#[trigger] events[i]) == id,
    decreases events.len(),
{
    if events.len() > 0 {
        let rest = events.drop_last();
        lemma_batch_ids(rest, id);
        if recovery::id_of(events.last()) == id {
            assert(recovery::id_of(events[events.len() - 1]) == id);
        }
        if exists|i: int| 0 <= i < rest.len() && recovery::id_of(#[trigger] rest[i]) == id {
            let i = choose|i: int| 0 <= i < rest.len() && recovery::id_of(#[trigger] rest[i]) == id;
            assert(events[i] == rest[i]);
        }
        if exists|i: int| 0 <= i < events.len() && recovery::id_of(#[trigger] events[i]) == id {
            let i = choose|i: int| 0 <= i < events.len() && recovery::id_of(#[trigger] events[i]) == id;
            if i < rest.len() {
                assert(rest[i] == events[i]);
            }
        }
    }
}

/// Of the new events of a batch, no two have one id, and none is known.
pub proof fn law_new_events_are_distinct(known: KnownModel, events: Seq<EventModel>)
    ensures
        forall|i: int|
            0 <= i < new_events(known, events).len() ==> !known.payloads.dom().contains(
                recovery::id_of(#[trigger] new_events(known, events)[i]),
            ),
        forall|i: int, j: int|
            0 <= i < j < new_events(known, events).len() ==> recovery::id_of(
                #[trigger] new_events(known, events)[i],
            ) != recovery::id_of(#[trigger] new_events(known, events)[j]),
    decreases events.len(),
{
    if events.len() > 0 {
        let before = new_events(known, events.drop_last());
        let after = new_events(known, events);
        law_new_events_are_distinct(known, events.drop_last());
        let e = events.last();
        lemma_batch_ids(before, recovery::id_of(e));
        assert forall|i: int, j: int| 0 <= i < j < after.len() implies recovery::id_of(#[trigger] after[i])
            != recovery::id_of(#[trigger] after[j]) by {
            assert(after[i] == before[i]);
            if j < before.len() {
                assert(after[j] == before[j]);
            }
        }
        assert forall|i: int| 0 <= i < after.len() implies !known.payloads.dom().contains(
            recovery::id_of(#[trigger] after[i]),
        ) by {
            if i < before.len() {
                assert(after[i] == before[i]);
            }
        }
    }
}

/// New events are all known afterwards, and so is what was known before.
pub proof fn lemma_made_known(m: KnownModel, events: Seq<EventModel>)
    requires
        all_fresh(m, events),
    ensures
        ({
            let after = dedupe::all_committed(m, recovery::hashes_of(events));
            &&& extends(m.payloads, after.payloads)
            &&& extends(payloads_by_id(events), after.payloads)
            &&& forall|id: EventHash| #[trigger]
                after.payloads.dom().contains(id) ==> m.payloads.dom().contains(id)
                    || payloads_by_id(events).dom().contains(id)
        }),
    decreases events.len(),
{
    let hashes = recovery::hashes_of(events);
    if events.len() > 0 {
        let rest = events.drop_last();
        assert(hashes.drop_last() =~= recovery::hashes_of(rest));
        assert(hashes.last() == (recovery::id_of(events.last()), recovery::payload_of(events.last())));
        assert forall|i: int| 0 <= i < rest.len() implies !m.payloads.dom().contains(
            recovery::id_of(#[trigger] rest[i]),
        ) by {
            assert(rest[i] == events[i]);
        }
        assert forall|i: int, j: int| 0 <= i < j < rest.len() implies recovery::id_of(#[trigger] rest[i])
            != recovery::id_of(#[trigger] rest[j]) by {
            assert(rest[i] == events[i] && rest[j] == events[j]);
        }
        lemma_made_known(m, rest);
        let before = dedupe::all_committed(m, recovery::hashes_of(rest));
        let id = recovery::id_of(events.last());
        lemma_batch_ids(rest, id);
        assert(!m.payloads.dom().contains(recovery::id_of(events[events.len() - 1])));
        assert forall|i: int| 0 <= i < rest.len() implies recovery::id_of(#[trigger] rest[i]) != id by {
            assert(rest[i] == events[i]);
            assert(events[events.len() - 1] == events.last());
        }
        assert(!before.payloads.dom().contains(id));
    }
}

/// Events with the hashes of a batch that has been taken in are all known: those
/// that were in conflict are so again, and all others are duplicates.
proof fn lemma_all_known(
    known: KnownModel,
    events: Seq<EventModel>,
    after: KnownModel,
    again: Seq<EventModel>,
)
    requires
        recovery::hashes_of(events) == recovery::hashes_of(again),
        extends(known.payloads, after.payloads),
        extends(payloads_by_id(new_events(known, events)), after.payloads),
    ensures
        new_events(after, again).len() == 0,
        count_found(after, again, DedupeResult::PayloadConflict) == count_found(
            known,
            events,
            DedupeResult::PayloadConflict,
        ),
    decreases events.len(),
{
    assert(recovery::hashes_of(events).len() == events.len());
    assert(recovery::hashes_of(again).len() == again.len());
    if events.len() > 0 {
        let rest = events.drop_last();
        let rest2 = again.drop_last();
        let e = events.last();
        let before = new_events(known, rest);
        assert(recovery::hashes_of(rest) =~= recovery::hashes_of(events).drop_last());
        assert(recovery::hashes_of(rest2) =~= recovery::hashes_of(again).drop_last());
        assert(recovery::hashes_of(events).last() == (recovery::id_of(e), recovery::payload_of(e)));
        assert(recovery::hashes_of(again).last() == (recovery::id_of(again.last()), recovery::payload_of(again.last())));
        let e2 = again.last();
        assert(events =~= rest.push(e));
        assert(again =~= rest2.push(e2));
        lemma_one_more(known, rest, e);
        lemma_one_more(after, rest2, e2);
        let batch = payloads_by_id(before);
        let grown = payloads_by_id(new_events(known, events));
        assert forall|id: EventHash| #[trigger] batch.dom().contains(id) implies after.payloads.dom().contains(
            id,
        ) && after.payloads[id] == batch[id] by {
            assert(grown.dom().contains(id) && grown[id] == batch[id]);
        }
        lemma_all_known(known, rest, after, rest2);
        assert(new_events(after, rest2) =~= Seq::empty());
        assert(payloads_by_id(new_events(after, rest2)) =~= Map::empty());
        lemma_known_again(known, batch, e, after);
    }
}

/// What an event of a batch that has been taken in is when it comes again.
proof fn lemma_known_again(
    known: KnownModel,
    batch: Map<EventHash, EventHash>,
    e: EventModel,
    after: KnownModel,
)
    requires
        extends(known.payloads, after.payloads),
        extends(batch, after.payloads),
        verdict(known, batch, e) == DedupeResult::NewEvent ==> extends(
            batch.insert(recovery::id_of(e), recovery::payload_of(e)),
            after.payloads,
        ),
    ensures
        after.classified(recovery::id_of(e), recovery::payload_of(e)) == if verdict(known, batch, e)
            == DedupeResult::PayloadConflict {
            DedupeResult::PayloadConflict
        } else {
            DedupeResult::ExactDuplicate
        },
{
    let id = recovery::id_of(e);
    if batch.dom().contains(id) {
        assert(after.payloads[id] == batch[id]);
    } else if known.payloads.dom().contains(id) {
        assert(after.payloads[id] == known.payloads[id]);
    } else {
        assert(batch.insert(id, recovery::payload_of(e)).dom().contains(id));
    }
}

/// What is known stays known, with its payload, whatever comes.
proof fn lemma_still_known(m: KnownModel, events: Seq<(EventHash, EventHash)>)
    ensures
        extends(m.payloads, dedupe::all_committed(m, events).payloads),
{
    let after = dedupe::all_committed(m, events);
    assert forall|id: EventHash| #[trigger]
        m.payloads.dom().contains(id) implies after.payloads.dom().contains(id)
        && after.payloads[id] == m.payloads[id] by {
        dedupe::law_known_events_stay_known(m, events, id, m.payloads[id]);
    }
}

/// A batch that is sent again takes nothing in, whatever came in between: what was
/// in conflict is so again, and all else is a duplicate. The times at which it comes
/// do not matter.
pub proof fn law_resending_takes_nothing_in(
    known: KnownModel,
    events: Seq<EventModel>,
    periods: Seq<ClosedModel>,
    first: i64,
    second: i64,
    between: Seq<(EventHash, EventHash)>,
)
    ensures
        ({
            let taken = new_events(known, admitted(events, periods, first));
            let after = dedupe::all_committed(
                dedupe::all_committed(known, recovery::hashes_of(taken)),
                between,
            );
            let again = admitted(events, periods, second);
            &&& new_events(after, again).len() == 0
            &&& count_found(after, again, DedupeResult::PayloadConflict) == count_found(
                known,
                admitted(events, periods, first),
                DedupeResult::PayloadConflict,
            )
            &&& count_found(after, again, DedupeResult::ExactDuplicate) + count_found(
                after,
                again,
                DedupeResult::PayloadConflict,
            ) == again.len()
            &&& again.len() == admitted(events, periods, first).len()
        }),
{
    let one = admitted(events, periods, first);
    let two = admitted(events, periods, second);
    lemma_stamps(events, periods, first, second);
    let taken = new_events(known, one);
    law_new_events_are_distinct(known, one);
    assert(all_fresh(known, taken));
    lemma_made_known(known, taken);
    let at_first = dedupe::all_committed(known, recovery::hashes_of(taken));
    let after = dedupe::all_committed(at_first, between);
    lemma_still_known(at_first, between);
    assert(extends(known.payloads, after.payloads)) by {
        assert forall|id: EventHash| #[trigger]
            known.payloads.dom().contains(id) implies after.payloads.dom().contains(id)
            && after.payloads[id] == known.payloads[id] by {
            assert(at_first.payloads.dom().contains(id));
        }
    }
    assert(extends(payloads_by_id(taken), after.payloads)) by {
        assert forall|id: EventHash| #[trigger]
            payloads_by_id(taken).dom().contains(id) implies after.payloads.dom().contains(id)
            && after.payloads[id] == payloads_by_id(taken)[id] by {
            assert(at_first.payloads.dom().contains(id));
        }
    }
    lemma_all_known(known, one, after, two);
    lemma_counts_add_up(after, two);
    assert(recovery::hashes_of(one).len() == one.len() && recovery::hashes_of(two).len() == two.len());
}

/// The time at which an event comes has no part in its hashes.
proof fn lemma_stamps(events: Seq<EventModel>, periods: Seq<ClosedModel>, first: i64, second: i64)
    ensures
        recovery::hashes_of(admitted(events, periods, first)) == recovery::hashes_of(
            admitted(events, periods, second),
        ),
    decreases events.len(),
{
    let one = admitted(events, periods, first);
    let two = admitted(events, periods, second);
    if events.len() > 0 {
        lemma_stamps(events.drop_last(), periods, first, second);
        let e = events.last();
        reveal(recovery::id_of);
        reveal(recovery::payload_of);
        assert(recovery::id_of(stamped(e, first)) == recovery::id_of(stamped(e, second)));
        assert(recovery::payload_of(stamped(e, first)) == recovery::payload_of(stamped(e, second)));
        let a = admitted(events.drop_last(), periods, first);
        let b = admitted(events.drop_last(), periods, second);
        if is_admitted(e, periods) {
            assert(recovery::hashes_of(one) =~= recovery::hashes_of(a).push(
                (recovery::id_of(stamped(e, first)), recovery::payload_of(stamped(e, first))),
            ));
            assert(recovery::hashes_of(two) =~= recovery::hashes_of(b).push(
                (recovery::id_of(stamped(e, second)), recovery::payload_of(stamped(e, second))),
            ));
        }
    } else {
        assert(recovery::hashes_of(one) =~= recovery::hashes_of(two));
    }
}

/// Of two events with one id in a batch, of which neither is known, the first is
/// taken in, and the second is a duplicate where it says the same and a conflict
/// where it does not.
pub proof fn law_second_event_with_an_id(
    known: KnownModel,
    before: Seq<EventModel>,
    between: Seq<EventModel>,
    a: EventModel,
    b: EventModel,
)
    requires
        recovery::id_of(a) == recovery::id_of(b),
        verdict(known, payloads_by_id(new_events(known, before)), a) == DedupeResult::NewEvent,
    ensures
        ({
            let so_far = new_events(known, before.push(a) + between);
            &&& so_far.contains(a)
            &&& verdict(known, payloads_by_id(so_far), b) == if recovery::payload_of(a) == recovery::payload_of(b) {
                DedupeResult::ExactDuplicate
            } else {
                DedupeResult::PayloadConflict
            }
        }),
    decreases between.len(),
{
    if between.len() == 0 {
        assert(before.push(a) + between =~= before.push(a));
        lemma_one_more(known, before, a);
        let now = new_events(known, before).push(a);
        assert(now[now.len() - 1] == a);
    } else {
        let rest = between.drop_last();
        law_second_event_with_an_id(known, before, rest, a, b);
        let part = before.push(a) + rest;
        let e = between.last();
        assert(before.push(a) + between =~= part.push(e));
        lemma_one_more(known, part, e);
        let so_far = new_events(known, part);
        let now = new_events(known, part.push(e));
        let i = choose|i: int| 0 <= i < so_far.len() && so_far[i] == a;
        assert(now[i] == a);
        lemma_batch_ids(so_far, recovery::id_of(e));
        lemma_batch_ids(so_far, recovery::id_of(b));
    }
}

/// One of the events has the id of `e`.
pub open spec fn has_id_of(events: Seq<EventModel>, e: EventModel) -> bool {
    exists|i: int| 0 <= i < events.len() && recovery::id_of(#[trigger] events[i]) == recovery::id_of(e)
}

/// One of the events has the id of `e` and says the same.
pub open spec fn has_same_as(events: Seq<EventModel>, e: EventModel) -> bool {
    exists|i: int|
        0 <= i < events.len() && recovery::id_of(#[trigger] events[i]) == recovery::id_of(e)
            && recovery::payload_of(events[i]) == recovery::payload_of(e)
}

/// The next event of a batch is new where its id is neither that of a new event before it
/// nor known. Else it is a duplicate where that event said the same, and a conflict where
/// it said something else. It counts as exactly one of the three.
pub proof fn law_verdict_on_the_next_event(
    known: KnownModel,
    events: Seq<EventModel>,
    e: EventModel,
)
    ensures
        ({
            let before = new_events(known, events);
            let after = events.push(e);
            let id = recovery::id_of(e);
            let is_known = known.payloads.dom().contains(id);
            let same = has_same_as(before, e) || (!has_id_of(before, e) && is_known
                && known.payloads[id] == recovery::payload_of(e));
            let is_new = !has_id_of(before, e) && !is_known;
            &&& is_new ==> new_events(known, after) == before.push(e)
            &&& !is_new ==> new_events(known, after) == before
            &&& count_found(known, after, DedupeResult::NewEvent) == count_found(
                known,
                events,
                DedupeResult::NewEvent,
            ) + if is_new {
                1int
            } else {
                0
            }
            &&& count_found(known, after, DedupeResult::ExactDuplicate) == count_found(
                known,
                events,
                DedupeResult::ExactDuplicate,
            ) + if same {
                1int
            } else {
                0
            }
            &&& count_found(known, after, DedupeResult::PayloadConflict) == count_found(
                known,
                events,
                DedupeResult::PayloadConflict,
            ) + if !is_new && !same {
                1int
            } else {
                0
            }
        }),
{
    let before = new_events(known, events);
    let after = events.push(e);
    assert(after.drop_last() =~= events);
    law_new_events_are_distinct(known, events);
    lemma_batch_ids(before, recovery::id_of(e));
    if has_id_of(before, e) {
        let i = choose|i: int|
            0 <= i < before.len() && recovery::id_of(#[trigger] before[i]) == recovery::id_of(e);
        lemma_batch_payload(before, i);
    }
}

proof fn lemma_batch_payload(events: Seq<EventModel>, i: int)
    requires
        0 <= i < events.len(),
        forall|i: int, j: int|
            0 <= i < j < events.len() ==> recovery::id_of(#[trigger] events[i]) != recovery::id_of(
                #[trigger] events[j],
            ),
    ensures
        payloads_by_id(events)[recovery::id_of(events[i])] == recovery::payload_of(events[i]),
    decreases events.len(),
{
    if i < events.len() - 1 {
        let rest = events.drop_last();
        assert forall|i: int, j: int| 0 <= i < j < rest.len() implies recovery::id_of(
            #[trigger] rest[i],
        ) != recovery::id_of(#[trigger] rest[j]) by {
            assert(rest[i] == events[i] && rest[j] == events[j]);
        }
        lemma_batch_payload(rest, i);
        assert(rest[i] == events[i]);
        assert(recovery::id_of(events[i]) != recovery::id_of(events[events.len() - 1]));
    }
}

/// Events have to be flushed as soon as they take more bytes than they may.
pub proof fn law_full_buffers(events: Seq<EventModel>, max_bytes: int)
    requires
        0 <= max_bytes < usize::MAX,
    ensures
        is_full(events, max_bytes) <==> memtable::estimated_all(events) > max_bytes,
{
}

} // verus!
