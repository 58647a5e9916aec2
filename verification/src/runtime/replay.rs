//! Starting up: what is known of the events in segments, and what is taken in
//! again from the log.

use vstd::prelude::*;

use crate::ingest::dedupe;
use crate::ingest::dedupe::{DedupeResult, EventHash, HotDedupe, KnownModel};
use crate::ingest::memtable;
use crate::ingest::memtable::Memtable;
use crate::model::event;
use crate::model::event::{EventModel, UsageEvent};
use crate::runtime::recovery;
use crate::runtime::recovery::compute_event_hashes;
use crate::storage::dedupe_index;
use crate::storage::dedupe_index::{read_dedupe_index, DedupeEntry, IndexFault};
use crate::storage::manifest;
use crate::storage::manifest::{MetaModel, SegmentMeta};
use crate::storage::segment_format::frame::SegmentFault;
use crate::storage::segment_reader;
use crate::storage::segment_reader::RawSegmentReader;
use crate::text;

verus! {

/// How far back events are kept known across a restart: seven days.
pub const DEDUPE_TTL_MS: i64 = 604_800_000;

/// A segment has events that are to be known at the time `now`.
pub open spec fn is_recent(m: MetaModel, now: int) -> bool {
    m.max_timestamp_ms >= now - DEDUPE_TTL_MS
}

/// The names of the segments with events that are to be known, in their order.
pub open spec fn recent_ids(metas: Seq<MetaModel>, now: int) -> Seq<Seq<char>>
    decreases metas.len(),
{
    if metas.len() == 0 {
        Seq::empty()
    } else if is_recent(metas.last(), now) {
        recent_ids(metas.drop_last(), now).push(metas.last().segment_id)
    } else {
        recent_ids(metas.drop_last(), now)
    }
}

/// The names of the segments whose events are to be known, in their order.
pub fn segments_to_scan(metas: &Vec<SegmentMeta>, now_ms: i64) -> (r: Vec<String>)
    ensures
        text::text_views(r@) == recent_ids(manifest::meta_views(metas@), now_ms as int),
{
    let ghost all = manifest::meta_views(metas@);
    let mut out: Vec<String> = Vec::new();
    assert(text::text_views(out@) =~= Seq::empty());
    for i in 0..metas.len()
        invariant
            all == manifest::meta_views(metas@),
            text::text_views(out@) == recent_ids(all.take(i as int), now_ms as int),
    {
        assert(all.take(i + 1).drop_last() =~= all.take(i as int));
        assert(all.take(i + 1).last() == metas@[i as int]@);
        if metas[i].max_timestamp_ms as i128 >= now_ms as i128 - DEDUPE_TTL_MS as i128 {
            let id = metas[i].segment_id.clone();
            proof {
                text::lemma_texts_push(out@, id);
            }
            out.push(id);
        }
    }
    assert(all.take(all.len() as int) =~= all);
    out
}

// ---------------------------------------------------------------------------
// What a segment makes known
// ---------------------------------------------------------------------------

/// What is kept of an event beside its segment.
pub open spec fn entry_of(e: EventModel) -> DedupeEntry {
    (recovery::id_of(e), recovery::payload_of(e), e.ingested_at_ms)
}

pub open spec fn entries_of(events: Seq<EventModel>) -> Seq<DedupeEntry> {
    events.map_values(|e: EventModel| entry_of(e))
}

/// What is kept of events beside their segment.
pub fn index_entries_of(events: &Vec<UsageEvent>) -> (r: Vec<DedupeEntry>)
    ensures
        r@ == entries_of(event::event_views(events@)),
{
    let ghost wanted = entries_of(event::event_views(events@));
    let mut out: Vec<DedupeEntry> = Vec::new();
    for i in 0..events.len()
        invariant
            wanted == entries_of(event::event_views(events@)),
            out@ == wanted.take(i as int),
    {
        let e = &events[i];
        let (id, payload) = compute_event_hashes(e);
        assert(wanted[i as int] == entry_of(e@));
        out.push((id, payload, e.ingested_at_ms));
        assert(wanted.take(i + 1) =~= wanted.take(i as int).push(wanted[i as int]));
    }
    assert(wanted.take(wanted.len() as int) =~= wanted);
    out
}

/// What a segment makes known: what its index says, and where that is missing or
/// cannot be read, what its own events say.
pub open spec fn known_in_segment(index: Option<Seq<u8>>, segment: Seq<u8>) -> Result<
    Seq<DedupeEntry>,
    SegmentFault,
> {
    let from_events = match segment_reader::segment_events(segment) {
        Ok(events) => Ok(entries_of(events)),
        Err(f) => Err(f),
    };
    match index {
        Some(data) => match dedupe_index::index_entries(data) {
            Ok(entries) => Ok(entries),
            Err(_) => from_events,
        },
        None => from_events,
    }
}

/// What a segment makes known, read from the files `index`, where there is one,
/// and `segment`.
pub fn segment_entries(index: Option<&[u8]>, segment: &[u8]) -> (r: Result<
    Vec<DedupeEntry>,
    SegmentFault,
>)
    ensures
        match r {
            Ok(v) => known_in_segment(
                match index {
                    Some(d) => Some(d@),
                    None => None,
                },
                segment@,
            ) == Ok::<_, SegmentFault>(v@),
            Err(f) => known_in_segment(
                match index {
                    Some(d) => Some(d@),
                    None => None,
                },
                segment@,
            ) == Err::<Seq<DedupeEntry>, _>(f),
        },
{
    if let Ok(Some(entries)) = read_dedupe_index(index) {
        return Ok(entries);
    }
    match RawSegmentReader::new(segment) {
        Ok(reader) => {
            let events = reader.into_events();
            Ok(index_entries_of(&events))
        },
        Err(f) => Err(f),
    }
}

/// The hashes of entries, in their order.
pub open spec fn entry_hashes(entries: Seq<DedupeEntry>) -> Seq<(EventHash, EventHash)> {
    entries.map_values(|e: DedupeEntry| (e.0, e.1))
}

/// An entry with that id stands before the place `n`.
pub open spec fn came_before(entries: Seq<DedupeEntry>, id: EventHash, n: int) -> bool {
    exists|k: int| 0 <= k < n && (#[trigger] entries[k]).0 == id
}

/// The first entry with that id has the time `at`.
pub open spec fn came_first_at(entries: Seq<DedupeEntry>, id: EventHash, at: int) -> bool {
    exists|k: int|
        0 <= k < entries.len() && (#[trigger] entries[k]).0 == id && entries[k].2 == at
            && !came_before(entries, id, k)
}

/// Makes known what a segment holds. An event that is not known yet is first seen
/// when its entry says that it came.
pub fn commit_entries(dedupe: &mut HotDedupe, entries: &Vec<DedupeEntry>)
    ensures
        final(dedupe)@ == dedupe::all_committed(old(dedupe)@, entry_hashes(entries@)),
        final(dedupe).keeps_first_seen(*old(dedupe)),
        forall|id: EventHash|
            final(dedupe)@.payloads.dom().contains(id) && !old(dedupe)@.payloads.dom().contains(id)
                ==> came_first_at(entries@, id, #[trigger] final(dedupe).first_seen(id)),
{
    let ghost known = dedupe@;
    let ghost hashes = entry_hashes(entries@);
    assert(hashes.take(0) =~= Seq::empty());
    for i in 0..entries.len()
        invariant
            hashes == entry_hashes(entries@),
            known == old(dedupe)@,
            dedupe@ == dedupe::all_committed(known, hashes.take(i as int)),
            dedupe.keeps_first_seen(*old(dedupe)),
            forall|id: EventHash| #[trigger]
                dedupe@.payloads.dom().contains(id) <==> known.payloads.dom().contains(id)
                    || came_before(entries@, id, i as int),
            forall|id: EventHash|
                dedupe@.payloads.dom().contains(id) && !known.payloads.dom().contains(id)
                    ==> came_first_at(entries@, id, #[trigger] dedupe.first_seen(id)),
    {
        let (id, payload, ingested_at_ms) = entries[i];
        proof {
            assert(hashes.take(i + 1).drop_last() =~= hashes.take(i as int));
            assert(hashes.take(i + 1).last() == (id, payload));
        }
        let ghost before = *dedupe;
        dedupe.commit_at(id, payload, ingested_at_ms);
        proof {
            assert(entries@[i as int] == (id, payload, ingested_at_ms));
            assert forall|x: EventHash| #[trigger]
                dedupe@.payloads.dom().contains(x) <==> known.payloads.dom().contains(x)
                    || came_before(entries@, x, i + 1) by {
                if came_before(entries@, x, i as int) {
                    let k = choose|k: int| 0 <= k < i && (#[trigger] entries@[k]).0 == x;
                    assert(entries@[k].0 == x);
                }
                assert(before@.payloads.dom().contains(x) <==> known.payloads.dom().contains(x)
                    || came_before(entries@, x, i as int));
            }
            assert forall|x: EventHash|
                dedupe@.payloads.dom().contains(x) && !known.payloads.dom().contains(
                    x,
                ) implies came_first_at(entries@, x, #[trigger] dedupe.first_seen(x)) by {
                if before@.payloads.dom().contains(x) {
                    assert(dedupe.first_seen(x) == before.first_seen(x));
                } else {
                    assert(!came_before(entries@, x, i as int));
                }
            }
        }
    }
    assert(hashes.take(hashes.len() as int) =~= hashes);
}

/// An index says of a segment what its events say.
pub proof fn law_index_says_what_events_say(
    events: Seq<EventModel>,
    index: Seq<u8>,
    segment: Seq<u8>,
)
    requires
        dedupe_index::index_entries(index) == Ok::<_, IndexFault>(entries_of(events)),
        segment_reader::segment_events(segment) == Ok::<_, SegmentFault>(events),
    ensures
        known_in_segment(Some(index), segment) == known_in_segment(None, segment),
        entry_hashes(entries_of(events)) == recovery::hashes_of(events),
{
    assert(entry_hashes(entries_of(events)) =~= recovery::hashes_of(events));
}

// ---------------------------------------------------------------------------
// The log
// ---------------------------------------------------------------------------

/// What is known, and which events are taken in, after events of the log: those
/// that are not known when their turn comes.
pub open spec fn replayed(known: KnownModel, events: Seq<EventModel>) -> (
    KnownModel,
    Seq<EventModel>,
)
    decreases events.len(),
{
    if events.len() == 0 {
        (known, Seq::empty())
    } else {
        let (so_far, taken) = replayed(known, events.drop_last());
        let e = events.last();
        if so_far.classified(recovery::id_of(e), recovery::payload_of(e)) == DedupeResult::NewEvent {
            (so_far.committed(recovery::id_of(e), recovery::payload_of(e)), taken.push(e))
        } else {
            (so_far, taken)
        }
    }
}

/// Each of the events is known as first seen when it came.
pub open spec fn first_seen_as_ingested(dedupe: HotDedupe, events: Seq<EventModel>) -> bool {
    forall|k: int|
        0 <= k < events.len() ==> dedupe@.payloads.dom().contains(
            recovery::id_of(#[trigger] events[k]),
        ) && dedupe.first_seen(recovery::id_of(events[k])) == events[k].ingested_at_ms
}

/// Takes the events of the log in again, without those that are known. What is
/// taken in was first seen when it came, and waits in the memtable from `now_ms` on.
pub fn replay_log(
    dedupe: &mut HotDedupe,
    memtable: &mut Memtable,
    events: Vec<UsageEvent>,
    now_ms: i64,
)
    requires
        old(memtable).wf(),
    ensures
        final(memtable).wf(),
        final(dedupe)@ == replayed(old(dedupe)@, event::event_views(events@)).0,
        final(dedupe).keeps_first_seen(*old(dedupe)),
        first_seen_as_ingested(
            *final(dedupe),
            replayed(old(dedupe)@, event::event_views(events@)).1,
        ),
        final(memtable)@ == old(memtable)@ + replayed(
            old(dedupe)@,
            event::event_views(events@),
        ).1,
        final(memtable).oldest() == if old(memtable)@.len() > 0 {
            old(memtable).oldest()
        } else if replayed(old(dedupe)@, event::event_views(events@)).1.len() > 0 {
            Some(now_ms)
        } else {
            None
        },
{
    let ghost given = events@;
    let ghost all = event::event_views(events@);
    let ghost known = dedupe@;
    let ghost held = memtable@;
    let ghost since = memtable.oldest();
    proof {
        memtable::law_age_where_events_wait(*memtable);
    }
    assert(all.take(0) =~= Seq::empty());
    assert(held + Seq::<EventModel>::empty() =~= held);
    for e in it: events.into_iter()
        invariant
            it.seq() == given,
            all == event::event_views(given),
            memtable.wf(),
            dedupe@ == replayed(known, all.take(it.index() as int)).0,
            dedupe.keeps_first_seen(*old(dedupe)),
            forall|id: EventHash|
                old(dedupe)@.payloads.dom().contains(id) ==> #[trigger]
                    dedupe@.payloads.dom().contains(id),
            first_seen_as_ingested(*dedupe, replayed(known, all.take(it.index() as int)).1),
            memtable@ == held + replayed(known, all.take(it.index() as int)).1,
            memtable.oldest() == if held.len() > 0 {
                since
            } else if replayed(known, all.take(it.index() as int)).1.len() > 0 {
                Some(now_ms)
            } else {
                None
            },
    {
        let ghost i = it.index() as int;
        assert(e == given[i]);
        proof {
            assert(all.take(i + 1).drop_last() =~= all.take(i));
            assert(all.take(i + 1).last() == e@);
        }
        let ghost taken = replayed(known, all.take(i)).1;
        let ghost before = *dedupe;
        let (id, payload) = compute_event_hashes(&e);
        match dedupe.classify(id, payload) {
            DedupeResult::NewEvent => {
                dedupe.commit_at(id, payload, e.ingested_at_ms);
                assert(held + taken.push(e@) =~= (held + taken).push(e@));
                proof {
                    let now = taken.push(e@);
                    assert forall|k: int| 0 <= k < now.len() implies dedupe@.payloads.dom().contains(
                        recovery::id_of(#[trigger] now[k]),
                    ) && dedupe.first_seen(recovery::id_of(now[k])) == now[k].ingested_at_ms by {
                        if k < taken.len() {
                            assert(now[k] == taken[k]);
                            assert(before@.payloads.dom().contains(recovery::id_of(taken[k])));
                        }
                    }
                }
                memtable.insert_at(e, now_ms);
            },
            _ => {},
        }
    }
    assert(all.take(all.len() as int) =~= all);
}

/// No event's id is known, and no two events have one id.
pub open spec fn all_unknown(known: KnownModel, events: Seq<EventModel>) -> bool {
    &&& forall|i: int|
        0 <= i < events.len() ==> !known.payloads.dom().contains(
            recovery::id_of(#[trigger] events[i]),
        )
    &&& forall|i: int, j: int|
        0 <= i < j < events.len() ==> recovery::id_of(#[trigger] events[i]) != recovery::id_of(
            #[trigger] events[j],
        )
}

/// The log gives everything back: events that no segment holds, each in the log
/// once, are all taken in again, in their order, and are known.
pub proof fn law_replay_gives_everything_back(known: KnownModel, events: Seq<EventModel>)
    requires
        all_unknown(known, events),
    ensures
        replayed(known, events).1 == events,
        replayed(known, events).0 == dedupe::all_committed(
            known,
            recovery::hashes_of(events),
        ),
        forall|i: int|
            0 <= i < events.len() ==> replayed(known, events).0.classified(
                recovery::id_of(#[trigger] events[i]),
                recovery::payload_of(events[i]),
            ) == DedupeResult::ExactDuplicate,
{
    lemma_replay(known, events);
    assert(replayed(known, events).1 =~= events);
}

proof fn lemma_replay(known: KnownModel, events: Seq<EventModel>)
    requires
        all_unknown(known, events),
    ensures
        replayed(known, events).1 =~= events,
        replayed(known, events).0 == dedupe::all_committed(
            known,
            recovery::hashes_of(events),
        ),
        forall|id: EventHash| #[trigger]
            replayed(known, events).0.payloads.dom().contains(id)
                ==> known.payloads.dom().contains(id) || exists|i: int|
                0 <= i < events.len() && recovery::id_of(#[trigger] events[i]) == id,
        forall|i: int|
            0 <= i < events.len() ==> replayed(known, events).0.payloads.dom().contains(
                recovery::id_of(#[trigger] events[i]),
            ) && replayed(known, events).0.payloads[recovery::id_of(events[i])]
                == recovery::payload_of(events[i]),
    decreases events.len(),
{
    let hashes = recovery::hashes_of(events);
    if events.len() > 0 {
        let rest = events.drop_last();
        let e = events.last();
        assert forall|i: int| 0 <= i < rest.len() implies !known.payloads.dom().contains(
            recovery::id_of(#[trigger] rest[i]),
        ) by {
            assert(rest[i] == events[i]);
        }
        assert forall|i: int, j: int| 0 <= i < j < rest.len() implies recovery::id_of(
            #[trigger] rest[i],
        ) != recovery::id_of(#[trigger] rest[j]) by {
            assert(rest[i] == events[i] && rest[j] == events[j]);
        }
        lemma_replay(known, rest);
        assert(hashes.drop_last() =~= recovery::hashes_of(rest));
        assert(hashes.last() == (recovery::id_of(e), recovery::payload_of(e)));
        let before = replayed(known, rest).0;
        let after = replayed(known, events).0;
        let id = recovery::id_of(e);
        assert(events[events.len() - 1] == e);
        assert(!before.payloads.dom().contains(id)) by {
            if before.payloads.dom().contains(id) {
                let i = choose|i: int|
                    0 <= i < rest.len() && recovery::id_of(#[trigger] rest[i]) == id;
                assert(rest[i] == events[i]);
            }
        }
        assert(events =~= rest.push(e));
        assert forall|x: EventHash| #[trigger]
            after.payloads.dom().contains(x) implies known.payloads.dom().contains(x) || exists|
            i: int,
        |
            0 <= i < events.len() && recovery::id_of(#[trigger] events[i]) == x by {
            if x != id {
                assert(before.payloads.dom().contains(x));
                if !known.payloads.dom().contains(x) {
                    let i = choose|i: int|
                        0 <= i < rest.len() && recovery::id_of(#[trigger] rest[i]) == x;
                    assert(recovery::id_of(events[i]) == x);
                }
            } else {
                assert(recovery::id_of(events[events.len() - 1]) == x);
            }
        }
        assert forall|i: int| 0 <= i < events.len() implies after.payloads.dom().contains(
            recovery::id_of(#[trigger] events[i]),
        ) && after.payloads[recovery::id_of(events[i])] == recovery::payload_of(events[i]) by {
            if i < rest.len() {
                assert(rest[i] == events[i]);
            }
        }
    } else {
        assert(hashes =~= Seq::empty());
    }
}

/// The segments whose events are to be known are those that reach into the last seven
/// days, in their order.
pub proof fn law_recent_segments(metas: Seq<MetaModel>, now: int)
    ensures
        recent_ids(metas, now) == metas.filter(
            |m: MetaModel| m.max_timestamp_ms >= now - 604_800_000,
        ).map_values(|m: MetaModel| m.segment_id),
    decreases metas.len(),
{
    reveal(Seq::filter);
    let recent = |m: MetaModel| m.max_timestamp_ms >= now - 604_800_000;
    let name = |m: MetaModel| m.segment_id;
    if metas.len() > 0 {
        let init = metas.drop_last();
        law_recent_segments(init, now);
        let some = init.filter(recent);
        assert(some.push(metas.last()).map_values(name) =~= some.map_values(name).push(
            metas.last().segment_id,
        ));
    } else {
        assert(recent_ids(metas, now) =~= metas.filter(recent).map_values(name));
    }
}

/// A segment makes known what its index says, and where there is none that can be read,
/// what its events say: the id, the payload and the time of each.
pub proof fn law_what_segments_make_known(
    index: Seq<u8>,
    segment: Seq<u8>,
    entries: Seq<DedupeEntry>,
    events: Seq<EventModel>,
    i: int,
)
    requires
        segment_reader::segment_events(segment) == Ok::<_, SegmentFault>(events),
        0 <= i < events.len(),
    ensures
        dedupe_index::index_entries(index) == Ok::<_, IndexFault>(entries) ==> known_in_segment(
            Some(index),
            segment,
        ) == Ok::<_, SegmentFault>(entries),
        dedupe_index::index_entries(index) is Err ==> known_in_segment(Some(index), segment)
            == known_in_segment(None, segment),
        known_in_segment(None, segment) matches Ok(known) && {
            &&& known.len() == events.len()
            &&& known[i].0 == recovery::id_of(events[i])
            &&& known[i].1 == recovery::payload_of(events[i])
            &&& known[i].2 == events[i].ingested_at_ms
        },
{
}

/// A replay takes in exactly the events whose ids are not known and did not come before
/// in the log, and makes exactly these known beside what was known.
pub proof fn law_what_a_replay_takes_in(known: KnownModel, events: Seq<EventModel>, e: EventModel)
    ensures
        replayed(known, events).1.contains(e) <==> exists|i: int|
            0 <= i < events.len() && #[trigger] events[i] == e && !known.payloads.dom().contains(
                recovery::id_of(e),
            ) && forall|j: int|
                0 <= j < i ==> recovery::id_of(#[trigger] events[j]) != recovery::id_of(e),
        forall|id: EventHash| #[trigger]
            replayed(known, events).0.payloads.dom().contains(id)
                <==> known.payloads.dom().contains(id) || exists|i: int|
                0 <= i < events.len() && recovery::id_of(#[trigger] events[i]) == id,
    decreases events.len(),
{
    if events.len() > 0 {
        let init = events.drop_last();
        let last = events.last();
        law_what_a_replay_takes_in(known, init, e);
        assert(events[events.len() - 1] == last);
        assert forall|i: int| 0 <= i < init.len() implies init[i] == #[trigger] events[i] by {}
        let before = replayed(known, init);
        let after = replayed(known, events);
        let came = before.0.payloads.dom().contains(recovery::id_of(last));
        assert(came <==> known.payloads.dom().contains(recovery::id_of(last)) || exists|i: int|
            0 <= i < init.len() && recovery::id_of(#[trigger] init[i]) == recovery::id_of(last));
        assert forall|id: EventHash| #[trigger]
            after.0.payloads.dom().contains(id) <==> known.payloads.dom().contains(id) || exists|
                i: int,
            |
                0 <= i < events.len() && recovery::id_of(#[trigger] events[i]) == id by {
            assert(before.0.payloads.dom().contains(id) <==> known.payloads.dom().contains(id)
                || exists|i: int|
                0 <= i < init.len() && recovery::id_of(#[trigger] init[i]) == id);
            if exists|i: int| 0 <= i < init.len() && recovery::id_of(#[trigger] init[i]) == id {
                let i = choose|i: int|
                    0 <= i < init.len() && recovery::id_of(#[trigger] init[i]) == id;
                assert(recovery::id_of(events[i]) == id);
            }
            if exists|i: int|
                0 <= i < events.len() && recovery::id_of(#[trigger] events[i]) == id {
                let i = choose|i: int|
                    0 <= i < events.len() && recovery::id_of(#[trigger] events[i]) == id;
                if i < init.len() {
                    assert(recovery::id_of(init[i]) == id);
                }
            }
            if id == recovery::id_of(last) {
                assert(recovery::id_of(events[events.len() - 1]) == id);
            }
        }
        if after.1.contains(e) {
            let x = choose|x: int| 0 <= x < after.1.len() && after.1[x] == e;
            if x < before.1.len() {
                assert(before.1[x] == e);
                assert(before.1.contains(e));
                let i = choose|i: int|
                    0 <= i < init.len() && #[trigger] init[i] == e
                        && !known.payloads.dom().contains(recovery::id_of(e)) && forall|j: int|
                        0 <= j < i ==> recovery::id_of(#[trigger] init[j]) != recovery::id_of(e);
                assert(events[i] == e);
                assert forall|j: int| 0 <= j < i implies recovery::id_of(#[trigger] events[j])
                    != recovery::id_of(e) by {
                    assert(events[j] == init[j]);
                }
            } else {
                let i = events.len() - 1;
                assert(events[i] == e);
                assert forall|j: int| 0 <= j < i implies recovery::id_of(#[trigger] events[j])
                    != recovery::id_of(e) by {
                    assert(events[j] == init[j]);
                }
            }
        }
        if exists|i: int|
            0 <= i < events.len() && #[trigger] events[i] == e && !known.payloads.dom().contains(
                recovery::id_of(e),
            ) && forall|j: int|
                0 <= j < i ==> recovery::id_of(#[trigger] events[j]) != recovery::id_of(e) {
            let i = choose|i: int|
                0 <= i < events.len() && #[trigger] events[i] == e
                    && !known.payloads.dom().contains(recovery::id_of(e)) && forall|j: int|
                    0 <= j < i ==> recovery::id_of(#[trigger] events[j]) != recovery::id_of(e);
            if i < init.len() {
                assert(init[i] == e);
                assert forall|j: int| 0 <= j < i implies recovery::id_of(#[trigger] init[j])
                    != recovery::id_of(e) by {
                    assert(events[j] == init[j]);
                }
                assert(before.1.contains(e));
                let x = choose|x: int| 0 <= x < before.1.len() && before.1[x] == e;
                assert(after.1[x] == e);
            } else {
                if came && !known.payloads.dom().contains(recovery::id_of(last)) {
                    let j = choose|j: int|
                        0 <= j < init.len() && recovery::id_of(#[trigger] init[j])
                            == recovery::id_of(last);
                    assert(events[j] == init[j]);
                }
                assert(after.1[before.1.len() as int] == e);
            }
        }
    }
}

} // verus!
