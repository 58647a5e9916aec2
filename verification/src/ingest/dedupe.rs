//! The hot dedupe cache: which event ids have been seen, and with which payload.

use vstd::prelude::*;

use std::collections::HashMap;

use crate::clock::now_ms;

verus! {

broadcast use vstd::std_specs::hash::group_hash_axioms;

/// The digest of an event id or of a payload.
pub type EventHash = u128;

/// What is kept of an event.
#[derive(Debug, Clone, Copy, PartialEq, Eq, Structural)]
pub struct DedupeEntry {
    pub payload_hash: EventHash,
    pub first_seen_ms: i64,
}

/// What an event is to those that have been seen.
#[derive(Debug, Clone, Copy, PartialEq, Eq, Structural)]
pub enum DedupeResult {
    /// No event with that id is known.
    NewEvent,
    /// It is known, with the same payload.
    ExactDuplicate,
    /// It is known, with another payload.
    PayloadConflict,
}

/// The events that a cache knows: the payload of each id.
#[verifier::ext_equal]
pub struct KnownModel {
    pub payloads: Map<EventHash, EventHash>,
}

impl KnownModel {
    /// What an event with that id and that payload is to the known ones.
    pub open spec fn classified(self, id: EventHash, payload: EventHash) -> DedupeResult {
        if !self.payloads.dom().contains(id) {
            DedupeResult::NewEvent
        } else if self.payloads[id] == payload {
            DedupeResult::ExactDuplicate
        } else {
            DedupeResult::PayloadConflict
        }
    }

    /// With one more event. A known id stays as it was first seen.
    pub open spec fn committed(self, id: EventHash, payload: EventHash) -> KnownModel {
        if self.payloads.dom().contains(id) {
            self
        } else {
            KnownModel { payloads: self.payloads.insert(id, payload) }
        }
    }
}

/// No cache sets room aside for more events than this when it is made.
const MOST_SET_ASIDE: usize = 65_536;

/// The known events. None is ever forgotten.
pub struct HotDedupe {
    cache: HashMap<EventHash, DedupeEntry>,
}

impl View for HotDedupe {
    type V = KnownModel;

    closed spec fn view(&self) -> KnownModel {
        KnownModel { payloads: self.cache@.map_values(|e: DedupeEntry| e.payload_hash) }
    }
}

impl HotDedupe {
    /// A cache that knows nothing. It expects about `capacity` events and grows
    /// where more come.
    pub fn new(capacity: usize) -> (r: Self)
        ensures
            r@.payloads == Map::<EventHash, EventHash>::empty(),
    {
        let room: usize = if capacity < MOST_SET_ASIDE {
            capacity
        } else {
            MOST_SET_ASIDE
        };
        let r = HotDedupe { cache: HashMap::with_capacity(room) };
        assert(r@.payloads =~= Map::<EventHash, EventHash>::empty());
        r
    }

    /// What an event is to the known ones. Nothing changes.
    pub fn classify(&self, event_id_hash: EventHash, payload_hash: EventHash) -> (r: DedupeResult)
        ensures
            r == self@.classified(event_id_hash, payload_hash),
    {
        match self.cache.get(&event_id_hash) {
            None => DedupeResult::NewEvent,
            Some(e) => if e.payload_hash == payload_hash {
                DedupeResult::ExactDuplicate
            } else {
                DedupeResult::PayloadConflict
            },
        }
    }

    /// When a known event was first seen.
    pub closed spec fn first_seen(self, id: EventHash) -> int {
        self.cache@[id].first_seen_ms as int
    }

    /// What `before` knew is known as first seen when it was then.
    pub open spec fn keeps_first_seen(self, before: HotDedupe) -> bool {
        forall|id: EventHash|
            before@.payloads.dom().contains(id) ==> #[trigger] self.first_seen(id)
                == before.first_seen(id)
    }

    /// Makes an event known.
    pub fn commit(&mut self, event_id_hash: EventHash, payload_hash: EventHash)
        ensures
            final(self)@ == old(self)@.committed(event_id_hash, payload_hash),
            final(self).keeps_first_seen(*old(self)),
    {
        let now: i64 = now_ms();
        self.commit_at(event_id_hash, payload_hash, now);
    }

    /// Makes an event known as first seen at the time `now_ms`.
    pub fn commit_at(&mut self, event_id_hash: EventHash, payload_hash: EventHash, now_ms: i64)
        ensures
            final(self)@ == old(self)@.committed(event_id_hash, payload_hash),
            final(self).keeps_first_seen(*old(self)),
            !old(self)@.payloads.dom().contains(event_id_hash) ==> final(self).first_seen(
                event_id_hash,
            ) == now_ms,
    {
        if self.cache.contains_key(&event_id_hash) {
            return ;
        }
        let ghost before = self@;
        let entry = DedupeEntry { payload_hash, first_seen_ms: now_ms };
        self.cache.insert(event_id_hash, entry);
        assert(self@.payloads =~= before.payloads.insert(event_id_hash, payload_hash));
    }

    /// Classifies an event, and makes it known where it is new.
    pub fn check_and_insert(&mut self, event_id_hash: EventHash, payload_hash: EventHash) -> (r:
        DedupeResult)
        ensures
            r == old(self)@.classified(event_id_hash, payload_hash),
            final(self)@ == old(self)@.committed(event_id_hash, payload_hash),
            final(self).keeps_first_seen(*old(self)),
    {
        let r = self.classify(event_id_hash, payload_hash);
        match r {
            DedupeResult::NewEvent => {
                self.commit(event_id_hash, payload_hash);
            },
            _ => {},
        }
        r
    }
}

impl Default for HotDedupe {
    /// A cache that knows nothing.
    fn default() -> (r: Self)
        ensures
            r@.payloads == Map::<EventHash, EventHash>::empty(),
    {
        HotDedupe::new(0)
    }
}

// ---------------------------------------------------------------------------
// Laws
// ---------------------------------------------------------------------------

/// The events of a sequence made known one after the other.
pub open spec fn all_committed(m: KnownModel, events: Seq<(EventHash, EventHash)>) -> KnownModel
    decreases events.len(),
{
    if events.len() == 0 {
        m
    } else {
        all_committed(m, events.drop_last()).committed(events.last().0, events.last().1)
    }
}

/// A retry is no new event: an event that has just been made known is an exact
/// duplicate, and the same id with another payload is a conflict.
pub proof fn law_retry_is_a_duplicate(
    m: KnownModel,
    id: EventHash,
    payload: EventHash,
    other: EventHash,
)
    requires
        m.classified(id, payload) == DedupeResult::NewEvent,
        other != payload,
    ensures
        m.committed(id, payload).classified(id, payload) == DedupeResult::ExactDuplicate,
        m.committed(id, payload).classified(id, other) == DedupeResult::PayloadConflict,
{
}

/// Nothing is forgotten: whatever comes after it, an event that is known is to the
/// cache what it was, a duplicate with its own payload and a conflict with any
/// other.
pub proof fn law_known_events_stay_known(
    m: KnownModel,
    events: Seq<(EventHash, EventHash)>,
    id: EventHash,
    payload: EventHash,
)
    requires
        m.classified(id, payload) != DedupeResult::NewEvent,
    ensures
        all_committed(m, events).classified(id, payload) == m.classified(id, payload),
    decreases events.len(),
{
    if events.len() > 0 {
        law_known_events_stay_known(m, events.drop_last(), id, payload);
    }
}

/// The first event with an id is the one that is kept: an event of a sequence that
/// is not known before, and the first with its id there, is known afterwards with
/// its payload.
pub proof fn law_first_payload_is_kept(
    m: KnownModel,
    events: Seq<(EventHash, EventHash)>,
    place: int,
)
    requires
        0 <= place < events.len(),
        m.classified(events[place].0, events[place].1) == DedupeResult::NewEvent,
        forall|i: int| 0 <= i < place ==> (#[trigger] events[i]).0 != events[place].0,
    ensures
        all_committed(m, events).classified(events[place].0, events[place].1)
            == DedupeResult::ExactDuplicate,
    decreases events.len(),
{
    let (id, payload) = events[place];
    let rest = events.drop_last();
    if place < rest.len() {
        assert(rest[place] == events[place]);
        assert forall|i: int| 0 <= i < place implies (#[trigger] rest[i]).0 != id by {
            assert(rest[i] == events[i]);
        }
        law_first_payload_is_kept(m, rest, place);
    } else {
        lemma_only_what_came(m, rest, id);
        if all_committed(m, rest).payloads.dom().contains(id) {
            let i = choose|i: int| 0 <= i < rest.len() && (#[trigger] rest[i]).0 == id;
            assert(events[i] == rest[i]);
        }
    }
}

proof fn lemma_only_what_came(m: KnownModel, events: Seq<(EventHash, EventHash)>, id: EventHash)
    ensures
        all_committed(m, events).payloads.dom().contains(id) ==> m.payloads.dom().contains(id)
            || exists|i: int| 0 <= i < events.len() && (#[trigger] events[i]).0 == id,
    decreases events.len(),
{
    if events.len() > 0 {
        let rest = events.drop_last();
        lemma_only_what_came(m, rest, id);
        if exists|i: int| 0 <= i < rest.len() && (#[trigger] rest[i]).0 == id {
            let i = choose|i: int| 0 <= i < rest.len() && (#[trigger] rest[i]).0 == id;
            assert(events[i] == rest[i]);
        }
        assert(events[events.len() - 1] == events.last());
    }
}

} // verus!
