//! Events that no segment holds yet.

use vstd::prelude::*;

use crate::clock::now_ms;
use crate::model::dimensions::SmallDimensions;
use crate::model::event;
use crate::model::event::{EventModel, UsageEvent};

verus! {

/// How many bytes a text takes.
pub open spec fn byte_len(s: Seq<char>) -> nat {
    vstd::utf8::encode_utf8(s).len()
}

pub open spec fn option_len(s: Option<Seq<char>>) -> nat {
    match s {
        Some(s) => byte_len(s),
        None => 0,
    }
}

/// What the dimensions take: their texts, and 64 bytes for each entry's place in
/// a map.
pub open spec fn dimensions_len(dims: Seq<(Seq<char>, Seq<char>)>) -> nat
    decreases dims.len(),
{
    if dims.len() == 0 {
        0
    } else {
        dimensions_len(dims.drop_last()) + byte_len(dims.last().0) + byte_len(dims.last().1) + 64
    }
}

/// About how many bytes an event takes.
pub open spec fn estimated(e: EventModel) -> nat {
    vstd::layout::size_of::<UsageEvent>() + byte_len(e.event_id) + byte_len(e.account_id)
        + option_len(e.subscription_id) + byte_len(e.product_id) + byte_len(e.meter_id) + byte_len(
        e.source,
    ) + byte_len(e.unit) + option_len(e.model_id) + match e.correction_ref {
        Some((id, reason)) => byte_len(id) + byte_len(reason),
        None => 0,
    } + dimensions_len(e.dimensions)
}

/// A number of bytes as far as a machine can count it.
pub open spec fn counted(n: int) -> int {
    if n > usize::MAX {
        usize::MAX as int
    } else {
        n
    }
}

/// About how many bytes events take.
pub open spec fn estimated_all(events: Seq<EventModel>) -> nat
    decreases events.len(),
{
    if events.len() == 0 {
        0
    } else {
        estimated_all(events.drop_last()) + estimated(events.last())
    }
}

/// The earliest time of events.
pub open spec fn earliest_time(events: Seq<EventModel>) -> Option<i64>
    decreases events.len(),
{
    if events.len() == 0 {
        None
    } else {
        match earliest_time(events.drop_last()) {
            Some(t) if t <= events.last().timestamp_ms => Some(t),
            _ => Some(events.last().timestamp_ms),
        }
    }
}

/// The events that have been taken in and not yet been flushed.
#[derive(Debug)]
pub struct Memtable {
    events: Vec<UsageEvent>,
    approx_size_bytes: usize,
    oldest_insert_at_ms: Option<i64>,
}

impl View for Memtable {
    type V = Seq<EventModel>;

    closed spec fn view(&self) -> Seq<EventModel> {
        event::event_views(self.events@)
    }
}

fn text_bytes(s: &String) -> (n: usize)
    ensures
        n == byte_len(s@),
{
    s.as_str().as_bytes().len()
}

fn plus(a: usize, b: usize) -> (r: usize)
    ensures
        r == counted(a + b),
{
    match a.checked_add(b) {
        Some(v) => v,
        None => usize::MAX,
    }
}

fn dimension_bytes(d: &SmallDimensions) -> (n: usize)
    ensures
        n == counted(dimensions_len(d@) as int),
{
    let mut total: usize = 0;
    let ghost all = d@;
    let n: usize = d.inner.len();
    for i in 0..n
        invariant
            all == d@,
            n == d.inner@.len(),
            total == counted(dimensions_len(all.take(i as int)) as int),
    {
        proof {
            assert(all.take(i + 1).drop_last() =~= all.take(i as int));
            assert(all.take(i + 1).last() == (d.inner@[i as int].0, d.inner@[i as int].1@));
        }
        total = plus(total, text_bytes(d.inner.key_at(i)));
        total = plus(total, text_bytes(d.inner.value_at(i)));
        total = plus(total, 64);
    }
    assert(all.take(all.len() as int) =~= all);
    total
}

impl Memtable {
    /// When the oldest event was put in.
    pub closed spec fn oldest(self) -> Option<i64> {
        self.oldest_insert_at_ms
    }

    /// The size is that of the events, and a time is known where there are some.
    pub closed spec fn wf(self) -> bool {
        &&& self.approx_size_bytes == counted(estimated_all(self@) as int)
        &&& self.oldest_insert_at_ms is Some <==> self@.len() > 0
    }

    /// An empty memtable.
    pub fn new() -> (r: Self)
        ensures
            r.wf(),
            r@ == Seq::<EventModel>::empty(),
            r.oldest() is None,
    {
        let r = Memtable { events: Vec::new(), approx_size_bytes: 0, oldest_insert_at_ms: None };
        assert(r@ =~= Seq::<EventModel>::empty());
        r
    }

    /// Puts an event in.
    pub fn insert(&mut self, event: UsageEvent)
        requires
            old(self).wf(),
        ensures
            final(self).wf(),
            final(self)@ == old(self)@.push(event@),
            old(self)@.len() > 0 ==> final(self).oldest() == old(self).oldest(),
    {
        let now: i64 = now_ms();
        self.insert_at(event, now);
    }

    /// Puts an event in at the time `now_ms`.
    pub fn insert_at(&mut self, event: UsageEvent, now_ms: i64)
        requires
            old(self).wf(),
        ensures
            final(self).wf(),
            final(self)@ == old(self)@.push(event@),
            final(self).oldest() == if old(self)@.len() > 0 {
                old(self).oldest()
            } else {
                Some(now_ms)
            },
    {
        let size: usize = Memtable::estimate_event_size(&event);
        let empty = self.events.len() == 0;
        proof {
            event::lemma_views_push(self.events@, event);
            assert(self@.push(event@).drop_last() =~= self@);
        }
        self.approx_size_bytes = plus(self.approx_size_bytes, size);
        if empty {
            self.oldest_insert_at_ms = Some(now_ms);
        }
        self.events.push(event);
    }

    /// About how many bytes an event takes.
    pub fn estimate_event_size(event: &UsageEvent) -> (n: usize)
        ensures
            n == counted(estimated(event@) as int),
    {
        let mut total: usize = std::mem::size_of::<UsageEvent>();
        total = plus(total, text_bytes(&event.event_id.0));
        total = plus(total, text_bytes(&event.account_id.0));
        if let Some(s) = &event.subscription_id {
            total = plus(total, text_bytes(&s.0));
        }
        total = plus(total, text_bytes(&event.product_id.0));
        total = plus(total, text_bytes(&event.meter_id.0));
        total = plus(total, text_bytes(&event.source.0));
        total = plus(total, text_bytes(&event.unit.0));
        if let Some(m) = &event.model_id {
            total = plus(total, text_bytes(&m.0));
        }
        if let Some(c) = &event.correction_ref {
            total = plus(total, text_bytes(&c.original_event_id.0));
            total = plus(total, text_bytes(&c.reason));
        }
        plus(total, dimension_bytes(&event.dimensions))
    }

    /// About how many bytes the events take.
    pub fn size_bytes(&self) -> (n: usize)
        requires
            self.wf(),
        ensures
            n == counted(estimated_all(self@) as int),
    {
        self.approx_size_bytes
    }

    /// How many events there are.
    pub fn len(&self) -> (n: usize)
        ensures
            n == self@.len(),
    {
        self.events.len()
    }

    pub fn is_empty(&self) -> (r: bool)
        ensures
            r == (self@.len() == 0),
    {
        self.events.len() == 0
    }

    /// When the oldest event was put in.
    pub fn oldest_insert_at_ms(&self) -> (r: Option<i64>)
        requires
            self.wf(),
        ensures
            r == self.oldest(),
            r is Some <==> self@.len() > 0,
    {
        self.oldest_insert_at_ms
    }

    /// The earliest time of an event. The watermark of the rollups must not pass
    /// it.
    pub fn min_event_timestamp_ms(&self) -> (r: Option<i64>)
        ensures
            r == earliest_time(self@),
    {
        let mut least: Option<i64> = None;
        let ghost all = self@;
        for i in 0..self.events.len()
            invariant
                all == event::event_views(self.events@),
                least == earliest_time(all.take(i as int)),
        {
            proof {
                assert(all.take(i + 1).drop_last() =~= all.take(i as int));
                assert(all.take(i + 1).last() == self.events@[i as int]@);
            }
            let t: i64 = self.events[i].timestamp_ms;
            least = match least {
                Some(m) => if m <= t {
                    Some(m)
                } else {
                    Some(t)
                },
                None => Some(t),
            };
        }
        assert(all.take(all.len() as int) =~= all);
        least
    }

    /// Takes all events out, in the order in which they came in.
    pub fn drain_all(&mut self) -> (r: Vec<UsageEvent>)
        ensures
            event::event_views(r@) == old(self)@,
            final(self)@ == Seq::<EventModel>::empty(),
            final(self).wf(),
            final(self).oldest() is None,
    {
        let mut events: Vec<UsageEvent> = Vec::new();
        std::mem::swap(&mut events, &mut self.events);
        self.approx_size_bytes = 0;
        self.oldest_insert_at_ms = None;
        assert(self@ =~= Seq::<EventModel>::empty());
        events
    }

    /// A copy of the events, for queries over data that is not flushed.
    pub fn snapshot(&self) -> (r: Vec<UsageEvent>)
        ensures
            event::event_views(r@) == self@,
    {
        event::clone_events(&self.events)
    }

    /// Puts drained events back in front of those that have come since, where
    /// they could not be flushed.
    pub fn restore(&mut self, events: Vec<UsageEvent>, now_ms: i64)
        requires
            old(self).wf(),
        ensures
            final(self).wf(),
            final(self)@ == event::event_views(events@) + old(self)@,
            final(self).oldest() == if old(self)@.len() > 0 {
                old(self).oldest()
            } else if events@.len() > 0 {
                Some(now_ms)
            } else {
                None
            },
    {
        let ghost before = self@;
        let oldest: Option<i64> = match self.oldest_insert_at_ms {
            Some(t) => Some(t),
            None => if events.len() > 0 {
                Some(now_ms)
            } else {
                None
            },
        };
        let mut later = self.drain_all();
        let ghost back = events@;
        let mut all: Vec<UsageEvent> = events;
        let ghost rest = later@;
        all.append(&mut later);
        proof {
            assert(event::event_views(all@) =~= event::event_views(back) + event::event_views(
                rest,
            ));
        }
        let mut size: usize = 0;
        let ghost views = event::event_views(all@);
        for i in 0..all.len()
            invariant
                views == event::event_views(all@),
                size == counted(estimated_all(views.take(i as int)) as int),
        {
            proof {
                assert(views.take(i + 1).drop_last() =~= views.take(i as int));
                assert(views.take(i + 1).last() == all@[i as int]@);
            }
            size = plus(size, Memtable::estimate_event_size(&all[i]));
        }
        assert(views.take(views.len() as int) =~= views);
        self.events = all;
        self.approx_size_bytes = size;
        self.oldest_insert_at_ms = oldest;
    }
}

/// A memtable has an age where it holds events, and only there.
pub proof fn law_age_where_events_wait(m: Memtable)
    requires
        m.wf(),
    ensures
        m.oldest() is Some <==> m@.len() > 0,
{
}

impl Default for Memtable {
    fn default() -> (r: Self)
        ensures
            r.wf(),
            r@ == Seq::<EventModel>::empty(),
            r.oldest() is None,
    {
        Memtable::new()
    }
}

/// The estimate of an event counts the bytes of each of its texts once.
pub proof fn law_estimates_count_texts(e: EventModel, t: Seq<char>, u: Seq<char>)
    ensures
        estimated(EventModel { event_id: t, ..e }) - estimated(e) == byte_len(t) - byte_len(
            e.event_id,
        ),
        estimated(EventModel { account_id: t, ..e }) - estimated(e) == byte_len(t) - byte_len(
            e.account_id,
        ),
        estimated(EventModel { product_id: t, ..e }) - estimated(e) == byte_len(t) - byte_len(
            e.product_id,
        ),
        estimated(EventModel { meter_id: t, ..e }) - estimated(e) == byte_len(t) - byte_len(
            e.meter_id,
        ),
        estimated(EventModel { source: t, ..e }) - estimated(e) == byte_len(t) - byte_len(e.source),
        estimated(EventModel { unit: t, ..e }) - estimated(e) == byte_len(t) - byte_len(e.unit),
        estimated(EventModel { subscription_id: Some(t), ..e }) == estimated(
            EventModel { subscription_id: None, ..e },
        ) + byte_len(t),
        estimated(EventModel { model_id: Some(t), ..e }) == estimated(
            EventModel { model_id: None, ..e },
        ) + byte_len(t),
        estimated(EventModel { correction_ref: Some((t, u)), ..e }) == estimated(
            EventModel { correction_ref: None, ..e },
        ) + byte_len(t) + byte_len(u),
        estimated(EventModel { dimensions: e.dimensions.push((t, u)), ..e }) == estimated(e)
            + byte_len(t) + byte_len(u) + 64,
        estimated(e) >= vstd::layout::size_of::<UsageEvent>(),
{
    assert(e.dimensions.push((t, u)).drop_last() =~= e.dimensions);
}

/// The estimate of events is that of each of them, added up.
pub proof fn law_estimates_add_up(a: Seq<EventModel>, e: EventModel)
    ensures
        estimated_all(a.push(e)) == estimated_all(a) + estimated(e),
        estimated_all(Seq::empty()) == 0,
{
    assert(a.push(e).drop_last() =~= a);
}

/// The earliest time of events is that of one of them, and none is earlier; without
/// events there is none.
pub proof fn law_earliest_time(events: Seq<EventModel>)
    ensures
        earliest_time(events) is Some <==> events.len() > 0,
        earliest_time(events) matches Some(t) ==> {
            &&& forall|i: int| 0 <= i < events.len() ==> t <= (#[trigger] events[i]).timestamp_ms
            &&& exists|i: int| 0 <= i < events.len() && (#[trigger] events[i]).timestamp_ms == t
        },
    decreases events.len(),
{
    if events.len() > 0 {
        let init = events.drop_last();
        law_earliest_time(init);
        let t = earliest_time(events)->0;
        assert(events[events.len() - 1] == events.last());
        assert forall|i: int| 0 <= i < events.len() implies t <= (
        #[trigger] events[i]).timestamp_ms by {
            if i < init.len() {
                assert(events[i] == init[i]);
            }
        }
        if init.len() > 0 {
            let x = choose|x: int|
                0 <= x < init.len() && (#[trigger] init[x]).timestamp_ms == earliest_time(init)->0;
            assert(events[x] == init[x]);
        }
    }
}

} // verus!
