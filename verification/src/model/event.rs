//! Usage events.

use vstd::prelude::*;

use crate::model::dimensions::SmallDimensions;
use crate::model::ids::{
    AccountId, EventId, MeterId, ModelId, ProductId, SourceId, SubscriptionId, Unit,
};
use crate::textmap;

verus! {

/// What an event reports.
#[derive(Debug, Clone, Copy, PartialEq, Eq, Structural)]
pub enum EventKind {
    Usage,
    Correction,
    Retraction,
}

/// The name of an event kind.
pub open spec fn kind_text(kind: EventKind) -> Seq<char> {
    match kind {
        EventKind::Usage => "Usage"@,
        EventKind::Correction => "Correction"@,
        EventKind::Retraction => "Retraction"@,
    }
}

impl EventKind {
    /// The name of the kind.
    pub fn as_text(self) -> (r: &'static str)
        ensures
            r@ == kind_text(self),
    {
        match self {
            EventKind::Usage => "Usage",
            EventKind::Correction => "Correction",
            EventKind::Retraction => "Retraction",
        }
    }
}

/// The event that a correction or a retraction is about.
#[derive(Debug, PartialEq, Eq)]
pub struct CorrectionRef {
    pub original_event_id: EventId,
    pub reason: String,
}

/// One event, as it was reported.
#[derive(Debug, PartialEq, Eq)]
pub struct UsageEvent {
    pub event_id: EventId,
    pub kind: EventKind,
    pub correction_ref: Option<CorrectionRef>,
    pub account_id: AccountId,
    pub subscription_id: Option<SubscriptionId>,
    pub product_id: ProductId,
    pub meter_id: MeterId,
    pub timestamp_ms: i64,
    pub quantity: i128,
    pub unit: Unit,
    pub source: SourceId,
    pub model_id: Option<ModelId>,
    pub dimensions: SmallDimensions,
    pub ingested_at_ms: i64,
}

/// An event by its contents.
#[verifier::ext_equal]
pub struct EventModel {
    pub event_id: Seq<char>,
    pub kind: EventKind,
    pub correction_ref: Option<(Seq<char>, Seq<char>)>,
    pub account_id: Seq<char>,
    pub subscription_id: Option<Seq<char>>,
    pub product_id: Seq<char>,
    pub meter_id: Seq<char>,
    pub timestamp_ms: i64,
    pub quantity: i128,
    pub unit: Seq<char>,
    pub source: Seq<char>,
    pub model_id: Option<Seq<char>>,
    pub dimensions: Seq<(Seq<char>, Seq<char>)>,
    pub ingested_at_ms: i64,
}

impl EventModel {
    /// The dimensions stand in the order of their names, each once.
    pub open spec fn wf(self) -> bool {
        textmap::keys_ascend(self.dimensions)
    }
}

pub open spec fn correction_view(c: Option<CorrectionRef>) -> Option<(Seq<char>, Seq<char>)> {
    match c {
        Some(c) => Some((c.original_event_id@, c.reason@)),
        None => None,
    }
}

pub open spec fn subscription_view(id: Option<SubscriptionId>) -> Option<Seq<char>> {
    match id {
        Some(id) => Some(id@),
        None => None,
    }
}

pub open spec fn model_view(id: Option<ModelId>) -> Option<Seq<char>> {
    match id {
        Some(id) => Some(id@),
        None => None,
    }
}

impl View for UsageEvent {
    type V = EventModel;

    open spec fn view(&self) -> EventModel {
        EventModel {
            event_id: self.event_id@,
            kind: self.kind,
            correction_ref: correction_view(self.correction_ref),
            account_id: self.account_id@,
            subscription_id: subscription_view(self.subscription_id),
            product_id: self.product_id@,
            meter_id: self.meter_id@,
            timestamp_ms: self.timestamp_ms,
            quantity: self.quantity,
            unit: self.unit@,
            source: self.source@,
            model_id: model_view(self.model_id),
            dimensions: self.dimensions@,
            ingested_at_ms: self.ingested_at_ms,
        }
    }
}

/// Events by their contents, in their order.
pub open spec fn event_views(events: Seq<UsageEvent>) -> Seq<EventModel> {
    events.map_values(|e: UsageEvent| e@)
}

pub proof fn lemma_views_push(events: Seq<UsageEvent>, e: UsageEvent)
    ensures
        event_views(events.push(e)) == event_views(events).push(e@),
{
    assert(event_views(events.push(e)) =~= event_views(events).push(e@));
}

impl Clone for CorrectionRef {
    fn clone(&self) -> (r: Self)
        ensures
            r.original_event_id@ == self.original_event_id@,
            r.reason@ == self.reason@,
    {
        CorrectionRef {
            original_event_id: self.original_event_id.clone(),
            reason: self.reason.clone(),
        }
    }
}

/// A copy of an optional model identifier.
pub fn clone_model(id: &Option<ModelId>) -> (r: Option<ModelId>)
    ensures
        model_view(r) == model_view(*id),
{
    match id {
        Some(m) => Some(m.clone()),
        None => None,
    }
}

/// A copy of an optional subscription identifier.
pub fn clone_subscription(id: &Option<SubscriptionId>) -> (r: Option<SubscriptionId>)
    ensures
        subscription_view(r) == subscription_view(*id),
{
    match id {
        Some(s) => Some(s.clone()),
        None => None,
    }
}

impl Clone for UsageEvent {
    fn clone(&self) -> (r: Self)
        ensures
            r@ == self@,
    {
        let correction_ref = match &self.correction_ref {
            Some(c) => Some(c.clone()),
            None => None,
        };
        UsageEvent {
            event_id: self.event_id.clone(),
            kind: self.kind,
            correction_ref,
            account_id: self.account_id.clone(),
            subscription_id: clone_subscription(&self.subscription_id),
            product_id: self.product_id.clone(),
            meter_id: self.meter_id.clone(),
            timestamp_ms: self.timestamp_ms,
            quantity: self.quantity,
            unit: self.unit.clone(),
            source: self.source.clone(),
            model_id: clone_model(&self.model_id),
            dimensions: self.dimensions.clone(),
            ingested_at_ms: self.ingested_at_ms,
        }
    }
}

/// Copies of events, in their order.
pub fn clone_events(events: &Vec<UsageEvent>) -> (r: Vec<UsageEvent>)
    ensures
        event_views(r@) == event_views(events@),
{
    let mut r: Vec<UsageEvent> = Vec::new();
    for i in 0..events.len()
        invariant
            event_views(r@) == event_views(events@).take(i as int),
    {
        let e = events[i].clone();
        proof {
            lemma_views_push(r@, e);
        }
        r.push(e);
        assert(event_views(events@)[i as int] == events@[i as int]@);
        assert(event_views(events@).take(i + 1) =~= event_views(events@).take(i as int).push(
            events@[i as int]@,
        ));
    }
    assert(event_views(events@).take(events@.len() as int) =~= event_views(events@));
    r
}

/// The kinds of events by their names.
pub proof fn law_names_of_kinds(kind: EventKind)
    ensures
        kind == EventKind::Usage <==> kind_text(kind) == "Usage"@,
        kind == EventKind::Correction <==> kind_text(kind) == "Correction"@,
        kind == EventKind::Retraction <==> kind_text(kind) == "Retraction"@,
{
    reveal_strlit("Usage");
    reveal_strlit("Correction");
    reveal_strlit("Retraction");
    assert("Usage"@.len() == 5);
    assert("Correction"@.len() == 10);
    assert("Retraction"@.len() == 10);
    assert("Correction"@[0] == 'C' && "Retraction"@[0] == 'R');
}

} // verus!
