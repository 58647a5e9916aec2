//! The rows of hourly rollups.

use vstd::prelude::*;

use crate::model::event;
use crate::model::event::{clone_model, clone_subscription};
use crate::model::ids::{
    AccountId, MeterId, ModelId, ProductId, SourceId, SubscriptionId, Unit,
};

verus! {

/// What the events of one rollup row have in common. The dimensions stand in
/// their canonical text, so that rows of different segments can be compared.
#[derive(Debug, PartialEq, Eq)]
pub struct HourlyRollupKey {
    pub account_id: AccountId,
    pub subscription_id: Option<SubscriptionId>,
    pub product_id: ProductId,
    pub meter_id: MeterId,
    pub model_id: Option<ModelId>,
    pub source: SourceId,
    pub unit: Unit,
    pub hour_start_ms: i64,
    pub dimensions_canonical: String,
}

/// The events of one hour that share a key, added up.
#[derive(Debug, PartialEq, Eq)]
pub struct HourlyRollupRecord {
    pub account_id: AccountId,
    pub subscription_id: Option<SubscriptionId>,
    pub product_id: ProductId,
    pub meter_id: MeterId,
    pub model_id: Option<ModelId>,
    pub source: SourceId,
    pub unit: Unit,
    pub hour_start_ms: i64,
    pub dimensions_canonical: String,
    pub quantity_sum: i128,
    pub event_count: u64,
    pub first_event_ms: i64,
    pub last_event_ms: i64,
}

/// A rollup key by its contents.
#[verifier::ext_equal]
pub struct KeyModel {
    pub account_id: Seq<char>,
    pub subscription_id: Option<Seq<char>>,
    pub product_id: Seq<char>,
    pub meter_id: Seq<char>,
    pub model_id: Option<Seq<char>>,
    pub source: Seq<char>,
    pub unit: Seq<char>,
    pub hour_start_ms: i64,
    pub dimensions_canonical: Seq<char>,
}

/// A rollup row by its contents.
#[verifier::ext_equal]
pub struct RecordModel {
    pub key: KeyModel,
    pub quantity_sum: i128,
    pub event_count: u64,
    pub first_event_ms: i64,
    pub last_event_ms: i64,
}

impl View for HourlyRollupKey {
    type V = KeyModel;

    open spec fn view(&self) -> KeyModel {
        KeyModel {
            account_id: self.account_id@,
            subscription_id: event::subscription_view(self.subscription_id),
            product_id: self.product_id@,
            meter_id: self.meter_id@,
            model_id: event::model_view(self.model_id),
            source: self.source@,
            unit: self.unit@,
            hour_start_ms: self.hour_start_ms,
            dimensions_canonical: self.dimensions_canonical@,
        }
    }
}

impl View for HourlyRollupRecord {
    type V = RecordModel;

    open spec fn view(&self) -> RecordModel {
        RecordModel {
            key: KeyModel {
                account_id: self.account_id@,
                subscription_id: event::subscription_view(self.subscription_id),
                product_id: self.product_id@,
                meter_id: self.meter_id@,
                model_id: event::model_view(self.model_id),
                source: self.source@,
                unit: self.unit@,
                hour_start_ms: self.hour_start_ms,
                dimensions_canonical: self.dimensions_canonical@,
            },
            quantity_sum: self.quantity_sum,
            event_count: self.event_count,
            first_event_ms: self.first_event_ms,
            last_event_ms: self.last_event_ms,
        }
    }
}

/// Rows by their contents, in their order.
pub open spec fn record_views(records: Seq<HourlyRollupRecord>) -> Seq<RecordModel> {
    records.map_values(|r: HourlyRollupRecord| r@)
}

pub proof fn lemma_records_push(records: Seq<HourlyRollupRecord>, r: HourlyRollupRecord)
    ensures
        record_views(records.push(r)) == record_views(records).push(r@),
{
    assert(record_views(records.push(r)) =~= record_views(records).push(r@));
}

impl Clone for HourlyRollupRecord {
    fn clone(&self) -> (r: Self)
        ensures
            r@ == self@,
    {
        HourlyRollupRecord {
            account_id: self.account_id.clone(),
            subscription_id: clone_subscription(&self.subscription_id),
            product_id: self.product_id.clone(),
            meter_id: self.meter_id.clone(),
            model_id: clone_model(&self.model_id),
            source: self.source.clone(),
            unit: self.unit.clone(),
            hour_start_ms: self.hour_start_ms,
            dimensions_canonical: self.dimensions_canonical.clone(),
            quantity_sum: self.quantity_sum,
            event_count: self.event_count,
            first_event_ms: self.first_event_ms,
            last_event_ms: self.last_event_ms,
        }
    }
}

/// The rows of the keys that have been met so far.
#[derive(Debug)]
pub struct HourlyRollupState {
    pub aggregates: Vec<HourlyRollupRecord>,
}

impl HourlyRollupState {
    /// No rows.
    pub fn new() -> (r: Self)
        ensures
            r.aggregates@.len() == 0,
    {
        HourlyRollupState { aggregates: Vec::new() }
    }
}

impl Default for HourlyRollupState {
    fn default() -> (r: Self)
        ensures
            r.aggregates@.len() == 0,
    {
        HourlyRollupState::new()
    }
}

} // verus!
