//! Requests and answers, as they come over the wire.

use vstd::prelude::*;

use crate::model::event::UsageEvent;
use crate::model::ids::{AccountId, MeterId, ModelId, ProductId};
use crate::text::join2;

verus! {

/// A query with filters of any shape. The times are texts in the form of RFC 3339.
#[derive(Debug, PartialEq, Eq)]
pub struct UsageQueryRequest {
    /// `usage_events` for the events themselves; anything else reads rollups.
    pub source: String,
    pub account_id: String,
    pub from: String,
    pub to: String,
    /// Fields, each with the values that are let through.
    pub filters: Option<Vec<(String, Vec<String>)>>,
    pub group_by: Vec<String>,
    /// Names, each with `sum` or `count`.
    pub metrics: Option<Vec<(String, String)>>,
}

/// A query in SQL.
#[derive(Debug, PartialEq, Eq)]
pub struct SqlQueryRequest {
    pub query: String,
}

/// One line of an answer.
#[derive(Debug, PartialEq, Eq)]
pub struct UsageQueryResponseLine {
    pub product_id: ProductId,
    pub meter_id: MeterId,
    pub model_id: Option<ModelId>,
    pub quantity: i128,
}

/// An account's usage over a time range.
#[derive(Debug, PartialEq, Eq)]
pub struct UsageQueryResponse {
    pub account_id: AccountId,
    pub from_ms: i64,
    pub to_ms: i64,
    pub watermark_ms: i64,
    pub lines: Vec<UsageQueryResponseLine>,
}

/// A batch of events.
#[derive(Debug, PartialEq, Eq)]
pub struct IngestBatchRequest {
    pub events: Vec<UsageEvent>,
}

/// What became of the events of a batch.
#[derive(Debug, Clone, Copy, PartialEq, Eq, Structural)]
pub struct IngestBatchResponse {
    pub accepted: usize,
    pub duplicates: usize,
    pub conflicts: usize,
    pub rejected: usize,
}

/// Why a request could not be answered.
#[derive(Debug, PartialEq, Eq)]
pub struct AppError(pub String);

impl AppError {
    /// What the client is told.
    pub fn message(&self) -> (r: String)
        ensures
            r@ == "Internal server error: "@ + self.0@,
    {
        join2("Internal server error: ", self.0.as_str())
    }
}

} // verus!
