//! What can be written to.

use vstd::prelude::*;

use crate::api::http::IngestBatchResponse;
use crate::model::event::UsageEvent;
use crate::text;

verus! {

/// Why events could not be written.
#[derive(Debug, PartialEq, Eq)]
pub enum UsageError {
    StorageError(String),
    ValidationError(String),
}

impl UsageError {
    /// The error in words.
    pub fn message(&self) -> (r: String)
        ensures
            r@ == match self {
                UsageError::StorageError(s) => "Internal storage error: "@ + s@,
                UsageError::ValidationError(s) => "Validation error: "@ + s@,
            },
    {
        match self {
            UsageError::StorageError(s) => text::join2("Internal storage error: ", s.as_str()),
            UsageError::ValidationError(s) => text::join2("Validation error: ", s.as_str()),
        }
    }
}

/// Something that takes batches of events in.
pub trait UsageWriter {
    fn ingest_batch(&self, batch: Vec<UsageEvent>) -> Result<IngestBatchResponse, UsageError>;
}

} // verus!
