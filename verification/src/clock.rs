//! The time of day.

use vstd::prelude::*;

use std::time::{SystemTime, UNIX_EPOCH};

verus! {

/// `std::time::SystemTime::now`, in milliseconds since the Unix epoch, and zero
/// on a clock that stands before it. Nothing is claimed of it.
#[verifier::external_body]
pub(crate) fn now_ms() -> (r: i64) {
    SystemTime::now().duration_since(UNIX_EPOCH).map(|d| d.as_millis() as i64).unwrap_or(0)
}

} // verus!
