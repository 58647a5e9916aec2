//! The data model: identifiers, events and their dimensions.

pub mod dimensions;
pub mod event;
pub mod ids;
pub mod query;
