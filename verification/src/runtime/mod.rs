//! Starting up and keeping state.

pub mod lifecycle;
pub mod recovery;
pub mod state;
pub mod config;
pub mod replay;
