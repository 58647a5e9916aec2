//! Queries: plans, the SQL subset that makes them, and their execution.

pub mod syntax;
pub mod executor;
pub mod meaning;
pub mod order;
pub mod plan;
pub mod pruning;
pub mod reconcile;
pub mod sql;
pub mod sql_meaning;
