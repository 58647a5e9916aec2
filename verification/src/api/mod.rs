//! Requests and their answers.

pub mod http;
pub mod http_server;
pub mod queries;
pub mod reports;
