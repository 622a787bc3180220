//! Request and response bodies of the HTTP API.

pub mod handlers;
pub mod types;
pub mod ws;
