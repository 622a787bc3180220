//! Request and response types of the knowledge-graph routes, with the
//! defaults their optional fields take.

pub mod types;
pub mod utils;
