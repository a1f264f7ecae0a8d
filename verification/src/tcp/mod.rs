//! The TCP side of a benchmark scenario: accepting connections and serving each of them.

pub mod connection;
pub mod server;
