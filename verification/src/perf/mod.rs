//! A client and a server that measure a QUIC connection.
//!
//! A request is a stream that starts with the number of bytes the client wants back, eight bytes
//! in big-endian order, and goes on with as many bytes as the client cares to send. The response
//! is as many bytes as the request asked for.

pub mod buffer;
pub mod client;
pub mod data;
pub mod error;
pub mod laws;
pub mod server;
pub mod wire;
