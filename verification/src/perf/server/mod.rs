//! The server: reads requests and answers each with as many bytes as it asks for.

pub mod handle;
pub mod intake;
pub mod read;
pub mod respond;
