//! The client: keeps requests going for a while and measures them.

pub mod drain;
pub mod drive;
pub mod endpoint;
pub mod exchange;
pub mod request;
pub mod session;
pub mod stats;
