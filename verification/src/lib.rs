//! The decisions of a set of network benchmark programs, apart from the sockets they drive.
//!
//! [`tcp`] is the server that plays one side of a benchmark scenario over TCP. [`perf`] is a
//! client and a server that measure how fast a QUIC connection moves bytes in each direction.
//!
//! Every program is a set of small machines. A machine is told what the last outside operation
//! came to (an event) and answers with the next one to perform (an action). Whoever owns the
//! sockets performs the action and reports back. In what order a machine has its operations
//! performed, the numbers and bytes they are given, and what the machine ends with are fixed here.
//! How a program sets up its connection is not.

pub mod net;
pub mod perf;
pub mod tcp;
