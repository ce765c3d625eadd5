//! A minimal chat relay core: a newline-delimited frame codec for chat
//! messages, a lock-friendly registry of live connections, and the
//! per-connection reader state machine that drives message relay and
//! disconnect handling. All I/O stays with the caller; every function
//! here is pure bookkeeping over plain values, verified against the
//! contracts below.

pub mod client;
pub mod codec;
pub mod reader;
pub mod registry;
pub mod text;
