//! A single-threaded key-value server core: a newline-delimited GET/PUT
//! protocol codec, per-connection framing and buffering, a handle-keyed
//! connection registry, an in-memory store, and the dispatcher that ties
//! them together. All I/O stays outside; every function here is verified.

pub mod codec;
pub mod conn;
pub mod framing;
pub mod registry;
pub mod server;
pub mod store;

pub use codec::Command;
