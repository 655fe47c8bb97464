//! A key-value server speaking the RESP wire protocol: frame encoding and
//! decoding, command parsing, and the command semantics over an in-memory
//! store with expiring entries.
pub mod buffer;
pub mod command;
pub mod decimal;
pub mod duration;
pub mod execute;
pub mod connection;
pub mod frame;
pub mod pubsub;
pub mod store;
