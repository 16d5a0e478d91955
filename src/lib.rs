//! A key-value store kept in one append-only log.
//!
//! Each mutation is a record appended to the log; opening the log replays
//! its records in order. A partial record at the end, left by an interrupted
//! append, is dropped; a malformed record before it makes the log corrupt.
//! The library holds the log format, the replay and the in-memory index; the
//! caller does the file I/O.

pub mod codec;
pub mod error;
pub mod laws;
pub mod log;
pub mod record;
pub mod store;
