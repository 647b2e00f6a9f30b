//! An embedded, append-only event store: a record log with CRC-checked framing,
//! crash recovery, event frames, and a per-stream index with contiguous versions.
//!
//! The library holds the logic over plain bytes: what is on disk is handed in as a
//! byte slice, and what must be written is handed back as bytes.

pub mod error;
pub mod event;
pub mod log;
pub mod record;
pub mod store;
pub mod text;
