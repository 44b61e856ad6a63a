//! An in-process structured-event collector: it watches the lifecycle of
//! nested execution scopes, captures snapshots of their key/value fields,
//! and accumulates one human-readable line per snapshot in a size-bounded,
//! append-only text buffer.

pub mod collector;
pub mod logs;
pub mod snapshot;

pub use collector::Collector;
pub use logs::LogStream;
pub use snapshot::FieldSnapshot;
