//! Verified core of a live viewer for timestamp-delimited log files.
//!
//! The library covers the logic of the viewer: the offset-tracked
//! incremental read model, the timestamp segmenter that splits raw text
//! into (timestamp, body) records, the navigable application state, and
//! the event-coordination steps that merge filesystem and input events.
//! Terminal rendering and the actual file and notification I/O live
//! outside the library and hand it plain values.

pub mod coordinator;
pub mod parser;
pub mod segment;
pub mod state;
pub mod watcher;
