//! Durable persistence for a content-addressed event store.
//!
//! An external in-memory index owns every policy decision (which events are
//! kept, which are superseded, what a filter matches). This library turns its
//! decisions into the storage statements that make the tables agree with it,
//! and proves what those statements do to the tables.
pub mod tables;
pub mod write;
pub mod maintain;
pub mod read;
pub mod memory;
