//! Append-only topics: records in segments, read by named consumers.

pub mod consumer;
pub mod names;
pub mod reader;
pub mod registry;
pub mod segment;
pub mod store;
pub mod types;
pub mod writer;
