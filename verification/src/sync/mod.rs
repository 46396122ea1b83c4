//! What replicas exchange: summaries, batches of events, and snapshots.

pub mod messages;
