//! A table whose newest rows wait in memory.

pub mod recovery;
pub mod table;
