//! Tables: materialized rows, the events they came from, and the topic of their changes.

pub mod change;
pub mod merge;
pub mod receipt;
pub mod recovery;
pub mod replay;
pub mod table;
