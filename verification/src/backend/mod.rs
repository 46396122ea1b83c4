//! What the stores have in common, and a store that is chosen at run time.

pub mod logs;
pub mod state;
pub mod stores;
pub mod traits;
