//! Storage engines.

pub mod btree;
pub mod btree_model;
pub mod hash_pages;
pub mod hashtable;
pub mod index;
pub mod keydir;
pub mod lists;
pub mod log;
pub mod log_store;
pub mod maps;
pub mod order_log;
pub mod ordered;
pub mod orderlog;
pub mod page;
pub mod settling;
pub mod skip_model;
pub mod skiplist;
pub mod topic;
pub mod wal;
