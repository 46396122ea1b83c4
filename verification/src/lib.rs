//! Verified storage engines: a paged B+ tree, log-structured key directories,
//! skip lists, write-ahead logs, topics and change tables.
#![allow(unused_imports)]
#![allow(dead_code)]

pub mod backend;
pub mod engine;
pub mod error;
pub mod frontend;
pub mod sync;
pub mod table;
pub mod topic;
pub mod utils;
