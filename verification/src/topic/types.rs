//! Settings of a topic.

use crate::engine::keydir;
use crate::engine::keydir::KeyDirConfig;
use vstd::prelude::*;

verus! {

/// The place of a record in a topic.
pub type TopicOffset = u64;

pub const DEFAULT_MAX_SEGMENT_BYTES: u64 = 67108864;

pub const DEFAULT_SPARSE_INDEX_STRIDE: u64 = 256;

/// Sizes of a topic.
#[derive(Clone, Copy, Debug, PartialEq, Eq, Structural)]
pub struct TopicConfig {
    /// Bytes from which on a segment takes no further record.
    pub max_segment_bytes: u64,
    /// Records from one entry of a segment's index to the next. Zero indexes the first alone.
    pub sparse_index_stride: u64,
    /// Settings of the store for the offsets of the consumers.
    pub offsets: KeyDirConfig,
}

impl Default for TopicConfig {
    fn default() -> (c: Self)
        ensures
            c.max_segment_bytes == DEFAULT_MAX_SEGMENT_BYTES,
            c.sparse_index_stride == DEFAULT_SPARSE_INDEX_STRIDE,
            c.max_segment_bytes == 67108864,
            c.sparse_index_stride == 256,
            c.offsets == keydir::usual(),
    {
        TopicConfig {
            max_segment_bytes: DEFAULT_MAX_SEGMENT_BYTES,
            sparse_index_stride: DEFAULT_SPARSE_INDEX_STRIDE,
            offsets: KeyDirConfig::default(),
        }
    }
}

} // verus!
