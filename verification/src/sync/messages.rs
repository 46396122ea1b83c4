//! Messages between replicas. Workspaces and devices are named by bytes.

use vstd::prelude::*;

verus! {

/// What a peer offers.
#[derive(Clone, Copy, Debug, PartialEq, Eq, Structural)]
pub struct SyncCapabilities {
    pub can_serve_snapshot: bool,
    pub can_accept_tail_subscription: bool,
    pub max_batch_events: u32,
}

/// How much of a workspace's shared history a replica has.
#[derive(Clone, Debug)]
pub struct WorkspaceSyncSummary {
    pub workspace_id: Vec<u8>,
    /// For each device the number up to which all of its events were received.
    pub frontier: Vec<(Vec<u8>, u64)>,
    pub snapshot_generation: Option<u64>,
    /// The point in time that the offered snapshot reaches.
    pub compacted_through: Option<Vec<u8>>,
}

#[derive(Clone, Debug)]
pub struct SyncSummaryMessage {
    pub summary: WorkspaceSyncSummary,
    pub capabilities: SyncCapabilities,
}

/// Asks for the events of a device behind one number, up to another.
#[derive(Clone, Debug)]
pub struct RangeRequest {
    pub workspace_id: Vec<u8>,
    pub origin_device_id: Vec<u8>,
    pub from_exclusive: u64,
    pub to_inclusive: u64,
}

#[derive(Clone, Debug)]
pub struct EventBatch {
    pub workspace_id: Vec<u8>,
    pub events: Vec<Vec<u8>>,
}

/// What is told of a snapshot before its chunks come.
#[derive(Clone, Debug)]
pub struct SyncSnapshotMeta {
    pub workspace_id: Vec<u8>,
    pub chunk_count: u32,
    pub total_bytes: u64,
    pub summary: WorkspaceSyncSummary,
    pub snapshot_hash: [u8; 32],
    pub resource_scope_hash: [u8; 32],
}

#[derive(Clone, Debug)]
pub struct SyncSnapshotChunk {
    pub workspace_id: Vec<u8>,
    pub chunk_index: u32,
    pub chunk_hash: [u8; 32],
    pub bytes: Vec<u8>,
}

/// Asks for events as they come, or answers that.
#[derive(Clone, Debug)]
pub struct TailSubscription {
    pub workspace_id: Vec<u8>,
    pub policy_epoch: u64,
    pub resource_scope_hash: [u8; 32],
    pub accepted: bool,
}

#[derive(Clone, Debug)]
pub struct SnapshotManifest {
    pub workspace_id: Vec<u8>,
    pub summary: WorkspaceSyncSummary,
    pub total_bytes: u64,
    pub snapshot_hash: [u8; 32],
    pub policy_epoch: u64,
    pub resource_scope_hash: [u8; 32],
}

#[derive(Clone, Debug)]
pub struct SnapshotExport {
    pub manifest: SnapshotManifest,
    pub bytes: Vec<u8>,
}

/// A record of the shared journal.
#[derive(Clone, Debug)]
pub struct SharedJournalRecord {
    pub replicated_event: Vec<u8>,
}

/// A replica of a workspace on a device.
#[derive(Clone, Debug)]
pub struct ReplicaId {
    pub device_id: Vec<u8>,
    pub workspace_id: Vec<u8>,
}

/// A peer that has shown who it is.
#[derive(Clone, Debug)]
pub struct ReplicationPeer {
    pub peer: Vec<u8>,
    pub workspace_id: Vec<u8>,
    pub capabilities: SyncCapabilities,
    pub summary: WorkspaceSyncSummary,
}

} // verus!
