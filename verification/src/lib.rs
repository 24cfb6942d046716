//! Verified core of a sharded, replicated collection: shard topology, replica
//! sets, shard transfers, result merging and the consensus log adapter.

pub mod id_map;
pub mod types;
pub mod version;
pub mod hash_ring;
pub mod operations;
pub mod segments;
pub mod segments_updater;
pub mod shard;
pub mod replica_set;
pub mod shard_holder;
pub mod routing;
pub mod transfer;
pub mod replica_changes;
pub mod collection;
pub mod collection_build;
pub mod collection_info;
pub mod collection_state;
pub mod collection_ops;
pub mod replica_suggestions;
pub mod search;
pub mod results;
pub mod config;
pub mod recommend;
pub mod consensus_wal;
pub mod consensus_state;
