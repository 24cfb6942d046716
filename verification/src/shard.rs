//! The variants of a shard slot.
//!
//! A shard is generic in `L`, the local storage of one shard on this peer.
//! The topology logic moves values of `L` between slots and never looks
//! inside them.

use vstd::prelude::*;
use crate::replica_set::ReplicaSet;
use crate::types::{PeerId, ShardId};

verus! {

/// A shard that lives on another peer.
#[derive(Clone, Copy, Debug, PartialEq, Eq, Structural, Hash)]
pub struct RemoteShard {
    pub id: ShardId,
    pub peer_id: PeerId,
}

/// A local shard that mirrors every write to a remote shard while its data is
/// being transferred there.
pub struct ForwardProxyShard<L> {
    pub wrapped_shard: L,
    pub remote_shard: RemoteShard,
}

/// A local shard behind a read and count proxy.
pub struct ProxyShard<L> {
    pub wrapped_shard: L,
}

/// One slot of the shard holder.
pub enum Shard<L> {
    Local(L),
    Remote(RemoteShard),
    Proxy(ProxyShard<L>),
    ForwardProxy(ForwardProxyShard<L>),
    ReplicaSet(ReplicaSet<L>),
}

impl<L> ForwardProxyShard<L> {
    /// Wraps `wrapped_shard`; writes are mirrored to `remote_shard`.
    pub fn new(wrapped_shard: L, remote_shard: RemoteShard) -> (p: Self)
        ensures
            p.wrapped_shard == wrapped_shard,
            p.remote_shard == remote_shard,
    {
        ForwardProxyShard { wrapped_shard, remote_shard }
    }
}

impl<L> Shard<L> {
    /// The name of the variant, as error messages give it.
    pub open spec fn spec_variant_name(&self) -> Seq<char> {
        match self {
            Shard::Local(_) => "local shard"@,
            Shard::Remote(_) => "remote shard"@,
            Shard::Proxy(_) => "proxy shard"@,
            Shard::ForwardProxy(_) => "forward proxy shard"@,
            Shard::ReplicaSet(_) => "replica set"@,
        }
    }

    /// The name of the variant, as error messages give it.
    pub fn variant_name(&self) -> (name: &'static str)
        ensures
            name@ == self.spec_variant_name(),
    {
        match self {
            Shard::Local(_) => "local shard",
            Shard::Remote(_) => "remote shard",
            Shard::Proxy(_) => "proxy shard",
            Shard::ForwardProxy(_) => "forward proxy shard",
            Shard::ReplicaSet(_) => "replica set",
        }
    }

    /// The peers that hold this shard, seen from `this_peer_id`.
    pub open spec fn spec_peer_ids(&self, this_peer_id: PeerId) -> Seq<PeerId> {
        match self {
            Shard::Local(_) => seq![this_peer_id],
            Shard::Remote(remote) => seq![remote.peer_id],
            Shard::Proxy(_) => seq![this_peer_id],
            Shard::ForwardProxy(_) => seq![this_peer_id],
            Shard::ReplicaSet(replica_set) => replica_set.peers(),
        }
    }

    /// The peers that hold this shard, seen from `this_peer_id`.
    pub fn peer_ids(&self, this_peer_id: PeerId) -> (ids: Vec<PeerId>)
        ensures
            ids@ == self.spec_peer_ids(this_peer_id),
    {
        match self {
            Shard::Local(_) => vec![this_peer_id],
            Shard::Remote(remote) => vec![remote.peer_id],
            Shard::Proxy(_) => vec![this_peer_id],
            Shard::ForwardProxy(_) => vec![this_peer_id],
            Shard::ReplicaSet(replica_set) => replica_set.peer_ids(),
        }
    }

    /// True for a plain local shard.
    pub fn is_local(&self) -> (b: bool)
        ensures
            b == (self is Local),
    {
        match self {
            Shard::Local(_) => true,
            _ => false,
        }
    }
}

} // verus!
