//! What a collection tells about its shards: where they are, how they are
//! spread over the peers, and which replicas a new replication factor asks
//! for.

use vstd::prelude::*;
use crate::collection::Collection;
use crate::id_map::IdMap;
use crate::replica_set::ReplicaSet;
use crate::shard::{RemoteShard, Shard};
use crate::shard_holder::ShardTransfer;
use crate::types::{
    is_service_error, numbered, text_with_number, CollectionError, PeerId, ShardId,
};

verus! {

/// A shard with data on this peer and the number of its points.
#[derive(Clone, Copy, Debug, PartialEq, Eq, Structural)]
pub struct LocalShardInfo {
    pub shard_id: ShardId,
    pub points_count: usize,
}

/// A shard on another peer.
#[derive(Clone, Copy, Debug, PartialEq, Eq, Structural)]
pub struct RemoteShardInfo {
    pub shard_id: ShardId,
    pub peer_id: PeerId,
}

/// A transfer in flight.
#[derive(Clone, Copy, Debug, PartialEq, Eq, Structural)]
pub struct ShardTransferInfo {
    pub shard_id: ShardId,
    pub from: PeerId,
    pub to: PeerId,
}

/// Where the shards of a collection are, as one peer sees it.
pub struct CollectionClusterInfo {
    pub peer_id: PeerId,
    pub shard_count: usize,
    pub local_shards: Vec<LocalShardInfo>,
    pub remote_shards: Vec<RemoteShardInfo>,
    pub shard_transfers: Vec<ShardTransferInfo>,
}

/// True when the slot has data on this peer.
pub open spec fn has_local_data<L>(shard: Shard<L>) -> bool {
    match shard {
        Shard::Local(_) => true,
        Shard::Remote(_) => false,
        Shard::Proxy(_) => true,
        Shard::ForwardProxy(_) => true,
        Shard::ReplicaSet(set) => set.local.is_some(),
    }
}

/// The remote peers of a slot, in order.
pub open spec fn remote_peers_of<L>(shard: Shard<L>) -> Seq<PeerId> {
    match shard {
        Shard::Remote(remote) => seq![remote.peer_id],
        Shard::ReplicaSet(set) => crate::replica_set::remote_peers(set.remotes@),
        _ => Seq::empty(),
    }
}

/// The ids of the slots with data on this peer, in the order of the slots.
pub open spec fn local_slots<L>(slots: Seq<(ShardId, Shard<L>)>) -> Seq<ShardId>
    decreases slots.len(),
{
    if slots.len() == 0 {
        Seq::empty()
    } else if has_local_data(slots.last().1) {
        local_slots(slots.drop_last()).push(slots.last().0)
    } else {
        local_slots(slots.drop_last())
    }
}

/// The shards on other peers, in the order of the slots.
pub open spec fn remote_slots<L>(slots: Seq<(ShardId, Shard<L>)>) -> Seq<RemoteShardInfo>
    decreases slots.len(),
{
    if slots.len() == 0 {
        Seq::empty()
    } else {
        remote_slots(slots.drop_last()) + remote_peers_of(slots.last().1).map_values(
            |peer: PeerId| RemoteShardInfo { shard_id: slots.last().0, peer_id: peer },
        )
    }
}

/// Where each replica of each shard is, in the order of the slots: for a
/// replica set this peer first, then the remote peers.
pub open spec fn distribution_of<L>(slots: Seq<(ShardId, Shard<L>)>, local_peer_id: PeerId) -> Seq<
    (ShardId, PeerId),
>
    decreases slots.len(),
{
    if slots.len() == 0 {
        Seq::empty()
    } else {
        distribution_of(slots.drop_last(), local_peer_id) + (match slots.last().1 {
            Shard::Remote(remote) => seq![(slots.last().0, remote.peer_id)],
            Shard::ReplicaSet(set) => set.spec_shard_distribution(),
            _ => seq![(slots.last().0, local_peer_id)],
        })
    }
}

/// Increasing shard ids, equal ones allowed.
pub open spec fn ascending(ids: Seq<ShardId>) -> bool {
    forall|i: int, j: int| 0 <= i < j < ids.len() ==> ids[i] <= ids[j]
}

/// Sorts pairs by their shard id. Pairs of one shard keep their order.
pub fn sort_by_shard<T>(items: Vec<(ShardId, T)>) -> (sorted: Vec<(ShardId, T)>)
    ensures
        ascending(sorted@.map_values(|e: (ShardId, T)| e.0)),
        sorted@.to_multiset() == items@.to_multiset(),
        sorted@.len() == items@.len(),
{
    broadcast use vstd::seq_lib::group_to_multiset_ensures;

    let ghost all = items@;
    let mut rest = crate::operations::reverse(items);
    let mut sorted: Vec<(ShardId, T)> = Vec::new();
    let ghost mut done: int = 0;
    assert(all.take(0) =~= Seq::<(ShardId, T)>::empty());
    while rest.len() > 0
        invariant
            0 <= done <= all.len(),
            rest@.len() == all.len() - done,
            forall|i: int| 0 <= i < rest@.len() ==> #[trigger] rest@[i] == all[all.len() - 1 - i],
            forall|i: int, j: int|
                0 <= i < j < sorted@.len() ==> (#[trigger] sorted@[i]).0 <= (#[trigger] sorted@[j]).0,
            sorted@.to_multiset() == all.take(done).to_multiset(),
            sorted@.len() == done,
        decreases rest@.len(),
    {
        let item = rest.pop().unwrap();
        proof {
            assert(item == all[done]);
            assert(all.take(done + 1) == all.take(done).push(item));
        }
        let mut at: usize = 0;
        while at < sorted.len() && sorted[at].0 <= item.0
            invariant
                at <= sorted.len(),
                forall|i: int| 0 <= i < at ==> (#[trigger] sorted@[i]).0 <= item.0,
            decreases sorted.len() - at,
        {
            at += 1;
        }
        let ghost before = sorted@;
        sorted.insert(at, item);
        proof {
            vstd::seq_lib::to_multiset_insert(before, at as int, item);
            vstd::seq_lib::to_multiset_build(all.take(done), item);
            assert forall|i: int, j: int| 0 <= i < j < sorted@.len() implies (
            #[trigger] sorted@[i]).0 <= (#[trigger] sorted@[j]).0 by {
                if j < at {
                    assert(sorted@[i] == before[i] && sorted@[j] == before[j]);
                } else if j == at {
                    assert(sorted@[i] == before[i]);
                } else if i < at {
                    assert(sorted@[i] == before[i] && sorted@[j] == before[j - 1]);
                } else if i == at {
                    assert(sorted@[j] == before[j - 1]);
                    assert(before[at as int].0 <= before[j - 1].0 || j - 1 == at);
                } else {
                    assert(sorted@[i] == before[i - 1] && sorted@[j] == before[j - 1]);
                }
            }
            done = done + 1;
        }
    }
    proof {
        assert(all.take(done) == all);
        let ids = sorted@.map_values(|e: (ShardId, T)| e.0);
        assert forall|i: int, j: int| 0 <= i < j < ids.len() implies ids[i] <= ids[j] by {
            assert(ids[i] == sorted@[i].0 && ids[j] == sorted@[j].0);
        }
    }
    sorted
}

impl<L> Collection<L> {
    /// The ids of the slots with data on this peer, in the order of the
    /// slots.
    pub fn local_shard_ids(&self) -> (ids: Vec<ShardId>)
        ensures
            ids@ == local_slots(self.shards_holder.shards.entries()),
    {
        let slots = &self.shards_holder.shards;
        let mut ids: Vec<ShardId> = Vec::new();
        let mut i: usize = 0;
        while i < slots.len()
            invariant
                i <= slots.entries().len(),
                ids@ == local_slots(slots.entries().take(i as int)),
            decreases slots.entries().len() - i,
        {
            proof {
                assert(slots.entries().take(i + 1).drop_last() == slots.entries().take(i as int));
                assert(slots.entries().take(i + 1).last() == slots.entries()[i as int]);
            }
            let local = match slots.value_at(i) {
                Shard::Local(_) => true,
                Shard::Remote(_) => false,
                Shard::Proxy(_) => true,
                Shard::ForwardProxy(_) => true,
                Shard::ReplicaSet(set) => set.local.is_some(),
            };
            if local {
                ids.push(slots.id_at(i));
            }
            i += 1;
        }
        assert(slots.entries().take(i as int) == slots.entries());
        ids
    }

    /// Where the shards of the collection are, as peer `peer_id` sees it.
    /// `points_counts` holds the number of points of each shard with data on
    /// this peer, as the caller has counted them.
    ///
    /// The three lists are in the order of the shard ids.
    ///
    /// Fails with a service error when the count of a shard with data on
    /// this peer is missing.
    pub fn cluster_info(&self, peer_id: PeerId, points_counts: &IdMap<ShardId, usize>) -> (r: Result<
        CollectionClusterInfo,
        CollectionError,
    >)
        requires
            self.wf(),
        ensures
            r is Ok <==> (forall|k: int|
                0 <= k < local_slots(self.shards_holder.shards.entries()).len()
                    ==> points_counts@.dom().contains(
                    #[trigger] local_slots(self.shards_holder.shards.entries())[k],
                )),
            r is Err ==> exists|k: int|
                0 <= k < local_slots(self.shards_holder.shards.entries()).len()
                    && !points_counts@.dom().contains(
                    local_slots(self.shards_holder.shards.entries())[k],
                ) && #[trigger] is_service_error(
                    r,
                    numbered(
                        "the points of shard "@,
                        local_slots(self.shards_holder.shards.entries())[k] as nat,
                        " were not counted"@,
                    ),
                ),
            r matches Ok(info) ==> {
                &&& info.peer_id == peer_id
                &&& info.shard_count == self.shards_holder.shards.entries().len()
                &&& ascending(info.local_shards@.map_values(|i: LocalShardInfo| i.shard_id))
                &&& ascending(info.remote_shards@.map_values(|i: RemoteShardInfo| i.shard_id))
                &&& ascending(info.shard_transfers@.map_values(|i: ShardTransferInfo| i.shard_id))
                &&& info.local_shards@.to_multiset() == local_slots(
                    self.shards_holder.shards.entries(),
                ).map_values(
                    |id: ShardId| LocalShardInfo { shard_id: id, points_count: points_counts@[id] },
                ).to_multiset()
                &&& info.remote_shards@.to_multiset() == remote_slots(
                    self.shards_holder.shards.entries(),
                ).to_multiset()
                &&& info.shard_transfers@.to_multiset()
                    == self.shards_holder.shard_transfers@.map_values(
                    |t: ShardTransfer| ShardTransferInfo {
                        shard_id: t.shard_id,
                        from: t.from,
                        to: t.to,
                    },
                ).to_multiset()
            },
    {
        let slots = &self.shards_holder.shards;
        let ghost entries = slots.entries();
        let local_ids = self.local_shard_ids();
        let mut local: Vec<(ShardId, usize)> = Vec::new();
        let mut n: usize = 0;
        while n < local_ids.len()
            invariant
                n <= local_ids.len(),
                entries == self.shards_holder.shards.entries(),
                local_ids@ == local_slots(entries),
                local@ == local_ids@.take(n as int).map_values(
                    |id: ShardId| (id, points_counts@[id]),
                ),
                forall|k: int| 0 <= k < n ==> points_counts@.dom().contains(#[trigger] local_ids@[k]),
            decreases local_ids.len() - n,
        {
            let id = local_ids[n];
            match points_counts.get(id) {
                Some(count) => {
                    local.push((id, *count));
                    proof {
                        assert(local_ids@.take(n + 1) == local_ids@.take(n as int).push(id));
                        assert(local@ =~= local_ids@.take(n + 1).map_values(
                            |id: ShardId| (id, points_counts@[id]),
                        ));
                    }
                },
                None => {
                    let failure: Result<CollectionClusterInfo, CollectionError> = Err(
                        CollectionError::service_error(
                            text_with_number("the points of shard ", id as u64, " were not counted"),
                        ),
                    );
                    proof {
                        assert(local_slots(self.shards_holder.shards.entries())[n as int] == id);
                        assert(!points_counts@.dom().contains(id));
                        assert(is_service_error(
                            failure,
                            numbered(
                                "the points of shard "@,
                                local_slots(self.shards_holder.shards.entries())[n as int] as nat,
                                " were not counted"@,
                            ),
                        ));
                    }
                    return failure;
                },
            }
            n += 1;
        }
        proof {
            assert(local_ids@.take(n as int) == local_ids@);
        }
        let mut remote: Vec<(ShardId, PeerId)> = Vec::new();
        let mut i: usize = 0;
        while i < slots.len()
            invariant
                i <= entries.len(),
                entries == slots.entries(),
                remote@.map_values(
                    |e: (ShardId, PeerId)| RemoteShardInfo { shard_id: e.0, peer_id: e.1 },
                ) == remote_slots(entries.take(i as int)),
            decreases entries.len() - i,
        {
            let id = slots.id_at(i);
            let ghost before = remote@;
            proof {
                assert(entries.take(i + 1).drop_last() == entries.take(i as int));
                assert(entries.take(i + 1).last() == entries[i as int]);
            }
            match slots.value_at(i) {
                Shard::Remote(shard) => {
                    remote.push((id, shard.peer_id));
                    proof {
                        assert(remote@.map_values(
                            |e: (ShardId, PeerId)| RemoteShardInfo { shard_id: e.0, peer_id: e.1 },
                        ) =~= remote_slots(entries.take(i + 1)));
                    }
                },
                Shard::ReplicaSet(set) => {
                    let mut k: usize = 0;
                    while k < set.remotes.len()
                        invariant
                            k <= set.remotes.len(),
                            remote@ == before + set.remotes@.take(k as int).map_values(
                                |r: RemoteShard| (id, r.peer_id),
                            ),
                        decreases set.remotes.len() - k,
                    {
                        remote.push((id, set.remotes[k].peer_id));
                        proof {
                            assert(set.remotes@.take(k + 1) == set.remotes@.take(k as int).push(
                                set.remotes@[k as int],
                            ));
                            assert(remote@ =~= before + set.remotes@.take(k + 1).map_values(
                                |r: RemoteShard| (id, r.peer_id),
                            ));
                        }
                        k += 1;
                    }
                    proof {
                        assert(set.remotes@.take(k as int) == set.remotes@);
                        assert(remote@.map_values(
                            |e: (ShardId, PeerId)| RemoteShardInfo { shard_id: e.0, peer_id: e.1 },
                        ) =~= remote_slots(entries.take(i + 1)));
                    }
                },
                _ => {
                    proof {
                        assert(remote@.map_values(
                            |e: (ShardId, PeerId)| RemoteShardInfo { shard_id: e.0, peer_id: e.1 },
                        ) =~= remote_slots(entries.take(i + 1)));
                    }
                },
            }
            i += 1;
        }
        proof {
            assert(entries.take(i as int) == entries);
        }
        let registered = &self.shards_holder.shard_transfers;
        let mut transfers: Vec<(ShardId, (PeerId, PeerId))> = Vec::new();
        let mut t: usize = 0;
        while t < registered.len()
            invariant
                t <= registered.len(),
                transfers@ == registered@.take(t as int).map_values(
                    |x: ShardTransfer| (x.shard_id, (x.from, x.to)),
                ),
            decreases registered.len() - t,
        {
            let transfer = registered[t];
            transfers.push((transfer.shard_id, (transfer.from, transfer.to)));
            proof {
                assert(registered@.take(t + 1) == registered@.take(t as int).push(transfer));
                assert(transfers@ =~= registered@.take(t + 1).map_values(
                    |x: ShardTransfer| (x.shard_id, (x.from, x.to)),
                ));
            }
            t += 1;
        }
        proof {
            assert(registered@.take(t as int) == registered@);
        }
        let ghost local_pairs = local@;
        let ghost remote_pairs = remote@;
        let ghost transfer_pairs = transfers@;
        let local = sort_by_shard(local);
        let remote = sort_by_shard(remote);
        let transfers = sort_by_shard(transfers);
        let local_shards = to_local_infos(&local);
        let remote_shards = to_remote_infos(&remote);
        let shard_transfers = to_transfer_infos(&transfers);
        proof {
            let f = |e: (ShardId, usize)| LocalShardInfo { shard_id: e.0, points_count: e.1 };
            lemma_map_multiset(local@, local_pairs, f);
            assert(local_pairs.map_values(f) =~= local_slots(entries).map_values(
                |id: ShardId| LocalShardInfo { shard_id: id, points_count: points_counts@[id] },
            ));
            let g = |e: (ShardId, PeerId)| RemoteShardInfo { shard_id: e.0, peer_id: e.1 };
            lemma_map_multiset(remote@, remote_pairs, g);
            let h = |e: (ShardId, (PeerId, PeerId))| ShardTransferInfo {
                shard_id: e.0,
                from: e.1.0,
                to: e.1.1,
            };
            lemma_map_multiset(transfers@, transfer_pairs, h);
            assert(transfer_pairs.map_values(h) =~= registered@.map_values(
                |t: ShardTransfer| ShardTransferInfo { shard_id: t.shard_id, from: t.from, to: t.to },
            ));
            assert(local_shards@.map_values(|i: LocalShardInfo| i.shard_id) =~= local@.map_values(
                |e: (ShardId, usize)| e.0,
            ));
            assert(remote_shards@.map_values(|i: RemoteShardInfo| i.shard_id)
                =~= remote@.map_values(|e: (ShardId, PeerId)| e.0));
            assert(shard_transfers@.map_values(|i: ShardTransferInfo| i.shard_id)
                =~= transfers@.map_values(|e: (ShardId, (PeerId, PeerId))| e.0));
        }
        Ok(
            CollectionClusterInfo {
                peer_id,
                shard_count: self.shards_holder.len(),
                local_shards,
                remote_shards,
                shard_transfers,
            },
        )
    }

    /// Where each replica of each shard is, in the order of the slots;
    /// `local_peer_id` stands for this peer.
    pub fn shards_distribution(&self, local_peer_id: PeerId) -> (pairs: Vec<(ShardId, PeerId)>)
        ensures
            pairs@ == distribution_of(self.shards_holder.shards.entries(), local_peer_id),
    {
        let slots = &self.shards_holder.shards;
        let ghost entries = slots.entries();
        let mut pairs: Vec<(ShardId, PeerId)> = Vec::new();
        let mut i: usize = 0;
        while i < slots.len()
            invariant
                i <= entries.len(),
                entries == slots.entries(),
                pairs@ == distribution_of(entries.take(i as int), local_peer_id),
            decreases entries.len() - i,
        {
            let id = slots.id_at(i);
            proof {
                assert(entries.take(i + 1).drop_last() == entries.take(i as int));
                assert(entries.take(i + 1).last() == entries[i as int]);
            }
            match slots.value_at(i) {
                Shard::Remote(remote) => {
                    pairs.push((id, remote.peer_id));
                },
                Shard::ReplicaSet(set) => {
                    let mut more = set.shard_distribution();
                    pairs.append(&mut more);
                },
                _ => {
                    pairs.push((id, local_peer_id));
                },
            }
            proof {
                assert(pairs@ =~= distribution_of(entries.take(i + 1), local_peer_id));
            }
            i += 1;
        }
        assert(entries.take(i as int) == entries);
        pairs
    }
}

/// Mapping the elements keeps the multiset of a permutation.
pub proof fn lemma_map_multiset<A, B>(a: Seq<A>, b: Seq<A>, f: spec_fn(A) -> B)
    requires
        a.to_multiset() == b.to_multiset(),
    ensures
        a.map_values(f).to_multiset() == b.map_values(f).to_multiset(),
    decreases a.len(),
{
    broadcast use vstd::seq_lib::group_to_multiset_ensures;

    if a.len() == 0 {
        assert(b.len() == 0) by {
            if b.len() > 0 {
                assert(b.to_multiset().count(b[0]) > 0);
            }
        }
        assert(a.map_values(f) =~= b.map_values(f));
    } else {
        let x = a.last();
        assert(a =~= a.drop_last().push(x));
        assert(a.to_multiset().count(x) > 0);
        assert(b.to_multiset().count(x) > 0);
        assert(b.contains(x));
        let i = choose|i: int| 0 <= i < b.len() && b[i] == x;
        let rest = b.remove(i);
        assert(a.drop_last().to_multiset() =~= a.to_multiset().remove(x));
        assert(rest.to_multiset() =~= b.to_multiset().remove(x));
        lemma_map_multiset(a.drop_last(), rest, f);
        assert(a.map_values(f) =~= a.drop_last().map_values(f).push(f(x)));
        assert(b.map_values(f).remove(i) =~= rest.map_values(f));
        assert(b.map_values(f)[i] == f(x));
        assert(b.map_values(f).to_multiset() =~= rest.map_values(f).to_multiset().insert(f(x))) by {
            assert(b.map_values(f) =~= rest.map_values(f).insert(i, f(x)));
        }
    }
}

/// The infos of the pairs, in order.
fn to_local_infos(pairs: &Vec<(ShardId, usize)>) -> (infos: Vec<LocalShardInfo>)
    ensures
        infos@ == pairs@.map_values(
            |e: (ShardId, usize)| LocalShardInfo { shard_id: e.0, points_count: e.1 },
        ),
{
    let mut infos: Vec<LocalShardInfo> = Vec::new();
    let mut i: usize = 0;
    while i < pairs.len()
        invariant
            i <= pairs.len(),
            infos@ == pairs@.take(i as int).map_values(
                |e: (ShardId, usize)| LocalShardInfo { shard_id: e.0, points_count: e.1 },
            ),
        decreases pairs.len() - i,
    {
        infos.push(LocalShardInfo { shard_id: pairs[i].0, points_count: pairs[i].1 });
        proof {
            assert(pairs@.take(i + 1) == pairs@.take(i as int).push(pairs@[i as int]));
            assert(infos@ =~= pairs@.take(i + 1).map_values(
                |e: (ShardId, usize)| LocalShardInfo { shard_id: e.0, points_count: e.1 },
            ));
        }
        i += 1;
    }
    assert(pairs@.take(i as int) == pairs@);
    infos
}

/// The infos of the pairs, in order.
fn to_remote_infos(pairs: &Vec<(ShardId, PeerId)>) -> (infos: Vec<RemoteShardInfo>)
    ensures
        infos@ == pairs@.map_values(
            |e: (ShardId, PeerId)| RemoteShardInfo { shard_id: e.0, peer_id: e.1 },
        ),
{
    let mut infos: Vec<RemoteShardInfo> = Vec::new();
    let mut i: usize = 0;
    while i < pairs.len()
        invariant
            i <= pairs.len(),
            infos@ == pairs@.take(i as int).map_values(
                |e: (ShardId, PeerId)| RemoteShardInfo { shard_id: e.0, peer_id: e.1 },
            ),
        decreases pairs.len() - i,
    {
        infos.push(RemoteShardInfo { shard_id: pairs[i].0, peer_id: pairs[i].1 });
        proof {
            assert(pairs@.take(i + 1) == pairs@.take(i as int).push(pairs@[i as int]));
            assert(infos@ =~= pairs@.take(i + 1).map_values(
                |e: (ShardId, PeerId)| RemoteShardInfo { shard_id: e.0, peer_id: e.1 },
            ));
        }
        i += 1;
    }
    assert(pairs@.take(i as int) == pairs@);
    infos
}

/// The infos of the pairs, in order.
fn to_transfer_infos(pairs: &Vec<(ShardId, (PeerId, PeerId))>) -> (infos: Vec<ShardTransferInfo>)
    ensures
        infos@ == pairs@.map_values(
            |e: (ShardId, (PeerId, PeerId))| ShardTransferInfo {
                shard_id: e.0,
                from: e.1.0,
                to: e.1.1,
            },
        ),
{
    let mut infos: Vec<ShardTransferInfo> = Vec::new();
    let mut i: usize = 0;
    while i < pairs.len()
        invariant
            i <= pairs.len(),
            infos@ == pairs@.take(i as int).map_values(
                |e: (ShardId, (PeerId, PeerId))| ShardTransferInfo {
                    shard_id: e.0,
                    from: e.1.0,
                    to: e.1.1,
                },
            ),
        decreases pairs.len() - i,
    {
        infos.push(
            ShardTransferInfo { shard_id: pairs[i].0, from: pairs[i].1.0, to: pairs[i].1.1 },
        );
        proof {
            assert(pairs@.take(i + 1) == pairs@.take(i as int).push(pairs@[i as int]));
            assert(infos@ =~= pairs@.take(i + 1).map_values(
                |e: (ShardId, (PeerId, PeerId))| ShardTransferInfo {
                    shard_id: e.0,
                    from: e.1.0,
                    to: e.1.1,
                },
            ));
        }
        i += 1;
    }
    assert(pairs@.take(i as int) == pairs@);
    infos
}

} // verus!
