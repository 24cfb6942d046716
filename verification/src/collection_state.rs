//! The state of a collection as consensus hands it round, and opening a
//! stored collection.

use vstd::prelude::*;
use crate::collection::Collection;
use crate::config::{CollectionConfig, CollectionParams, VectorParams};
use crate::hash_ring::{HashRing, HASH_RING_SHARD_SCALE};
use crate::id_map::{lemma_position_of, lemma_position_of_entry, position_of, IdMap};
use crate::operations::copy_bytes;
use crate::replica_set::ReplicaState;
use crate::results::{
    flatten_records, flattened, is_merged, merge_infos, merged_info_fits, sum_counts, total_count, CollectionInfo, CountResult,
};
use crate::search::Record;
use crate::shard::{RemoteShard, Shard};
use crate::shard_holder::{ShardHolder, ShardTransfer};
use crate::types::{
    is_service_error,
    CollectionError,
    PeerId,
    PointId,
    ShardId,
};

verus! {

/// Where a shard is, as the state of a collection says it.
pub enum ShardInfo {
    /// On several peers, each active or not.
    ReplicaSet { replicas: ReplicaState },
    /// On one peer.
    Single(PeerId),
}

/// The state of a collection: its configuration, where its shards are, and
/// the transfers in flight.
pub struct State {
    pub config: CollectionConfig,
    pub shards: Vec<(ShardId, ShardInfo)>,
    pub transfers: Vec<ShardTransfer>,
}

/// A shard as it was found in storage.
pub enum LoadedShard<L> {
    /// A local shard.
    Local(L),
    /// A shard on another peer.
    Remote(PeerId),
    /// The temporary shard of a transfer that was coming in.
    Temporary(L),
}

impl CollectionConfig {
    /// True when `other` is the same configuration.
    pub open spec fn same(&self, other: &CollectionConfig) -> bool {
        &&& self.params.shard_number == other.params.shard_number
        &&& self.params.replication_factor == other.params.replication_factor
        &&& self.params.on_disk_payload == other.params.on_disk_payload
        &&& self.params.vectors@.len() == other.params.vectors@.len()
        &&& forall|i: int|
            0 <= i < self.params.vectors@.len() ==> (#[trigger] self.params.vectors@[i]).name@
                == other.params.vectors@[i].name@ && self.params.vectors@[i].size
                == other.params.vectors@[i].size && self.params.vectors@[i].distance
                == other.params.vectors@[i].distance
        &&& self.hnsw_config@ == other.hnsw_config@
        &&& self.optimizer_config@ == other.optimizer_config@
        &&& self.wal_config@ == other.wal_config@
    }

    /// A copy of the configuration.
    pub fn duplicate(&self) -> (copy: CollectionConfig)
        ensures
            copy.same(self),
    {
        let mut vectors: Vec<VectorParams> = Vec::new();
        let mut i: usize = 0;
        while i < self.params.vectors.len()
            invariant
                i <= self.params.vectors.len(),
                vectors@.len() == i,
                forall|k: int|
                    0 <= k < i ==> (#[trigger] vectors@[k]).name@ == self.params.vectors@[k].name@
                        && vectors@[k].size == self.params.vectors@[k].size && vectors@[k].distance
                        == self.params.vectors@[k].distance,
            decreases self.params.vectors.len() - i,
        {
            let v = &self.params.vectors[i];
            vectors.push(VectorParams { name: v.name.clone(), size: v.size, distance: v.distance });
            i += 1;
        }
        CollectionConfig {
            params: CollectionParams {
                vectors,
                shard_number: self.params.shard_number,
                replication_factor: self.params.replication_factor,
                on_disk_payload: self.params.on_disk_payload,
            },
            hnsw_config: copy_bytes(&self.hnsw_config),
            optimizer_config: copy_bytes(&self.optimizer_config),
            wal_config: copy_bytes(&self.wal_config),
        }
    }
}

/// True when `info` says where `shard` is: for a replica set the state of
/// its replicas, for a plain shard the peer that holds it.
pub open spec fn describes<L>(info: ShardInfo, shard: Shard<L>, this_peer_id: PeerId) -> bool {
    match (shard, info) {
        (Shard::ReplicaSet(set), ShardInfo::ReplicaSet { replicas }) => replicas.entries()
            == set.replica_state.entries(),
        (Shard::Remote(remote), ShardInfo::Single(peer)) => peer == remote.peer_id,
        (Shard::Local(_), ShardInfo::Single(peer)) => peer == this_peer_id,
        (Shard::Proxy(_), ShardInfo::Single(peer)) => peer == this_peer_id,
        (Shard::ForwardProxy(_), ShardInfo::Single(peer)) => peer == this_peer_id,
        _ => false,
    }
}

impl<L> Collection<L> {
    /// The state of the collection, as peer `this_peer_id` sees it: the
    /// configuration, each shard in the order of the slots, and the
    /// transfers in flight.
    pub fn state(&self, this_peer_id: PeerId) -> (state: State)
        ensures
            state.config.same(&self.config),
            state.transfers@ == self.shards_holder.shard_transfers@,
            state.shards@.len() == self.shards_holder.shards.entries().len(),
            forall|i: int|
                0 <= i < state.shards@.len() ==> (#[trigger] state.shards@[i]).0
                    == self.shards_holder.shards.entries()[i].0 && describes(
                    state.shards@[i].1,
                    self.shards_holder.shards.entries()[i].1,
                    this_peer_id,
                ),
    {
        let slots = &self.shards_holder.shards;
        let mut shards: Vec<(ShardId, ShardInfo)> = Vec::new();
        let mut i: usize = 0;
        while i < slots.len()
            invariant
                i <= slots.entries().len(),
                shards@.len() == i,
                forall|k: int|
                    0 <= k < i ==> (#[trigger] shards@[k]).0 == slots.entries()[k].0 && describes(
                        shards@[k].1,
                        slots.entries()[k].1,
                        this_peer_id,
                    ),
            decreases slots.entries().len() - i,
        {
            let info = match slots.value_at(i) {
                Shard::ReplicaSet(set) => ShardInfo::ReplicaSet {
                    replicas: set.replica_state.copy(),
                },
                Shard::Remote(remote) => ShardInfo::Single(remote.peer_id),
                _ => ShardInfo::Single(this_peer_id),
            };
            shards.push((slots.id_at(i), info));
            i += 1;
        }
        let registered = &self.shards_holder.shard_transfers;
        let mut transfers: Vec<ShardTransfer> = Vec::new();
        let mut t: usize = 0;
        while t < registered.len()
            invariant
                t <= registered.len(),
                transfers@ == registered@.take(t as int),
            decreases registered.len() - t,
        {
            transfers.push(registered[t]);
            assert(registered@.take(t + 1) == registered@.take(t as int).push(registered@[t as int]));
            t += 1;
        }
        assert(registered@.take(t as int) == registered@);
        State { config: self.config.duplicate(), shards, transfers }
    }

    /// Puts a stored collection together from its configuration, the
    /// shards that were found in its storage and the transfers that were in
    /// flight: a local or remote shard goes into its slot, a temporary shard
    /// is attached to its slot, and the transfers are registered once each.
    pub fn load(
        collection_id: String,
        config: CollectionConfig,
        shards: IdMap<ShardId, LoadedShard<L>>,
        transfers: &Vec<ShardTransfer>,
    ) -> (collection: Self)
        requires
            shards.wf(),
        ensures
            collection.wf(),
            collection.id == collection_id,
            collection.config == config,
            !collection.before_drop_called,
            collection.shards_holder.transfers() == transfers@.to_set(),
            transfers@.no_duplicates() ==> collection.shards_holder.shard_transfers@
                == transfers@,
            forall|id: ShardId|
                #![trigger collection.shards_holder.shards@.dom().contains(id)]
                #![trigger collection.shards_holder.temporary_shards@.dom().contains(id)]
                {
                    let slot = collection.shards_holder.shards@;
                    let temporary = collection.shards_holder.temporary_shards@;
                    if shards@.dom().contains(id) {
                        match shards@[id] {
                            LoadedShard::Local(l) => slot.dom().contains(id) && slot[id]
                                == Shard::Local(l) && !temporary.dom().contains(id),
                            LoadedShard::Remote(peer) => slot.dom().contains(id) && slot[id]
                                == Shard::<L>::Remote(RemoteShard { id, peer_id: peer })
                                && !temporary.dom().contains(id),
                            LoadedShard::Temporary(l) => !slot.dom().contains(id)
                                && temporary.dom().contains(id) && temporary[id] == Shard::Local(l),
                        }
                    } else {
                        !slot.dom().contains(id) && !temporary.dom().contains(id)
                    }
                },
    {
        let mut holder: ShardHolder<L> = ShardHolder::new(HashRing::fair(HASH_RING_SHARD_SCALE));
        let ghost found = shards@;
        let ghost plan = shards.entries();
        let mut rest = crate::operations::reverse(shards.into_entries());
        let ghost mut done: int = 0;
        proof {
            assert forall|id: ShardId| !(#[trigger] holder.shards@.dom().contains(id)) && !(
            #[trigger] holder.temporary_shards@.dom().contains(id)) by {
                lemma_position_of(holder.shards.entries(), id);
                lemma_position_of(holder.temporary_shards.entries(), id);
            }
            assert forall|id: ShardId| position_of(plan, id) >= 0 by {
                lemma_position_of(plan, id);
            }
        }
        while rest.len() > 0
            invariant
                0 <= done <= plan.len(),
                crate::id_map::distinct_ids(plan),
                found == crate::id_map::entries_map(plan),
                rest@.len() == plan.len() - done,
                forall|i: int| 0 <= i < rest@.len() ==> #[trigger] rest@[i] == plan[plan.len() - 1 - i],
                holder.wf(),
                holder.ring.scale() == HASH_RING_SHARD_SCALE,
                holder.shard_transfers@.len() == 0,
                forall|id: ShardId|
                    #![trigger holder.shards@.dom().contains(id)]
                    #![trigger holder.temporary_shards@.dom().contains(id)]
                    {
                        let slot = holder.shards@;
                        let temporary = holder.temporary_shards@;
                        if position_of(plan, id) < done {
                            match found[id] {
                                LoadedShard::Local(l) => slot.dom().contains(id) && slot[id]
                                    == Shard::Local(l) && !temporary.dom().contains(id),
                                LoadedShard::Remote(peer) => slot.dom().contains(id) && slot[id]
                                    == Shard::<L>::Remote(RemoteShard { id, peer_id: peer })
                                    && !temporary.dom().contains(id),
                                LoadedShard::Temporary(l) => !slot.dom().contains(id)
                                    && temporary.dom().contains(id) && temporary[id] == Shard::Local(
                                    l,
                                ),
                            }
                        } else {
                            !slot.dom().contains(id) && !temporary.dom().contains(id)
                        }
                    },
            decreases rest@.len(),
        {
            let (id, loaded) = rest.pop().unwrap();
            let ghost before = holder;
            proof {
                assert((id, loaded) == plan[done]);
                lemma_position_of_entry(plan, done);
                assert(found[id] == loaded);
            }
            match loaded {
                LoadedShard::Local(l) => {
                    holder.add_shard(id, Shard::Local(l));
                },
                LoadedShard::Remote(peer) => {
                    holder.add_shard(id, Shard::Remote(RemoteShard { id, peer_id: peer }));
                },
                LoadedShard::Temporary(l) => {
                    holder.add_temporary_shard(id, l);
                },
            }
            proof {
                assert forall|other: ShardId|
                    #![trigger holder.shards@.dom().contains(other)]
                    #![trigger holder.temporary_shards@.dom().contains(other)]
                    {
                        let slot = holder.shards@;
                        let temporary = holder.temporary_shards@;
                        if position_of(plan, other) < done + 1 {
                            match found[other] {
                                LoadedShard::Local(l) => slot.dom().contains(other) && slot[other]
                                    == Shard::Local(l) && !temporary.dom().contains(other),
                                LoadedShard::Remote(peer) => slot.dom().contains(other)
                                    && slot[other] == Shard::<L>::Remote(
                                    RemoteShard { id: other, peer_id: peer },
                                ) && !temporary.dom().contains(other),
                                LoadedShard::Temporary(l) => !slot.dom().contains(other)
                                    && temporary.dom().contains(other) && temporary[other]
                                    == Shard::Local(l),
                            }
                        } else {
                            !slot.dom().contains(other) && !temporary.dom().contains(other)
                        }
                    } by {
                    lemma_position_of(plan, other);
                    if other != id && position_of(plan, other) == done {
                        assert(false);
                    }
                }
                done = done + 1;
            }
        }
        proof {
            assert forall|id: ShardId| found.dom().contains(id) <==> position_of(plan, id)
                < plan.len() by {}
            assert(holder.transfers() =~= Set::<ShardTransfer>::empty());
        }
        holder.restore_transfers(transfers);
        assert(holder.transfers() =~= transfers@.to_set());
        Collection::from_parts(collection_id, config, holder)
    }

    /// The number of points of the collection from the counts of the
    /// shards.
    pub fn count(counts: &Vec<CountResult>) -> (total: CountResult)
        requires
            total_count(counts@) <= usize::MAX,
        ensures
            total.count == total_count(counts@),
    {
        sum_counts(counts)
    }

    /// The records of a read from the records that the shards returned,
    /// shard by shard.
    pub fn retrieve(shard_records: Vec<Vec<Record>>) -> (records: Vec<Record>)
        ensures
            records@ == flattened(shard_records@),
    {
        flatten_records(shard_records)
    }

    /// The info of the collection from the infos of its shards. See
    /// [`merge_infos`].
    pub fn info(infos: Vec<CollectionInfo>) -> (r: Result<CollectionInfo, CollectionError>)
        requires
            forall|n: int| 0 < n < infos@.len() ==> (#[trigger] merged_info_fits(infos@, n)),
        ensures
            infos@.len() == 0 ==> is_service_error(r, "There are no shards for selected collection"@),
            infos@.len() > 0 ==> r is Ok && is_merged(r->Ok_0, infos@, infos@.len() as int),
    {
        merge_infos(infos)
    }
}

/// What applying a state asks of the caller.
pub struct StatePlan {
    /// The transfers to abort: those in flight here that the state does not
    /// hold.
    pub to_abort: Vec<ShardTransfer>,
    /// The replica sets to bring in line with the state: for each shard that
    /// is a replica set both here and in the state, the state of its
    /// replicas, in the order of the state.
    pub replica_states: Vec<(ShardId, ReplicaState)>,
}

/// True when `entry` of a state is about a replica set and the slot of its
/// shard in `holder` holds a replica set.
pub open spec fn is_set_here<L>(holder: &ShardHolder<L>, entry: (ShardId, ShardInfo)) -> bool {
    entry.1 is ReplicaSet && (holder.slot(entry.0) matches Some(Shard::ReplicaSet(_)))
}

/// True when `transfers` holds `transfer`.
fn holds_transfer(transfers: &Vec<ShardTransfer>, transfer: &ShardTransfer) -> (b: bool)
    ensures
        b == transfers@.contains(*transfer),
{
    let mut i: usize = 0;
    while i < transfers.len()
        invariant
            i <= transfers.len(),
            forall|j: int| 0 <= j < i ==> transfers@[j] != *transfer,
        decreases transfers.len() - i,
    {
        if transfers[i] == *transfer {
            return true;
        }
        i += 1;
    }
    false
}

impl<L> Collection<L> {
    /// Takes over the state `state` of the collection as far as it is the
    /// collection's own: the configuration. What is left is handed to the
    /// caller as a plan: the transfers in flight here that the state does not
    /// know are to be aborted, and each replica set that the state speaks of
    /// is to apply the state of its replicas (see `ReplicaSet::apply_state`).
    pub fn apply_state(&mut self, state: State) -> (plan: StatePlan)
        requires
            old(self).wf(),
        ensures
            final(self).wf(),
            final(self).config == state.config,
            final(self).id == old(self).id,
            final(self).shards_holder == old(self).shards_holder,
            final(self).before_drop_called == old(self).before_drop_called,
            plan.to_abort@ == old(self).shards_holder.shard_transfers@.filter(
                |t: ShardTransfer| !state.transfers@.contains(t),
            ),
            ({
                let named = state.shards@.filter(
                    |e: (ShardId, ShardInfo)| is_set_here(&old(self).shards_holder, e),
                );
                &&& plan.replica_states@.len() == named.len()
                &&& forall|k: int|
                    0 <= k < named.len() ==> (#[trigger] plan.replica_states@[k]).0 == named[k].0
                        && named[k].1 == (ShardInfo::ReplicaSet {
                        replicas: plan.replica_states@[k].1,
                    })
            }),
    {
        let State { config, shards, transfers } = state;
        self.config = config;
        let registered = &self.shards_holder.shard_transfers;
        let mut to_abort: Vec<ShardTransfer> = Vec::new();
        let ghost unknown = |t: ShardTransfer| !transfers@.contains(t);
        let mut i: usize = 0;
        while i < registered.len()
            invariant
                i <= registered.len(),
                unknown == (|t: ShardTransfer| !transfers@.contains(t)),
                to_abort@ == registered@.take(i as int).filter(unknown),
            decreases registered.len() - i,
        {
            let transfer = registered[i];
            proof {
                assert(registered@.take(i + 1) == registered@.take(i as int).push(transfer));
                registered@.take(i as int).lemma_filter_push(transfer, unknown);
            }
            if !holds_transfer(&transfers, &transfer) {
                to_abort.push(transfer);
            }
            i += 1;
        }
        assert(registered@.take(i as int) == registered@);
        let ghost all = shards@;
        let ghost here = |e: (ShardId, ShardInfo)| is_set_here(&old(self).shards_holder, e);
        let mut rest = crate::operations::reverse(shards);
        let mut replica_states: Vec<(ShardId, ReplicaState)> = Vec::new();
        let ghost mut done: int = 0;
        while rest.len() > 0
            invariant
                0 <= done <= all.len(),
                rest@.len() == all.len() - done,
                forall|j: int| 0 <= j < rest@.len() ==> #[trigger] rest@[j] == all[all.len() - 1 - j],
                self.shards_holder == old(self).shards_holder,
                here == (|e: (ShardId, ShardInfo)| is_set_here(&old(self).shards_holder, e)),
                replica_states@.len() == all.take(done).filter(here).len(),
                forall|k: int|
                    0 <= k < replica_states@.len() ==> (#[trigger] replica_states@[k]).0
                        == all.take(done).filter(here)[k].0 && all.take(done).filter(here)[k].1 == (
                    ShardInfo::ReplicaSet { replicas: replica_states@[k].1 }),
            decreases rest@.len(),
        {
            let (shard_id, info) = rest.pop().unwrap();
            let ghost before = all.take(done).filter(here);
            proof {
                assert((shard_id, info) == all[done]);
                assert(all.take(done + 1) == all.take(done).push(all[done]));
                all.take(done).lemma_filter_push(all[done], here);
            }
            match info {
                ShardInfo::ReplicaSet { replicas } => {
                    let is_set = match self.shards_holder.get_shard(&shard_id) {
                        Some(Shard::ReplicaSet(_)) => true,
                        _ => false,
                    };
                    if is_set {
                        replica_states.push((shard_id, replicas));
                        proof {
                            assert(all.take(done + 1).filter(here) == before.push(all[done]));
                            assert forall|k: int| 0 <= k < replica_states@.len() implies (
                            #[trigger] replica_states@[k]).0 == all.take(done + 1).filter(here)[k].0
                                && all.take(done + 1).filter(here)[k].1 == (ShardInfo::ReplicaSet {
                                replicas: replica_states@[k].1,
                            }) by {
                                if k < before.len() {
                                    assert(before.push(all[done])[k] == before[k]);
                                }
                            }
                        }
                    }
                },
                ShardInfo::Single(_) => {},
            }
            proof {
                done = done + 1;
            }
        }
        assert(all.take(done) == all);
        StatePlan { to_abort, replica_states }
    }
}

} // verus!
