//! The steps of a shard transfer on the shard holder of one peer.
//!
//! Every peer runs the same steps when a transfer ends. Each step does
//! something only on the peer whose holder is in the state that the step is
//! for: the sender turns its forward proxy into a remote shard, the receiver
//! turns its temporary shard into the local shard, and every other peer
//! points its remote shard at the receiver.

use vstd::prelude::*;
use crate::id_map::{lemma_position_of, Id, IdMap};
use crate::replica_set::{is_state_not_saved, ReplicaState};
use crate::shard::{RemoteShard, Shard};
use crate::shard_holder::{lemma_slot_replaced, ShardHolder, ShardTransfer};
use crate::types::{always_saves, CollectionError, PeerId, ShardId};

verus! {

/// Identifies the task of a transfer: the shard and the two peers.
#[derive(Clone, Copy, Debug, PartialEq, Eq, Structural, Hash)]
pub struct ShardTransferKey {
    pub shard_id: ShardId,
    pub from: PeerId,
    pub to: PeerId,
}

impl Id for ShardTransferKey {
    fn same(&self, other: &Self) -> (b: bool) {
        *self == *other
    }
}

impl ShardTransfer {
    /// The key of the transfer's task.
    pub open spec fn spec_key(&self) -> ShardTransferKey {
        ShardTransferKey { shard_id: self.shard_id, from: self.from, to: self.to }
    }

    /// The key of the transfer's task.
    pub fn key(&self) -> (key: ShardTransferKey)
        ensures
            key == self.spec_key(),
    {
        ShardTransferKey { shard_id: self.shard_id, from: self.from, to: self.to }
    }
}

/// How the task of a transfer was found when it was stopped.
#[derive(Clone, Copy, Debug, PartialEq, Eq, Structural)]
pub enum TaskResult {
    /// The task was running and was stopped.
    Stopped,
    /// The task had run to its end.
    Finished,
    /// There was no task.
    NotFound,
}

impl TaskResult {
    /// True when the task had run to its end.
    pub fn is_finished(&self) -> (b: bool)
        ensures
            b == (*self is Finished),
    {
        match self {
            TaskResult::Finished => true,
            _ => false,
        }
    }
}

/// The running transfer tasks of a collection, at most one for each key.
/// `T` is the handle of a task.
pub struct TransferTasksPool<T> {
    tasks: IdMap<ShardTransferKey, T>,
}

impl<T> TransferTasksPool<T> {
    /// The tasks by key.
    pub closed spec fn view(&self) -> Map<ShardTransferKey, T> {
        self.tasks@
    }

    /// No key has two tasks.
    pub closed spec fn wf(&self) -> bool {
        self.tasks.wf()
    }

    /// An empty pool.
    pub fn new() -> (pool: Self)
        ensures
            pool.wf(),
            pool@ == Map::<ShardTransferKey, T>::empty(),
    {
        let pool = TransferTasksPool { tasks: IdMap::new() };
        assert(pool@ =~= Map::<ShardTransferKey, T>::empty()) by {
            assert forall|k: ShardTransferKey| !pool@.dom().contains(k) by {
                lemma_position_of(pool.tasks.entries(), k);
            }
        }
        pool
    }

    /// Takes the task of `transfer` out of the pool, for the caller to stop
    /// it. `None` when the transfer has no task.
    pub fn stop_if_exists(&mut self, transfer: &ShardTransfer) -> (task: Option<T>)
        requires
            old(self).wf(),
        ensures
            final(self).wf(),
            final(self)@ == old(self)@.remove(transfer.spec_key()),
            task == (if old(self)@.dom().contains(transfer.spec_key()) {
                Some(old(self)@[transfer.spec_key()])
            } else {
                None
            }),
    {
        self.tasks.remove(transfer.key())
    }

    /// Puts the task of `transfer` into the pool, in the place of the task
    /// that the transfer had, which is handed back for the caller to stop it.
    pub fn add_task(&mut self, transfer: &ShardTransfer, task: T) -> (previous: Option<T>)
        requires
            old(self).wf(),
        ensures
            final(self).wf(),
            final(self)@ == old(self)@.insert(transfer.spec_key(), task),
            previous == (if old(self)@.dom().contains(transfer.spec_key()) {
                Some(old(self)@[transfer.spec_key()])
            } else {
                None
            }),
    {
        self.tasks.insert(transfer.key(), task)
    }

    /// True when `transfer` has a task.
    pub fn has_task(&self, transfer: &ShardTransfer) -> (b: bool)
        ensures
            b == self@.dom().contains(transfer.spec_key()),
    {
        self.tasks.contains(transfer.key())
    }
}

/// The slot of the sender after the transfer: a forward proxy becomes a
/// remote shard on `to`.
pub open spec fn promoted_proxy<L>(slot: Option<Shard<L>>, shard_id: ShardId, to: PeerId) -> Option<
    Shard<L>,
> {
    match slot {
        Some(Shard::ForwardProxy(_)) => Some(Shard::Remote(RemoteShard { id: shard_id, peer_id: to })),
        other => other,
    }
}

/// The slot of the receiver after the transfer: a temporary shard takes the
/// slot.
pub open spec fn promoted_temporary<L>(slot: Option<Shard<L>>, temporary: Option<Shard<L>>) -> Option<
    Shard<L>,
> {
    match temporary {
        Some(shard) => Some(shard),
        None => slot,
    }
}

/// The slot of any other peer after the transfer: a remote shard points at
/// `to`.
pub open spec fn rerouted<L>(slot: Option<Shard<L>>, to: PeerId) -> Option<Shard<L>> {
    match slot {
        Some(Shard::Remote(remote)) => Some(Shard::Remote(RemoteShard { id: remote.id, peer_id: to })),
        other => other,
    }
}

/// The slot after an aborted transfer: the local shard comes out of its
/// forward proxy.
pub open spec fn reverted_proxy<L>(slot: Option<Shard<L>>) -> Option<Shard<L>> {
    match slot {
        Some(Shard::ForwardProxy(proxy)) => Some(Shard::Local(proxy.wrapped_shard)),
        other => other,
    }
}

/// True when the slot holds a replica set that knows `peer` and records it
/// as not active.
pub open spec fn needs_activation<L>(slot: Option<Shard<L>>, peer: PeerId) -> bool {
    slot matches Some(Shard::ReplicaSet(set)) && set.replica_state.has(peer) && !set.is_active(peer)
}

/// Turns the forward proxy in slot `shard_id` into a remote shard on `to`.
/// The proxy with its local shard is handed back, for the caller to release
/// what it holds. Any other slot stays as it is.
pub fn promote_proxy_to_remote_shard<L>(
    holder: &mut ShardHolder<L>,
    shard_id: ShardId,
    to: PeerId,
) -> (released: Option<Shard<L>>)
    requires
        old(holder).wf(),
    ensures
        final(holder).wf(),
        final(holder).ring.scale() == old(holder).ring.scale(),
        final(holder).slot(shard_id) == promoted_proxy(old(holder).slot(shard_id), shard_id, to),
        forall|id: ShardId| id != shard_id ==> final(holder).slot(id) == old(holder).slot(id),
        final(holder).temporary_shards == old(holder).temporary_shards,
        final(holder).shard_transfers == old(holder).shard_transfers,
        released == (match old(holder).slot(shard_id) {
            Some(Shard::ForwardProxy(proxy)) => Some(Shard::ForwardProxy(proxy)),
            _ => None,
        }),
{
    let is_proxy = match holder.get_shard(&shard_id) {
        Some(Shard::ForwardProxy(_)) => true,
        _ => false,
    };
    if is_proxy {
        holder.replace_shard(shard_id, Shard::Remote(RemoteShard { id: shard_id, peer_id: to }))
    } else {
        None
    }
}

/// Makes the temporary shard of `shard_id` the shard of the slot. The shard
/// that was in the slot is handed back, for the caller to release what it
/// holds. Without a temporary shard nothing changes.
pub fn promote_temporary_shard_to_local<L>(holder: &mut ShardHolder<L>, shard_id: ShardId) -> (r: (
    bool,
    Option<Shard<L>>,
))
    requires
        old(holder).wf(),
    ensures
        final(holder).wf(),
        final(holder).ring.scale() == old(holder).ring.scale(),
        final(holder).slot(shard_id) == promoted_temporary(
            old(holder).slot(shard_id),
            old(holder).temporary(shard_id),
        ),
        forall|id: ShardId| id != shard_id ==> final(holder).slot(id) == old(holder).slot(id),
        final(holder).temporary(shard_id).is_none(),
        forall|id: ShardId|
            id != shard_id ==> final(holder).temporary(id) == old(holder).temporary(id),
        final(holder).shard_transfers == old(holder).shard_transfers,
        r.0 == old(holder).temporary(shard_id).is_some(),
        r.1 == (if old(holder).temporary(shard_id).is_some() {
            old(holder).slot(shard_id)
        } else {
            None
        }),
{
    match holder.remove_temporary_shard(shard_id) {
        Some(shard) => {
            let previous = holder.replace_shard(shard_id, shard);
            (true, previous)
        },
        None => (false, None),
    }
}

/// Points the remote shard in slot `shard_id` at `to`. Returns `true` when
/// the slot held a remote shard on another peer.
pub fn change_remote_shard_route<L>(holder: &mut ShardHolder<L>, shard_id: ShardId, to: PeerId) -> (changed:
    bool)
    requires
        old(holder).wf(),
    ensures
        final(holder).wf(),
        final(holder).ring.scale() == old(holder).ring.scale(),
        final(holder).slot(shard_id) == rerouted(old(holder).slot(shard_id), to),
        forall|id: ShardId| id != shard_id ==> final(holder).slot(id) == old(holder).slot(id),
        final(holder).temporary_shards == old(holder).temporary_shards,
        final(holder).shard_transfers == old(holder).shard_transfers,
        changed == (old(holder).slot(shard_id) matches Some(Shard::Remote(remote))
            && remote.peer_id != to),
{
    let remote = match holder.get_shard(&shard_id) {
        Some(Shard::Remote(remote)) => Some(*remote),
        _ => None,
    };
    match remote {
        Some(remote) => {
            if remote.peer_id == to {
                false
            } else {
                holder.replace_shard(
                    shard_id,
                    Shard::Remote(RemoteShard { id: remote.id, peer_id: to }),
                );
                true
            }
        },
        None => false,
    }
}

/// Takes the local shard in slot `shard_id` out of its forward proxy.
/// Returns `true` when the slot held a forward proxy.
pub fn revert_proxy_shard_to_local<L>(holder: &mut ShardHolder<L>, shard_id: ShardId) -> (changed:
    bool)
    requires
        old(holder).wf(),
    ensures
        final(holder).wf(),
        final(holder).ring.scale() == old(holder).ring.scale(),
        final(holder).slot(shard_id) == reverted_proxy(old(holder).slot(shard_id)),
        forall|id: ShardId| id != shard_id ==> final(holder).slot(id) == old(holder).slot(id),
        final(holder).temporary_shards == old(holder).temporary_shards,
        final(holder).shard_transfers == old(holder).shard_transfers,
        changed == (old(holder).slot(shard_id) matches Some(Shard::ForwardProxy(_))),
{
    match holder.shards.find(shard_id) {
        None => false,
        Some(at) => {
            proof {
                lemma_position_of(holder.shards.entries(), shard_id);
            }
            let is_proxy = match holder.shards.value_at(at) {
                Shard::ForwardProxy(_) => true,
                _ => false,
            };
            if !is_proxy {
                return false;
            }
            let slot = holder.shards.value_at_mut(at);
            let mut taken = Shard::Remote(RemoteShard { id: shard_id, peer_id: 0 });
            core::mem::swap(slot, &mut taken);
            match taken {
                Shard::ForwardProxy(proxy) => {
                    *slot = Shard::Local(proxy.wrapped_shard);
                },
                other => {
                    *slot = other;
                },
            }
            proof {
                lemma_slot_replaced(*old(holder), *holder, at as int);
            }
            true
        },
    }
}

/// Detaches the temporary shard of `shard_id` and hands it back, for the
/// caller to release what it holds.
pub fn drop_temporary_shard<L>(holder: &mut ShardHolder<L>, shard_id: ShardId) -> (released: Option<
    Shard<L>,
>)
    requires
        old(holder).wf(),
    ensures
        final(holder).wf(),
        final(holder).ring.scale() == old(holder).ring.scale(),
        final(holder).temporary(shard_id).is_none(),
        forall|id: ShardId|
            id != shard_id ==> final(holder).temporary(id) == old(holder).temporary(id),
        final(holder).shards == old(holder).shards,
        final(holder).shard_transfers == old(holder).shard_transfers,
        released == old(holder).temporary(shard_id),
{
    holder.remove_temporary_shard(shard_id)
}

/// Records the replica of shard `shard_id` on `peer_id` as active, where the
/// slot holds a replica set that knows the peer as not active. The new state
/// is saved before it takes effect. Returns `true` when the record changed.
///
/// Fails with a service error when the state could not be saved; the holder
/// is then unchanged.
pub fn activate_peer_for_replica<L, P: Fn(&ReplicaState) -> bool>(
    holder: &mut ShardHolder<L>,
    shard_id: ShardId,
    peer_id: PeerId,
    persist: P,
) -> (r: Result<bool, CollectionError>)
    requires
        old(holder).wf(),
        forall|m: &ReplicaState| call_requires(persist, (m,)),
    ensures
        always_saves(persist) ==> !is_state_not_saved(r),
        final(holder).wf(),
        final(holder).ring.scale() == old(holder).ring.scale(),
        final(holder).temporary_shards == old(holder).temporary_shards,
        final(holder).shard_transfers == old(holder).shard_transfers,
        forall|id: ShardId| id != shard_id ==> final(holder).slot(id) == old(holder).slot(id),
        !needs_activation(old(holder).slot(shard_id), peer_id) ==> r == Ok::<bool, CollectionError>(
            false,
        ) && final(holder).slot(shard_id) == old(holder).slot(shard_id),
        needs_activation(old(holder).slot(shard_id), peer_id) ==> r == Ok::<bool, CollectionError>(
            true,
        ) || is_state_not_saved(r),
        r is Err ==> final(holder).slot(shard_id) == old(holder).slot(shard_id),
        r == Ok::<bool, CollectionError>(true) ==> {
            &&& old(holder).slot(shard_id) matches Some(Shard::ReplicaSet(before))
            &&& final(holder).slot(shard_id) matches Some(Shard::ReplicaSet(after))
            &&& after.same_replicas(&before)
            &&& after.replica_state@ == before.replica_state@.insert(peer_id, true)
            &&& !needs_activation(final(holder).slot(shard_id), peer_id)
        },
{
    let needed = match holder.get_shard(&shard_id) {
        Some(Shard::ReplicaSet(set)) => set.replica_state.contains(peer_id) && !set.peer_is_active(
            &peer_id,
        ),
        _ => false,
    };
    if !needed {
        return Ok(false);
    }
    match holder.set_shard_replica_state(shard_id, peer_id, true, persist) {
        Ok(()) => {
            proof {
                let after = holder.slot(shard_id)->Some_0->ReplicaSet_0;
                assert(after.replica_state@.dom().contains(peer_id));
                assert(after.replica_state@[peer_id] == true);
            }
            Ok(true)
        },
        Err(e) => Err(e),
    }
}

/// The slot of the sender while the transfer runs: the local shard goes
/// behind a forward proxy to `remote_shard`.
pub open spec fn proxified<L>(slot: Option<Shard<L>>, remote_shard: RemoteShard) -> Option<Shard<L>> {
    match slot {
        Some(Shard::Local(local)) => Some(
            Shard::ForwardProxy(
                crate::shard::ForwardProxyShard { wrapped_shard: local, remote_shard },
            ),
        ),
        other => other,
    }
}

/// Puts a forward proxy to `remote_shard` around the local shard in slot
/// `shard_id`, so that every write goes to the receiving peer too. Returns
/// `true` when the slot held a plain local shard; any other slot stays as
/// it is.
pub fn proxify_shard<L>(holder: &mut ShardHolder<L>, shard_id: ShardId, remote_shard: RemoteShard) -> (changed:
    bool)
    requires
        old(holder).wf(),
    ensures
        final(holder).wf(),
        final(holder).ring.scale() == old(holder).ring.scale(),
        final(holder).slot(shard_id) == proxified(old(holder).slot(shard_id), remote_shard),
        forall|id: ShardId| id != shard_id ==> final(holder).slot(id) == old(holder).slot(id),
        final(holder).temporary_shards == old(holder).temporary_shards,
        final(holder).shard_transfers == old(holder).shard_transfers,
        changed == (old(holder).slot(shard_id) matches Some(Shard::Local(_))),
{
    match holder.shards.find(shard_id) {
        None => false,
        Some(at) => {
            proof {
                lemma_position_of(holder.shards.entries(), shard_id);
            }
            let is_local = match holder.shards.value_at(at) {
                Shard::Local(_) => true,
                _ => false,
            };
            if !is_local {
                return false;
            }
            let slot = holder.shards.value_at_mut(at);
            let mut taken = Shard::Remote(remote_shard);
            core::mem::swap(slot, &mut taken);
            match taken {
                Shard::Local(local) => {
                    *slot = Shard::ForwardProxy(
                        crate::shard::ForwardProxyShard::new(local, remote_shard),
                    );
                },
                other => {
                    *slot = other;
                },
            }
            proof {
                lemma_slot_replaced(*old(holder), *holder, at as int);
            }
            true
        },
    }
}

} // verus!
