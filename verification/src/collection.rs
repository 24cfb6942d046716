//! The collection: its shards on this peer and the operations on them.

use vstd::prelude::*;
use crate::config::CollectionConfig;
use crate::hash_ring::{lemma_ring_determined, HASH_RING_SHARD_SCALE};
use crate::replica_set::{is_state_not_saved, ReplicaState};
use crate::shard::Shard;
use crate::shard_holder::{has_conflict, is_transfers_not_saved, ShardHolder, ShardTransfer};
use crate::transfer::{
    activate_peer_for_replica, change_remote_shard_route, drop_temporary_shard, needs_activation,
    promote_proxy_to_remote_shard, promote_temporary_shard_to_local, promoted_proxy,
    promoted_temporary, rerouted, reverted_proxy, revert_proxy_shard_to_local, TaskResult,
};
use crate::types::{
    always_saves,
    is_bad_request,
    is_not_found,
    is_service_error,
    numbered,
    text_with_number,
    CollectionError,
    PeerId,
    PointId,
    ShardId,
};

verus! {

/// A collection of points, split into shards.
///
/// `L` is the local storage of one shard on this peer.
pub struct Collection<L> {
    pub id: String,
    pub shards_holder: ShardHolder<L>,
    pub config: CollectionConfig,
    /// True once `before_drop` was called.
    pub before_drop_called: bool,
}

/// What the end of a transfer did on this peer.
pub struct TransferEnd<L> {
    /// True when anything changed.
    pub changed: bool,
    /// The shards that left the holder, for the caller to release what they
    /// hold.
    pub released: Vec<Shard<L>>,
}

/// The slot of a transferred shard once the transfer has finished: the three
/// steps of the sender, the receiver and the other peers, one after the
/// other.
pub open spec fn finished_slot<L>(
    slot: Option<Shard<L>>,
    temporary: Option<Shard<L>>,
    transfer: ShardTransfer,
) -> Option<Shard<L>> {
    rerouted(
        promoted_temporary(promoted_proxy(slot, transfer.shard_id, transfer.to), temporary),
        transfer.to,
    )
}

/// True when a remote shard in `slot` is on another peer than `to`.
pub open spec fn is_elsewhere<L>(slot: Option<Shard<L>>, to: PeerId) -> bool {
    slot matches Some(Shard::Remote(remote)) && remote.peer_id != to
}

/// True when the end of `transfer` changes anything on a holder with `slot`
/// and `temporary` for the shard, where `registered` says whether the
/// transfer is registered and `task` how its task was found.
pub open spec fn finish_changes<L>(
    slot: Option<Shard<L>>,
    temporary: Option<Shard<L>>,
    registered: bool,
    transfer: ShardTransfer,
    task: TaskResult,
) -> bool {
    registered || !(task is NotFound) || (if transfer.sync {
        needs_activation(slot, transfer.to)
    } else {
        slot matches Some(Shard::ForwardProxy(_)) || temporary.is_some() || is_elsewhere(
            promoted_temporary(promoted_proxy(slot, transfer.shard_id, transfer.to), temporary),
            transfer.to,
        )
    })
}

/// The shards that the end of a transfer without `sync` releases: the
/// forward proxy of the sender, and what the temporary shard pushes out of
/// the slot.
pub open spec fn finish_releases<L>(
    slot: Option<Shard<L>>,
    temporary: Option<Shard<L>>,
    transfer: ShardTransfer,
) -> Seq<Shard<L>> {
    let first = match slot {
        Some(Shard::ForwardProxy(proxy)) => seq![Shard::ForwardProxy(proxy)],
        _ => Seq::empty(),
    };
    let second = match (temporary, promoted_proxy(slot, transfer.shard_id, transfer.to)) {
        (Some(_), Some(pushed)) => seq![pushed],
        _ => Seq::empty(),
    };
    first + second
}

/// True when `after` is `before` without the registered `transfer`.
pub open spec fn unregistered<L>(
    before: &ShardHolder<L>,
    after: &ShardHolder<L>,
    transfer: ShardTransfer,
) -> bool {
    after.transfers() == before.transfers().remove(transfer)
}

/// True when the two holders have the same shards and temporary shards.
pub open spec fn same_slots<L>(before: &ShardHolder<L>, after: &ShardHolder<L>) -> bool {
    &&& forall|id: ShardId| after.slot(id) == before.slot(id)
    &&& forall|id: ShardId| after.temporary(id) == before.temporary(id)
}

/// True when `after` is what the finished `transfer` makes of `before`.
pub open spec fn finished<L>(
    before: &ShardHolder<L>,
    after: &ShardHolder<L>,
    transfer: ShardTransfer,
) -> bool {
    let id = transfer.shard_id;
    &&& unregistered(before, after, transfer)
    &&& forall|other: ShardId| other != id ==> after.slot(other) == before.slot(other)
    &&& forall|other: ShardId| other != id ==> after.temporary(other) == before.temporary(other)
    &&& if transfer.sync {
        &&& after.temporary(id) == before.temporary(id)
        &&& !needs_activation(after.slot(id), transfer.to)
        &&& if needs_activation(before.slot(id), transfer.to) {
            &&& before.slot(id) matches Some(Shard::ReplicaSet(old_set))
            &&& after.slot(id) matches Some(Shard::ReplicaSet(new_set))
            &&& new_set.same_replicas(&old_set)
            &&& new_set.replica_state@ == old_set.replica_state@.insert(transfer.to, true)
        } else {
            after.slot(id) == before.slot(id)
        }
    } else {
        &&& after.temporary(id).is_none()
        &&& after.slot(id) == finished_slot(before.slot(id), before.temporary(id), transfer)
    }
}

/// True when `after` is what the aborted `transfer` makes of `before`.
pub open spec fn aborted<L>(
    before: &ShardHolder<L>,
    after: &ShardHolder<L>,
    transfer: ShardTransfer,
) -> bool {
    let id = transfer.shard_id;
    &&& unregistered(before, after, transfer)
    &&& forall|other: ShardId| other != id ==> after.slot(other) == before.slot(other)
    &&& forall|other: ShardId| other != id ==> after.temporary(other) == before.temporary(other)
    &&& after.temporary(id).is_none()
    &&& after.slot(id) == reverted_proxy(before.slot(id))
}

/// True when the abort of `transfer` changes anything.
pub open spec fn abort_changes<L>(
    slot: Option<Shard<L>>,
    temporary: Option<Shard<L>>,
    registered: bool,
    task: TaskResult,
) -> bool {
    registered || !(task is NotFound) || slot matches Some(Shard::ForwardProxy(_))
        || temporary.is_some()
}

/// Whether this peer sends the data of a transfer of the shard in `slot`.
pub open spec fn drives_transfer<L>(slot: Shard<L>, sync: bool) -> bool {
    match slot {
        Shard::Local(_) => true,
        Shard::Remote(_) => false,
        Shard::Proxy(_) => false,
        Shard::ForwardProxy(_) => false,
        Shard::ReplicaSet(set) => sync && set.local.is_some(),
    }
}

/// The three steps that end a transfer without `sync`, on one holder.
fn finish_move<L>(holder: &mut ShardHolder<L>, transfer: ShardTransfer) -> (r: (
    bool,
    Vec<Shard<L>>,
))
    requires
        old(holder).wf(),
    ensures
        final(holder).wf(),
        final(holder).ring.scale() == old(holder).ring.scale(),
        final(holder).shard_transfers == old(holder).shard_transfers,
        forall|other: ShardId|
            other != transfer.shard_id ==> final(holder).slot(other) == old(holder).slot(other),
        forall|other: ShardId|
            other != transfer.shard_id ==> final(holder).temporary(other) == old(
                holder).temporary(other),
        final(holder).temporary(transfer.shard_id).is_none(),
        final(holder).slot(transfer.shard_id) == finished_slot(
            old(holder).slot(transfer.shard_id),
            old(holder).temporary(transfer.shard_id),
            transfer,
        ),
        r.0 == (old(holder).slot(transfer.shard_id) matches Some(Shard::ForwardProxy(_)) || old(
            holder).temporary(transfer.shard_id).is_some() || is_elsewhere(
            promoted_temporary(
                promoted_proxy(
                    old(holder).slot(transfer.shard_id),
                    transfer.shard_id,
                    transfer.to,
                ),
                old(holder).temporary(transfer.shard_id),
            ),
            transfer.to,
        )),
        r.1@ == finish_releases(
            old(holder).slot(transfer.shard_id),
            old(holder).temporary(transfer.shard_id),
            transfer,
        ),
{
    let ghost slot = holder.slot(transfer.shard_id);
    let ghost temporary = holder.temporary(transfer.shard_id);
    let mut released: Vec<Shard<L>> = Vec::new();
    let proxy = promote_proxy_to_remote_shard(holder, transfer.shard_id, transfer.to);
    let promoted = proxy.is_some();
    match proxy {
        Some(shard) => {
            released.push(shard);
        },
        None => {},
    }
    let ghost first = released@;
    let ghost after_proxy = *holder;
    assert(first =~= (match slot {
        Some(Shard::ForwardProxy(proxy)) => seq![Shard::ForwardProxy(proxy)],
        _ => Seq::empty(),
    }));
    let (taken, pushed) = promote_temporary_shard_to_local(holder, transfer.shard_id);
    let ghost after_temporary = *holder;
    match pushed {
        Some(shard) => {
            released.push(shard);
        },
        None => {},
    }
    let ghost second = released@.skip(first.len() as int);
    assert(released@ =~= first + second);
    assert(second =~= (match (
        temporary,
        promoted_proxy(slot, transfer.shard_id, transfer.to),
    ) {
        (Some(_), Some(pushed)) => seq![pushed],
        _ => Seq::empty(),
    }));
    let routed = change_remote_shard_route(holder, transfer.shard_id, transfer.to);
    proof {
        assert forall|other: ShardId| other != transfer.shard_id implies holder.temporary(other)
            == old(holder).temporary(other) by {
            assert(after_proxy.temporary(other) == old(holder).temporary(other));
            assert(after_temporary.temporary(other) == after_proxy.temporary(other));
        }
        assert forall|other: ShardId| other != transfer.shard_id implies holder.slot(other)
            == old(holder).slot(other) by {
            assert(after_proxy.slot(other) == old(holder).slot(other));
            assert(after_temporary.slot(other) == after_proxy.slot(other));
        }
    }
    (promoted || taken || routed, released)
}

impl<L> Collection<L> {
    /// The holder is sound, and every shard has `HASH_RING_SHARD_SCALE`
    /// virtual nodes on the ring: with the shards alone, that fixes where
    /// every point goes.
    pub open spec fn wf(&self) -> bool {
        self.shards_holder.wf() && self.shards_holder.ring.scale() == HASH_RING_SHARD_SCALE
    }

    /// A collection named `id` with the configuration `config` around
    /// `shards_holder`.
    pub fn from_parts(id: String, config: CollectionConfig, shards_holder: ShardHolder<L>) -> (collection:
        Self)
        requires
            shards_holder.wf(),
            shards_holder.ring.scale() == HASH_RING_SHARD_SCALE,
        ensures
            collection.wf(),
            collection.id == id,
            collection.config == config,
            collection.shards_holder == shards_holder,
            !collection.before_drop_called,
    {
        Collection { id, shards_holder, config, before_drop_called: false }
    }

    /// The name of the collection.
    pub fn name(&self) -> (name: String)
        ensures
            name@ == self.id@,
    {
        self.id.clone()
    }

    /// True when slot `shard_id` holds a shard.
    pub fn contains_shard(&self, shard_id: &ShardId) -> (b: bool)
        ensures
            b == self.shards_holder.shards.has(*shard_id),
    {
        self.shards_holder.contains_shard(shard_id)
    }

    /// Whether the shard in slot `shard_id` is a plain local shard; `None`
    /// when the slot is empty.
    pub fn is_shard_local(&self, shard_id: &ShardId) -> (r: Option<bool>)
        ensures
            r == match self.shards_holder.slot(*shard_id) {
                Some(shard) => Some(shard is Local),
                None => None,
            },
    {
        match self.shards_holder.get_shard(shard_id) {
            Some(shard) => Some(shard.is_local()),
            None => None,
        }
    }

    /// True when `transfer` is registered.
    pub fn check_transfer_exists(&self, transfer: &ShardTransfer) -> (b: bool)
        ensures
            b == self.shards_holder.transfers().contains(*transfer),
    {
        self.shards_holder.check_transfer_exists(transfer)
    }

    /// The registered transfers that `current_peer_id` sends.
    pub fn get_outgoing_transfers(&self, current_peer_id: &PeerId) -> (outgoing: Vec<ShardTransfer>)
        ensures
            outgoing@ == self.shards_holder.shard_transfers@.filter(
                |t: ShardTransfer| t.from == *current_peer_id,
            ),
    {
        self.shards_holder.get_outgoing_transfers(current_peer_id)
    }

    /// Records the replica of shard `shard_id` on `peer_id` as active or
    /// not. See [`ShardHolder::set_shard_replica_state`].
    pub fn set_shard_replica_state<P: Fn(&ReplicaState) -> bool>(
        &mut self,
        shard_id: ShardId,
        peer_id: PeerId,
        active: bool,
        persist: P,
    ) -> (r: Result<(), CollectionError>)
        requires
            old(self).wf(),
            forall|m: &ReplicaState| call_requires(persist, (m,)),
        ensures
            always_saves(persist) ==> !is_state_not_saved(r),
            final(self).wf(),
            final(self).id == old(self).id,
            final(self).config == old(self).config,
            final(self).before_drop_called == old(self).before_drop_called,
            final(self).shards_holder.temporary_shards == old(self).shards_holder.temporary_shards,
            final(self).shards_holder.shard_transfers == old(self).shards_holder.shard_transfers,
            forall|id: ShardId|
                id != shard_id ==> final(self).shards_holder.slot(id) == old(
                    self).shards_holder.slot(id),
            r is Err ==> final(self).shards_holder.slot(shard_id) == old(self).shards_holder.slot(
                shard_id,
            ),
            match old(self).shards_holder.slot(shard_id) {
                None => is_not_found(r, numbered("Shard "@, shard_id as nat, ""@)),
                Some(Shard::ReplicaSet(set)) => if set.replica_state.has(peer_id) {
                    r is Ok || is_state_not_saved(r)
                } else {
                    is_not_found(
                        r,
                        numbered(
                            numbered("Shard "@, shard_id as nat, " replica on peer "@),
                            peer_id as nat,
                            ""@,
                        ),
                    )
                },
                Some(_) => is_bad_request(
                    r,
                    numbered("Shard "@, shard_id as nat, " is not a replica set"@),
                ),
            },
            r is Ok ==> {
                &&& old(self).shards_holder.slot(shard_id) matches Some(Shard::ReplicaSet(before))
                &&& final(self).shards_holder.slot(shard_id) matches Some(Shard::ReplicaSet(after))
                &&& after.same_replicas(&before)
                &&& after.replica_state@ == before.replica_state@.insert(peer_id, active)
            },
    {
        self.shards_holder.set_shard_replica_state(shard_id, peer_id, active, persist)
    }

    /// Registers `shard_transfer` and decides whether this peer sends the
    /// data.
    ///
    /// This peer sends when the slot holds a plain local shard, or a replica
    /// set with a replica on this peer and `sync` is set. It does not send
    /// when the shard is remote or behind a proxy already.
    ///
    /// Fails as [`ShardHolder::register_start_shard_transfer`] does, and
    /// with a service error when the slot is empty; the transfer is
    /// registered then all the same.
    pub fn start_shard_transfer<P: Fn(&Vec<ShardTransfer>) -> bool>(
        &mut self,
        shard_transfer: ShardTransfer,
        sync: bool,
        persist: P,
    ) -> (r: Result<bool, CollectionError>)
        requires
            old(self).wf(),
            forall|t: &Vec<ShardTransfer>| call_requires(persist, (t,)),
        ensures
            always_saves(persist) ==> !is_transfers_not_saved(r),
            final(self).wf(),
            final(self).id == old(self).id,
            final(self).config == old(self).config,
            final(self).before_drop_called == old(self).before_drop_called,
            same_slots(&old(self).shards_holder, &final(self).shards_holder),
            has_conflict(old(self).shards_holder.shard_transfers@, shard_transfer) ==> is_bad_request(
                r,
                numbered(
                    "a transfer of shard "@,
                    shard_transfer.shard_id as nat,
                    " between the same peers is in flight in another mode"@,
                ),
            ) && final(self).shards_holder.transfers() == old(self).shards_holder.transfers(),
            !has_conflict(old(self).shards_holder.shard_transfers@, shard_transfer) ==> {
                ||| is_transfers_not_saved(r) && !old(self).shards_holder.transfers().contains(
                    shard_transfer,
                ) && final(self).shards_holder.transfers() == old(self).shards_holder.transfers()
                ||| final(self).shards_holder.transfers() == old(
                    self).shards_holder.transfers().insert(shard_transfer) && (match old(
                    self).shards_holder.slot(shard_transfer.shard_id) {
                    Some(shard) => r == Ok::<bool, CollectionError>(drives_transfer(shard, sync)),
                    None => is_service_error(
                        r,
                        numbered("Shard "@, shard_transfer.shard_id as nat, " doesn't exist"@),
                    ) && !is_transfers_not_saved(r),
                })
            },
            old(self).shards_holder.transfers().contains(shard_transfer) ==> !is_transfers_not_saved(
                r,
            ),
    {
        match self.shards_holder.register_start_shard_transfer(shard_transfer, persist) {
            Err(e) => {
                return Err(e);
            },
            Ok(registered) => {
                proof {
                    if !registered {
                        assert(old(self).shards_holder.transfers().insert(shard_transfer) =~= old(
                            self).shards_holder.transfers());
                    }
                }
            },
        }
        match self.shards_holder.get_shard(&shard_transfer.shard_id) {
            None => {
                proof {
                    reveal_strlit("Shard ");
                    reveal_strlit("Failed to save the shard transfers");
                }
                let error = text_with_number(
                    "Shard ",
                    shard_transfer.shard_id as u64,
                    " doesn't exist",
                );
                assert(error@[0] == 'S');
                assert(crate::shard_holder::transfers_not_saved()[0] == 'F');
                Err(CollectionError::service_error(error))
            },
            Some(shard) => Ok(
                match shard {
                    Shard::Local(_) => true,
                    Shard::Remote(_) => false,
                    Shard::Proxy(_) => false,
                    Shard::ForwardProxy(_) => false,
                    Shard::ReplicaSet(set) => sync && set.local.is_some(),
                },
            ),
        }
    }

    /// Ends `transfer` on this peer.
    ///
    /// The transfer is taken out of the registered transfers. With `sync`
    /// the replica on the receiving peer is recorded as active. Without it,
    /// a forward proxy in the slot becomes a remote shard on the receiving
    /// peer, a temporary shard becomes the shard of the slot, and a remote
    /// shard in the slot is pointed at the receiving peer. `task` says how
    /// the task of the transfer was found when it was stopped.
    ///
    /// The result says whether anything changed, and hands back the shards
    /// that left the holder.
    ///
    /// Fails with a service error when the transfers or the replica state
    /// could not be saved. In the first case nothing has changed; in the
    /// second the transfer is no longer registered and nothing else has
    /// changed.
    pub fn finish_shard_transfer<P: Fn(&Vec<ShardTransfer>) -> bool, Q: Fn(&ReplicaState) -> bool>(
        &mut self,
        transfer: ShardTransfer,
        task: TaskResult,
        persist_transfers: P,
        persist_state: Q,
    ) -> (r: Result<TransferEnd<L>, CollectionError>)
        requires
            old(self).wf(),
            forall|t: &Vec<ShardTransfer>| call_requires(persist_transfers, (t,)),
            forall|m: &ReplicaState| call_requires(persist_state, (m,)),
        ensures
            always_saves(persist_transfers) && always_saves(persist_state) ==> r is Ok,
            final(self).wf(),
            final(self).id == old(self).id,
            final(self).config == old(self).config,
            final(self).before_drop_called == old(self).before_drop_called,
            !old(self).shards_holder.transfers().contains(transfer) && !(transfer.sync
                && needs_activation(
                old(self).shards_holder.slot(transfer.shard_id),
                transfer.to,
            )) ==> r is Ok,
            match r {
                Ok(end) => {
                    &&& finished(&old(self).shards_holder, &final(self).shards_holder, transfer)
                    &&& end.changed == finish_changes(
                        old(self).shards_holder.slot(transfer.shard_id),
                        old(self).shards_holder.temporary(transfer.shard_id),
                        old(self).shards_holder.transfers().contains(transfer),
                        transfer,
                        task,
                    )
                    &&& end.released@ == (if transfer.sync {
                        Seq::empty()
                    } else {
                        finish_releases(
                            old(self).shards_holder.slot(transfer.shard_id),
                            old(self).shards_holder.temporary(transfer.shard_id),
                            transfer,
                        )
                    })
                },
                Err(_) => {
                    &&& same_slots(&old(self).shards_holder, &final(self).shards_holder)
                    &&& if is_transfers_not_saved(r) {
                        final(self).shards_holder.shard_transfers == old(
                            self).shards_holder.shard_transfers && old(
                            self).shards_holder.transfers().contains(transfer)
                    } else {
                        is_state_not_saved(r) && transfer.sync && unregistered(
                            &old(self).shards_holder,
                            &final(self).shards_holder,
                            transfer,
                        )
                    }
                },
            },
    {
        proof {
            reveal_strlit("Failed to save the shard transfers");
            reveal_strlit("Failed to save the replica state");
            assert(crate::shard_holder::transfers_not_saved()[19] == 's');
            assert(crate::replica_set::state_not_saved()[19] == 'r');
        }
        let registered = match self.shards_holder.register_finish_transfer(
            &transfer,
            persist_transfers,
        ) {
            Ok(registered) => registered,
            Err(e) => {
                return Err(e);
            },
        };
        let stopped = match task {
            TaskResult::NotFound => false,
            _ => true,
        };
        if transfer.sync {
            let released: Vec<Shard<L>> = Vec::new();
            match activate_peer_for_replica(
                &mut self.shards_holder,
                transfer.shard_id,
                transfer.to,
                persist_state,
            ) {
                Ok(activated) => Ok(
                    TransferEnd { changed: registered || stopped || activated, released },
                ),
                Err(e) => Err(e),
            }
        } else {
            let (moved, released) = finish_move(&mut self.shards_holder, transfer);
            Ok(TransferEnd { changed: registered || stopped || moved, released })
        }
    }

    /// Aborts `transfer` on this peer: the transfer is taken out of the
    /// registered transfers, a forward proxy in the slot gives its local
    /// shard back and the temporary shard is detached. `task` says how the
    /// task of the transfer was found when it was stopped.
    ///
    /// The result says whether anything changed, and hands back the
    /// temporary shard.
    ///
    /// Fails with a service error when the transfers could not be saved;
    /// nothing has changed then.
    pub fn abort_shard_transfer<P: Fn(&Vec<ShardTransfer>) -> bool>(
        &mut self,
        transfer: ShardTransfer,
        task: TaskResult,
        persist: P,
    ) -> (r: Result<TransferEnd<L>, CollectionError>)
        requires
            old(self).wf(),
            forall|t: &Vec<ShardTransfer>| call_requires(persist, (t,)),
        ensures
            always_saves(persist) ==> r is Ok,
            final(self).wf(),
            final(self).id == old(self).id,
            final(self).config == old(self).config,
            final(self).before_drop_called == old(self).before_drop_called,
            !old(self).shards_holder.transfers().contains(transfer) ==> r is Ok,
            match r {
                Ok(end) => {
                    &&& aborted(&old(self).shards_holder, &final(self).shards_holder, transfer)
                    &&& end.changed == abort_changes(
                        old(self).shards_holder.slot(transfer.shard_id),
                        old(self).shards_holder.temporary(transfer.shard_id),
                        old(self).shards_holder.transfers().contains(transfer),
                        task,
                    )
                    &&& end.released@ == (match old(self).shards_holder.temporary(
                        transfer.shard_id,
                    ) {
                        Some(shard) => seq![shard],
                        None => Seq::empty(),
                    })
                },
                Err(_) => is_transfers_not_saved(r) && same_slots(
                    &old(self).shards_holder,
                    &final(self).shards_holder,
                ) && final(self).shards_holder.shard_transfers == old(
                    self).shards_holder.shard_transfers,
            },
    {
        let registered = match self.shards_holder.register_finish_transfer(&transfer, persist) {
            Ok(registered) => registered,
            Err(e) => {
                return Err(e);
            },
        };
        let stopped = match task {
            TaskResult::NotFound => false,
            _ => true,
        };
        let unwrapped = revert_proxy_shard_to_local(&mut self.shards_holder, transfer.shard_id);
        let mut released: Vec<Shard<L>> = Vec::new();
        let removed = match drop_temporary_shard(&mut self.shards_holder, transfer.shard_id) {
            Some(shard) => {
                released.push(shard);
                true
            },
            None => false,
        };
        proof {
            assert(released@ =~= (match old(self).shards_holder.temporary(transfer.shard_id) {
                Some(shard) => seq![shard],
                None => Seq::empty(),
            }));
            let id = transfer.shard_id;
            let before = old(self).shards_holder;
            assert(unregistered(&before, &self.shards_holder, transfer));
            assert(self.shards_holder.temporary(id).is_none());
            assert(self.shards_holder.slot(id) == reverted_proxy(before.slot(id)));
            assert(forall|other: ShardId|
                other != id ==> self.shards_holder.slot(other) == before.slot(other));
            assert(forall|other: ShardId|
                other != id ==> self.shards_holder.temporary(other) == before.temporary(other));
        }
        Ok(TransferEnd { changed: registered || stopped || unwrapped || removed, released })
    }
}

/// Where a point goes depends on the shards of the collection alone: two
/// collections with the same shards send every point to the same shard, in
/// whatever order their shards were put in. A collection that is opened
/// again routes as it did before.
pub proof fn lemma_routing_is_stable<L>(before: Collection<L>, after: Collection<L>, point: PointId)
    requires
        before.wf(),
        after.wf(),
        forall|id: ShardId| before.shards_holder.shards.has(id) == after.shards_holder.shards.has(id),
    ensures
        before.shards_holder.ring.keys() == after.shards_holder.ring.keys(),
        before.shards_holder.ring.spec_get(point) == after.shards_holder.ring.spec_get(point),
{
    assert(before.shards_holder.ring.shards() =~= after.shards_holder.ring.shards());
    lemma_ring_determined(before.shards_holder.ring, after.shards_holder.ring, point);
}

/// A finished transfer stays finished: on the holder that the end of a
/// transfer has left, ending the transfer once more changes nothing and says
/// so.
pub proof fn lemma_finish_twice<L>(
    start: ShardHolder<L>,
    once: ShardHolder<L>,
    twice: ShardHolder<L>,
    transfer: ShardTransfer,
)
    requires
        start.wf(),
        once.wf(),
        finished(&start, &once, transfer),
        finished(&once, &twice, transfer),
    ensures
        !finish_changes(
            once.slot(transfer.shard_id),
            once.temporary(transfer.shard_id),
            once.transfers().contains(transfer),
            transfer,
            TaskResult::NotFound,
        ),
        same_slots(&once, &twice),
        twice.transfers() == once.transfers(),
{
    let id = transfer.shard_id;
    assert(!once.transfers().contains(transfer));
    assert(once.transfers().remove(transfer) =~= once.transfers());
    let slot0 = start.slot(id);
    let temp0 = start.temporary(id);
    let slot1 = once.slot(id);
    assert(temp0 matches Some(shard) ==> shard is Local) by {
        crate::id_map::lemma_position_of(start.temporary_shards.entries(), id);
        if temp0.is_some() {
            let at = crate::id_map::position_of(start.temporary_shards.entries(), id);
            assert(start.temporary_shards.entries()[at].1 is Local);
        }
    }
    if !transfer.sync {
        assert(slot1 == finished_slot(slot0, temp0, transfer));
        assert(once.temporary(id).is_none());
        assert(finished_slot(slot1, None, transfer) == slot1);
        assert(twice.slot(id) == slot1);
    } else {
        assert(!needs_activation(slot1, transfer.to));
        assert(twice.slot(id) == slot1);
    }
    assert forall|other: ShardId| twice.slot(other) == once.slot(other) by {
        if other != id {
        }
    }
    assert forall|other: ShardId| twice.temporary(other) == once.temporary(other) by {
        if other != id {
        }
    }
}

/// What the end of a transfer without `sync` leaves on each of the peers
/// that take part: the sender, which held the shard behind a forward proxy,
/// holds a remote shard on the receiver; the receiver, which held the
/// temporary shard, holds it as its shard; a third peer, which held a remote
/// shard, holds a remote shard on the receiver. Every peer changes its own
/// holder alone, so the order in which the peers end the transfer makes no
/// difference to what any of them holds.
pub proof fn lemma_finish_on_each_peer<L>(
    proxy: crate::shard::ForwardProxyShard<L>,
    incoming: L,
    elsewhere: crate::shard::RemoteShard,
    transfer: ShardTransfer,
)
    requires
        !transfer.sync,
        elsewhere.id == transfer.shard_id,
    ensures
        finished_slot(Some(Shard::ForwardProxy(proxy)), None, transfer) == Some(
            Shard::<L>::Remote(
                crate::shard::RemoteShard { id: transfer.shard_id, peer_id: transfer.to },
            ),
        ),
        finished_slot(None, Some(Shard::Local(incoming)), transfer) == Some(
            Shard::Local(incoming),
        ),
        finished_slot(Some(Shard::<L>::Remote(elsewhere)), None, transfer) == Some(
            Shard::<L>::Remote(
                crate::shard::RemoteShard { id: transfer.shard_id, peer_id: transfer.to },
            ),
        ),
{
}

/// The three steps that end a transfer without `sync` can be taken in any
/// order: the slot ends up the same.
pub proof fn lemma_finish_order<L>(
    slot: Option<Shard<L>>,
    temporary: Option<Shard<L>>,
    transfer: ShardTransfer,
)
    requires
        temporary matches Some(shard) ==> shard is Local,
    ensures
        ({
            let id = transfer.shard_id;
            let to = transfer.to;
            let result = finished_slot(slot, temporary, transfer);
            &&& result == rerouted(promoted_proxy(promoted_temporary(slot, temporary), id, to), to)
            &&& result == promoted_temporary(rerouted(promoted_proxy(slot, id, to), to), temporary)
            &&& result == promoted_temporary(promoted_proxy(rerouted(slot, to), id, to), temporary)
            &&& result == promoted_proxy(promoted_temporary(rerouted(slot, to), temporary), id, to)
            &&& result == promoted_proxy(rerouted(promoted_temporary(slot, temporary), to), id, to)
        }),
{
}

} // verus!
