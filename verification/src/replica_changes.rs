//! Changes of the replica sets of a collection that follow from a new
//! replication factor: replicas are added first, then removed. A replica set
//! that is left with one replica turns into a plain shard.

use vstd::prelude::*;
use crate::id_map::{lemma_position_of, IdMap};
use crate::replica_set::{is_state_not_saved, Change, ReplicaSet, ReplicaState};
use crate::shard::{RemoteShard, Shard};
use crate::shard_holder::{lemma_slot_replaced, slot_ok, ShardHolder, ShardTransfer};
use crate::types::{
    always_saves,
    always_saves_shards,
    is_service_error,
    numbered,
    text_with_number,
    CollectionError,
    PeerId,
    ShardId,
};

verus! {

/// What adding a replica did.
pub struct AddedReplica<L> {
    /// The transfer to ask for, when the replica was added on this peer:
    /// the peer that the change names sends the data.
    pub result: Result<Option<ShardTransfer>, CollectionError>,
    /// The local shard that was handed in and not used.
    pub unused_local: Option<L>,
}

/// True when `after` is `before` with a replica on `to` that is not active
/// yet: on this peer the local shard `local`, else a remote shard.
pub open spec fn with_replica<L>(
    before: ReplicaSet<L>,
    after: ReplicaSet<L>,
    to: PeerId,
    local: Option<L>,
) -> bool {
    &&& after.shard_id == before.shard_id
    &&& after.this_peer_id == before.this_peer_id
    &&& after.read_remote_replicas == before.read_remote_replicas
    &&& after.replica_state@ == before.replica_state@.insert(to, false)
    &&& after.replica_state.entries() == before.replica_state.entries().push((to, false))
    &&& if to == before.this_peer_id {
        local matches Some(l) && after.local == Some(Box::new(Shard::Local(l))) && after.remotes
            == before.remotes
    } else {
        after.local == before.local && after.remotes@ == before.remotes@.push(
            RemoteShard { id: before.shard_id, peer_id: to },
        )
    }
}

/// Adds a replica of shard `shard` on peer `to`, recorded as not active.
/// On this peer the replica is `local`, a local shard that the caller has
/// built; the result then names the transfer that brings it up to date from
/// peer `from`. On another peer the replica is a remote shard. The new state
/// of the replica set is saved before anything changes.
///
/// A slot that holds no replica set is left alone. Fails with a service
/// error, and changes nothing, when the replica set knows `to` already, when
/// the replica is to be on this peer and `local` is `None`, or when the
/// state could not be saved.
pub fn add_replica<L, P: Fn(&ReplicaState) -> bool>(
    holder: &mut ShardHolder<L>,
    shard: ShardId,
    to: PeerId,
    from: PeerId,
    local: Option<L>,
    persist: P,
) -> (added: AddedReplica<L>)
    requires
        old(holder).wf(),
        forall|m: &ReplicaState| call_requires(persist, (m,)),
    ensures
        always_saves(persist) ==> !is_state_not_saved(added.result),
        final(holder).wf(),
        final(holder).temporary_shards == old(holder).temporary_shards,
        final(holder).shard_transfers == old(holder).shard_transfers,
        final(holder).ring == old(holder).ring,
        forall|id: ShardId| id != shard ==> final(holder).slot(id) == old(holder).slot(id),
        forall|id: ShardId| final(holder).shards.has(id) == old(holder).shards.has(id),
        match old(holder).slot(shard) {
            Some(Shard::ReplicaSet(before)) => {
                if before.replica_state.has(to) || (to == before.this_peer_id && local.is_none()) {
                    &&& is_service_error(
                        added.result,
                        if before.replica_state.has(to) {
                            numbered("replica for peer "@, to as nat, " is already registered"@)
                        } else {
                            numbered(
                                "no local shard was built for the new replica of shard "@,
                                shard as nat,
                                ""@,
                            )
                        },
                    )
                    &&& !is_state_not_saved(added.result)
                    &&& final(holder).slot(shard) == old(holder).slot(shard)
                    &&& added.unused_local == local
                } else {
                    match added.result {
                        Ok(transfer) => {
                            &&& final(holder).slot(shard) matches Some(Shard::ReplicaSet(after))
                            &&& with_replica(before, after, to, local)
                            &&& transfer == (if to == before.this_peer_id {
                                Some(ShardTransfer { shard_id: shard, from, to, sync: true })
                            } else {
                                None
                            })
                            &&& added.unused_local == (if to == before.this_peer_id {
                                None
                            } else {
                                local
                            })
                        },
                        Err(_) => {
                            &&& is_state_not_saved(added.result)
                            &&& final(holder).slot(shard) == old(holder).slot(shard)
                            &&& added.unused_local == local
                        },
                    }
                }
            },
            _ => added.result == Ok::<Option<ShardTransfer>, CollectionError>(None) && final(holder).slot(shard) == old(holder).slot(shard) && added.unused_local == local,
        },
{
    let found = holder.shards.find(shard);
    let at = match found {
        None => {
            return AddedReplica { result: Ok(None), unused_local: local };
        },
        Some(at) => at,
    };
    let ghost before_entries = holder.shards.entries();
    proof {
        lemma_position_of(before_entries, shard);
        assert(slot_ok(before_entries[at as int].0, before_entries[at as int].1));
    }
    let slot = holder.shards.value_at_mut(at);
    let added = match slot {
        Shard::ReplicaSet(set) => {
            let ghost before = *set;
            if to == set.this_peer_id && local.is_none() && !set.replica_state.contains(to) {
                proof {
                    reveal_strlit("Failed to save the replica state");
                    reveal_strlit("no local shard was built for the new replica of shard ");
                }
                let error = text_with_number(
                    "no local shard was built for the new replica of shard ",
                    shard as u64,
                    "",
                );
                assert(error@[0] == 'n');
                assert(crate::replica_set::state_not_saved()[0] == 'F');
                AddedReplica {
                    result: Err(CollectionError::service_error(error)),
                    unused_local: local,
                }
            } else {
                match set.add_inactive_replica_state(&to, persist) {
                    Err(e) => AddedReplica { result: Err(e), unused_local: local },
                    Ok(()) => {
                        proof {
                            assert forall|p: PeerId| p != to implies (set.replica_state.has(p)
                                <==> set.has_replica(p)) by {
                                assert(set.replica_state@.dom().contains(p)
                                    == set.replica_state.has(p));
                                assert(before.replica_state@.dom().contains(p)
                                    == before.replica_state.has(p));
                                assert(before.replica_state.has(p) <==> before.has_replica(p));
                            }
                            assert(before.replica_state.has(to) <==> before.has_replica(to));
                        }
                        if to == set.this_peer_id {
                            match local {
                                Some(l) => {
                                    set.attach_local(l);
                                    AddedReplica {
                                        result: Ok(
                                            Some(
                                                ShardTransfer {
                                                    shard_id: shard,
                                                    from,
                                                    to,
                                                    sync: true,
                                                },
                                            ),
                                        ),
                                        unused_local: None,
                                    }
                                },
                                None => AddedReplica { result: Ok(None), unused_local: None },
                            }
                        } else {
                            set.attach_remote(to);
                            AddedReplica { result: Ok(None), unused_local: local }
                        }
                    },
                }
            }
        },
        _ => AddedReplica { result: Ok(None), unused_local: local },
    };
    proof {
        lemma_slot_replaced(*old(holder), *holder, at as int);
    }
    added
}

/// True when `after` is `before` without the replica on `peer`.
pub open spec fn without_replica<L>(before: ReplicaSet<L>, after: ReplicaSet<L>, peer: PeerId) -> bool {
    &&& after.wf()
    &&& after.consistent()
    &&& after.shard_id == before.shard_id
    &&& after.this_peer_id == before.this_peer_id
    &&& after.read_remote_replicas == before.read_remote_replicas
    &&& after.replica_state@ == before.replica_state@.remove(peer)
    &&& !after.has_replica(peer)
    &&& forall|q: PeerId| q != peer ==> after.has_replica(q) == before.has_replica(q)
    &&& if peer == before.this_peer_id {
        after.local.is_none() && after.remotes == before.remotes
    } else {
        after.local == before.local && exists|i: int|
            0 <= i < before.remotes@.len() && (#[trigger] before.remotes@[i]).peer_id == peer
                && after.remotes@ == before.remotes@.remove(i)
    }
}

/// What a replica set turns into: with one replica left, that replica as a
/// plain shard; else itself.
pub open spec fn dissolved<L>(set: ReplicaSet<L>) -> Shard<L> {
    match set.local {
        Some(local) => if set.remotes@.len() == 0 {
            *local
        } else {
            Shard::ReplicaSet(set)
        },
        None => if set.remotes@.len() == 1 {
            Shard::Remote(set.remotes@[0])
        } else {
            Shard::ReplicaSet(set)
        },
    }
}

/// Removes the replica of shard `shard` on `peer`. The new state of the
/// replica set is saved before anything changes. A replica set that is left
/// with one replica turns into that replica as a plain shard. A replica
/// that was removed from this peer is handed back, for the caller to release
/// what it holds.
///
/// A slot that holds no replica set is left alone. Fails with a service
/// error, and changes nothing, when `peer` holds no replica of the set or
/// the state could not be saved.
pub fn remove_replica_from<L, P: Fn(&ReplicaState) -> bool>(
    holder: &mut ShardHolder<L>,
    shard: ShardId,
    peer: PeerId,
    persist: P,
) -> (r: Result<Option<Shard<L>>, CollectionError>)
    requires
        old(holder).wf(),
        forall|m: &ReplicaState| call_requires(persist, (m,)),
    ensures
        always_saves(persist) ==> !is_state_not_saved(r),
        final(holder).wf(),
        final(holder).temporary_shards == old(holder).temporary_shards,
        final(holder).shard_transfers == old(holder).shard_transfers,
        final(holder).ring == old(holder).ring,
        forall|id: ShardId| id != shard ==> final(holder).slot(id) == old(holder).slot(id),
        forall|id: ShardId| final(holder).shards.has(id) == old(holder).shards.has(id),
        match old(holder).slot(shard) {
            Some(Shard::ReplicaSet(before)) => {
                if !before.has_replica(peer) {
                    &&& is_service_error(r, no_replica(before.shard_id, before.this_peer_id, peer))
                    &&& !is_state_not_saved(r)
                    &&& final(holder).slot(shard) == old(holder).slot(shard)
                } else {
                    match r {
                        Ok(released) => {
                            &&& exists|after: ReplicaSet<L>| #[trigger]
                                without_replica(before, after, peer) && final(holder).slot(shard)
                                    == Some(dissolved(after))
                            &&& released == (if peer == before.this_peer_id {
                                Some(*before.local->Some_0)
                            } else {
                                None
                            })
                        },
                        Err(_) => is_state_not_saved(r) && final(holder).slot(shard) == old(
                            holder).slot(shard),
                    }
                }
            },
            _ => r == Ok::<Option<Shard<L>>, CollectionError>(None) && final(holder).slot(shard)
                == old(holder).slot(shard),
        },
{
    let found = holder.shards.find(shard);
    let at = match found {
        None => {
            return Ok(None);
        },
        Some(at) => at,
    };
    let ghost before_entries = holder.shards.entries();
    proof {
        lemma_position_of(before_entries, shard);
        assert(slot_ok(before_entries[at as int].0, before_entries[at as int].1));
    }
    let slot = holder.shards.value_at_mut(at);
    let ghost mut witness: Option<ReplicaSet<L>> = None;
    let (r, dissolve) = match slot {
        Shard::ReplicaSet(set) => {
            let ghost before = *set;
            match set.remove_replica(&peer, persist) {
                Err(e) => (Err(e), false),
                Ok(released) => {
                    proof {
                        witness = Some(*set);
                    }
                    let single = if set.local.is_some() {
                        set.remotes.len() == 0
                    } else {
                        set.remotes.len() == 1
                    };
                    (Ok(released), single)
                },
            }
        },
        _ => (Ok(None), false),
    };
    if dissolve {
        let mut taken = Shard::Remote(RemoteShard { id: shard, peer_id: 0 });
        core::mem::swap(slot, &mut taken);
        match taken {
            Shard::ReplicaSet(set) => {
                let ReplicaSet { local, remotes, .. } = set;
                match local {
                    Some(shard) => {
                        *slot = *shard;
                    },
                    None => {
                        *slot = Shard::Remote(remotes[0]);
                    },
                }
            },
            other => {
                *slot = other;
            },
        }
    }
    proof {
        lemma_slot_replaced(*old(holder), *holder, at as int);
        if witness.is_some() {
            let before = old(holder).slot(shard)->Some_0->ReplicaSet_0;
            assert(without_replica(before, witness->Some_0, peer));
            assert(holder.slot(shard) == Some(dissolved(witness->Some_0)));
        }
    }
    r
}

/// What a batch of changes of replica sets did.
pub struct ReplicaChanges<L> {
    /// `Ok` when every change was made; the error of the first change that
    /// failed otherwise. The changes before it were made.
    pub result: Result<(), CollectionError>,
    /// How many changes were made, counted in the order in which they are
    /// taken: additions first.
    pub made: usize,
    /// The transfers to ask for, one for each replica that was added on
    /// this peer.
    pub transfers: Vec<ShardTransfer>,
    /// The shards that left the holder, for the caller to release what they
    /// hold.
    pub released: Vec<Shard<L>>,
    /// The local shards that were handed in and not used.
    pub unused_locals: IdMap<ShardId, L>,
}

/// True when one of `changes` names `shard`.
pub open spec fn names(changes: Seq<Change>, shard: ShardId) -> bool {
    exists|i: int| 0 <= i < changes.len() && change_shard(#[trigger] changes[i]) == shard
}

/// The shard that a change is about.
pub open spec fn change_shard(change: Change) -> ShardId {
    match change {
        Change::Add { shard, .. } => shard,
        Change::Remove(shard, _) => shard,
    }
}

/// True when `transfer` is the transfer that one of the additions of
/// `changes` asks for.
pub open spec fn asked_by(changes: Seq<Change>, transfer: ShardTransfer) -> bool {
    transfer.sync && exists|i: int|
        0 <= i < changes.len() && #[trigger] changes[i] == (Change::Add {
            shard: transfer.shard_id,
            to: transfer.to,
            from: transfer.from,
        })
}

/// True when `change` adds a replica on a peer that the replica set in the
/// slot takes for this peer and does not know yet.
pub open spec fn needs_local<L>(holder: &ShardHolder<L>, change: Change) -> bool {
    match change {
        Change::Add { shard, to, .. } => match holder.slot(shard) {
            Some(Shard::ReplicaSet(set)) => set.this_peer_id == to && !set.replica_state.has(to),
            _ => false,
        },
        Change::Remove(_, _) => false,
    }
}

/// The shards for which `changes` add a replica on this peer, one for each
/// such change, in order: a local shard has to be built for each before the
/// changes are made.
pub fn local_replicas_to_build<L>(holder: &ShardHolder<L>, changes: &Vec<Change>) -> (shards: Vec<
    ShardId,
>)
    ensures
        shards@ == changes@.filter(|c: Change| needs_local(holder, c)).map_values(
            |c: Change| change_shard(c),
        ),
{
    let mut shards: Vec<ShardId> = Vec::new();
    let ghost pred = |c: Change| needs_local(holder, c);
    let mut i: usize = 0;
    while i < changes.len()
        invariant
            i <= changes.len(),
            pred == (|c: Change| needs_local(holder, c)),
            shards@ == changes@.take(i as int).filter(pred).map_values(
                |c: Change| change_shard(c),
            ),
        decreases changes.len() - i,
    {
        let change = changes[i];
        proof {
            assert(changes@.take(i + 1) == changes@.take(i as int).push(change));
            changes@.take(i as int).lemma_filter_push(change, pred);
        }
        let ghost before = changes@.take(i as int).filter(pred);
        let needed = match change {
            Change::Add { shard, to, .. } => match holder.get_shard(&shard) {
                Some(Shard::ReplicaSet(set)) => set.this_peer_id == to && !set.replica_state.contains(
                    to,
                ),
                _ => false,
            },
            Change::Remove(_, _) => false,
        };
        if needed {
            match change {
                Change::Add { shard, .. } => {
                    shards.push(shard);
                    proof {
                        assert(before.push(change).map_values(|c: Change| change_shard(c))
                            =~= before.map_values(|c: Change| change_shard(c)).push(shard));
                    }
                },
                Change::Remove(_, _) => {},
            }
        }
        i += 1;
    }
    assert(changes@.take(i as int) == changes@);
    shards
}

/// The additions among `changes`, in order.
pub open spec fn additions(changes: Seq<Change>) -> Seq<Change> {
    changes.filter(|c: Change| c is Add)
}

/// The removals among `changes`, in order.
pub open spec fn removals(changes: Seq<Change>) -> Seq<Change> {
    changes.filter(|c: Change| c is Remove)
}

/// The order in which the changes of a batch are taken: every addition,
/// then every removal.
pub open spec fn additions_first(changes: Seq<Change>) -> Seq<Change> {
    additions(changes) + removals(changes)
}

/// Every change of the batch in the order in which it is taken is one of
/// the batch, and the additions come before the removals.
pub proof fn lemma_additions_first(changes: Seq<Change>, k: int)
    requires
        0 <= k < additions_first(changes).len(),
    ensures
        changes.contains(additions_first(changes)[k]),
        additions_first(changes)[k] is Add <==> k < additions(changes).len(),
{
    let adds = |c: Change| c is Add;
    let rems = |c: Change| c is Remove;
    if k < additions(changes).len() {
        changes.lemma_filter_pred(adds, k);
        assert(changes.filter(adds).contains(changes.filter(adds)[k]));
        changes.lemma_filter_contains_rev(adds, changes.filter(adds)[k]);
    } else {
        let at = k - additions(changes).len();
        changes.lemma_filter_pred(rems, at);
        assert(changes.filter(rems).contains(changes.filter(rems)[at]));
        changes.lemma_filter_contains_rev(rems, changes.filter(rems)[at]);
    }
}

/// The changes in the order in which they are taken.
pub fn in_order(changes: &Vec<Change>) -> (order: Vec<Change>)
    ensures
        order@ == additions_first(changes@),
{
    let mut order: Vec<Change> = Vec::new();
    let ghost adds = |c: Change| c is Add;
    let ghost rems = |c: Change| c is Remove;
    let mut i: usize = 0;
    while i < changes.len()
        invariant
            i <= changes.len(),
            adds == (|c: Change| c is Add),
            order@ == changes@.take(i as int).filter(adds),
        decreases changes.len() - i,
    {
        let change = changes[i];
        proof {
            assert(changes@.take(i + 1) == changes@.take(i as int).push(change));
            changes@.take(i as int).lemma_filter_push(change, adds);
        }
        match change {
            Change::Add { .. } => {
                order.push(change);
            },
            Change::Remove(_, _) => {},
        }
        i += 1;
    }
    assert(changes@.take(i as int) == changes@);
    let mut n: usize = 0;
    while n < changes.len()
        invariant
            n <= changes.len(),
            rems == (|c: Change| c is Remove),
            order@ == additions(changes@) + changes@.take(n as int).filter(rems),
        decreases changes.len() - n,
    {
        let change = changes[n];
        proof {
            assert(changes@.take(n + 1) == changes@.take(n as int).push(change));
            changes@.take(n as int).lemma_filter_push(change, rems);
        }
        match change {
            Change::Remove(_, _) => {
                order.push(change);
                assert(order@ == additions(changes@) + changes@.take(n as int).filter(rems).push(
                    change,
                ));
            },
            Change::Add { .. } => {},
        }
        n += 1;
    }
    assert(changes@.take(n as int) == changes@);
    order
}

/// The local shard that was built for `shard`, if there is one.
pub open spec fn built<L>(locals: Map<ShardId, L>, shard: ShardId) -> Option<L> {
    if locals.dom().contains(shard) {
        Some(locals[shard])
    } else {
        None
    }
}

/// True when `change` cannot be made on `holder`: the replica set knows the
/// peer of an addition already, an addition on this peer finds no local
/// shard among `locals`, or the peer of a removal holds no replica.
#[verifier::opaque]
pub open spec fn refused<L>(holder: &ShardHolder<L>, change: Change, locals: Map<ShardId, L>) -> bool {
    match holder.slot(change_shard(change)) {
        Some(Shard::ReplicaSet(set)) => match change {
            Change::Add { shard, to, .. } => set.replica_state.has(to) || (to == set.this_peer_id
                && !locals.dom().contains(shard)),
            Change::Remove(_, peer) => !set.has_replica(peer),
        },
        _ => false,
    }
}

/// What is wrong with holding no replica on `peer`, as the replica set of
/// `shard` on the peer `this_peer` says it.
pub open spec fn no_replica(shard: ShardId, this_peer: PeerId, peer: PeerId) -> Seq<char> {
    if peer == this_peer {
        numbered("replica set "@, shard as nat, " should contain a local shard"@)
    } else {
        numbered(
            numbered("replica set "@, shard as nat, " should contain a remote shard for peer "@),
            peer as nat,
            ""@,
        )
    }
}

/// Why `change` is refused on `holder`, as the text of the error.
#[verifier::opaque]
pub open spec fn refusal<L>(holder: &ShardHolder<L>, change: Change) -> Seq<char> {
    match holder.slot(change_shard(change)) {
        Some(Shard::ReplicaSet(set)) => match change {
            Change::Add { shard, to, .. } => if set.replica_state.has(to) {
                numbered("replica for peer "@, to as nat, " is already registered"@)
            } else {
                numbered(
                    "no local shard was built for the new replica of shard "@,
                    shard as nat,
                    ""@,
                )
            },
            Change::Remove(_, peer) => no_replica(set.shard_id, set.this_peer_id, peer),
        },
        _ => Seq::empty(),
    }
}

/// True when `after` is `before` with `change` made: an addition adds a
/// replica that is not active yet, a removal takes the replica away and
/// turns a set with one replica left into a plain shard. A slot that holds no
/// replica set stays as it is.
#[verifier::opaque]
pub open spec fn made<L>(
    before: &ShardHolder<L>,
    after: &ShardHolder<L>,
    change: Change,
    locals: Map<ShardId, L>,
) -> bool {
    let shard = change_shard(change);
    &&& !refused(before, change, locals)
    &&& after.temporary_shards == before.temporary_shards
    &&& after.shard_transfers == before.shard_transfers
    &&& after.ring == before.ring
    &&& forall|id: ShardId| id != shard ==> after.slot(id) == before.slot(id)
    &&& match before.slot(shard) {
        Some(Shard::ReplicaSet(set)) => match change {
            Change::Add { to, .. } => after.slot(shard) matches Some(Shard::ReplicaSet(next))
                && with_replica(set, next, to, built(locals, shard)),
            Change::Remove(_, peer) => exists|next: ReplicaSet<L>| #[trigger]
                without_replica(set, next, peer) && after.slot(shard) == Some(dissolved(next)),
        },
        _ => after.slot(shard) == before.slot(shard),
    }
}

/// True when `after` holds what `before` holds, slot by slot.
pub open spec fn alike<L>(before: &ShardHolder<L>, after: &ShardHolder<L>) -> bool {
    &&& after.temporary_shards == before.temporary_shards
    &&& after.shard_transfers == before.shard_transfers
    &&& after.ring == before.ring
    &&& forall|id: ShardId| after.slot(id) == before.slot(id)
}

/// The transfer that `change` asks for when it is made on `before`: an
/// addition on this peer asks for the data of the shard.
pub open spec fn asked<L>(before: &ShardHolder<L>, change: Change) -> Option<ShardTransfer> {
    match change {
        Change::Add { shard, to, from } => match before.slot(shard) {
            Some(Shard::ReplicaSet(set)) => if to == set.this_peer_id {
                Some(ShardTransfer { shard_id: shard, from, to, sync: true })
            } else {
                None
            },
            _ => None,
        },
        Change::Remove(_, _) => None,
    }
}

/// The shard that leaves the holder when `change` is made on `before`: the
/// replica that a removal takes from this peer.
pub open spec fn let_go<L>(before: &ShardHolder<L>, change: Change) -> Option<Shard<L>> {
    match change {
        Change::Remove(shard, peer) => match before.slot(shard) {
            Some(Shard::ReplicaSet(set)) => if peer == set.this_peer_id {
                Some(*set.local->Some_0)
            } else {
                None
            },
            _ => None,
        },
        Change::Add { .. } => None,
    }
}

/// The transfers that `changes` ask for, where `steps[k]` is the holder on
/// which `changes[k]` is made.
pub open spec fn transfers_asked<L>(steps: Seq<ShardHolder<L>>, changes: Seq<Change>) -> Seq<
    ShardTransfer,
>
    decreases changes.len(),
{
    if changes.len() == 0 {
        Seq::empty()
    } else {
        let n = changes.len() - 1;
        let earlier = transfers_asked(steps, changes.take(n));
        match asked(&steps[n], changes[n]) {
            Some(transfer) => earlier.push(transfer),
            None => earlier,
        }
    }
}

/// The shards that leave the holder by `changes`, where `steps[k]` is the
/// holder on which `changes[k]` is made.
pub open spec fn shards_let_go<L>(steps: Seq<ShardHolder<L>>, changes: Seq<Change>) -> Seq<
    Shard<L>,
>
    decreases changes.len(),
{
    if changes.len() == 0 {
        Seq::empty()
    } else {
        let n = changes.len() - 1;
        let earlier = shards_let_go(steps, changes.take(n));
        match let_go(&steps[n], changes[n]) {
            Some(shard) => earlier.push(shard),
            None => earlier,
        }
    }
}

/// What `changes` ask for and let go depends on the holders on which they
/// are made alone, not on what follows them.
pub proof fn lemma_steps_extended<L>(
    steps: Seq<ShardHolder<L>>,
    longer: Seq<ShardHolder<L>>,
    changes: Seq<Change>,
)
    requires
        changes.len() <= steps.len() <= longer.len(),
        forall|k: int| 0 <= k < changes.len() ==> longer[k] == steps[k],
    ensures
        transfers_asked(longer, changes) == transfers_asked(steps, changes),
        shards_let_go(longer, changes) == shards_let_go(steps, changes),
    decreases changes.len(),
{
    if changes.len() > 0 {
        let n = changes.len() - 1;
        lemma_steps_extended(steps, longer, changes.take(n));
    }
}

/// True when each of `changes` in turn is made on the holder before it and
/// gives the holder after it.
pub open spec fn made_in_turn<L>(
    steps: Seq<ShardHolder<L>>,
    changes: Seq<Change>,
    locals: Map<ShardId, L>,
) -> bool {
    &&& steps.len() == changes.len() + 1
    &&& forall|k: int|
        0 <= k < changes.len() ==> made(&steps[k], &steps[k + 1], #[trigger] changes[k], locals)
}

/// True when one of `transfers` is about `shard`.
pub open spec fn sent_for(transfers: Seq<ShardTransfer>, shard: ShardId) -> bool {
    exists|k: int| 0 <= k < transfers.len() && (#[trigger] transfers[k]).shard_id == shard
}

/// True when `at_hand` holds the local shards of `given` that none of
/// `transfers` is about.
pub open spec fn kept<L>(
    at_hand: Map<ShardId, L>,
    given: Map<ShardId, L>,
    transfers: Seq<ShardTransfer>,
) -> bool {
    &&& forall|id: ShardId|
        at_hand.dom().contains(id) <==> given.dom().contains(id) && !sent_for(transfers, id)
    &&& forall|id: ShardId| at_hand.dom().contains(id) ==> at_hand[id] == given[id]
}

/// True when `done` is what the batch `changes` does to `before`, with the
/// local shards `locals` at hand, and `after` is what it leaves.
///
/// The changes are taken additions first. The first `done.made` of them were
/// made, one after the other. Unless that is all of them, the next one
/// failed and left the holder as it was: it was refused, or the state of its
/// replica set could not be saved. The transfers asked for, the shards let
/// go and the local shards that were not used are those of the changes that
/// were made.
pub open spec fn changes_made<L>(
    before: &ShardHolder<L>,
    after: &ShardHolder<L>,
    changes: Seq<Change>,
    locals: Map<ShardId, L>,
    done: &ReplicaChanges<L>,
) -> bool {
    let order = additions_first(changes);
    let taken = order.take(done.made as int);
    &&& done.made <= order.len()
    &&& (done.result is Ok) == (done.made == order.len())
    &&& exists|steps: Seq<ShardHolder<L>>|
        {
            &&& #[trigger] made_in_turn(steps, taken, locals)
            &&& steps[0] == *before
            &&& alike(&steps[done.made as int], after)
            &&& done.transfers@ == transfers_asked(steps, taken)
            &&& done.released@ == shards_let_go(steps, taken)
        }
    &&& done.made < order.len() ==> if refused(after, order[done.made as int], locals) {
        &&& is_service_error(done.result, refusal(after, order[done.made as int]))
        &&& !is_state_not_saved(done.result)
    } else {
        is_state_not_saved(done.result)
    }
    &&& kept(done.unused_locals@, locals, done.transfers@)
}

/// True when the replica set in slot `shard` knows this peer.
pub open spec fn knows_itself<L>(holder: &ShardHolder<L>, shard: ShardId) -> bool {
    holder.slot(shard) matches Some(Shard::ReplicaSet(set)) && set.replica_state.has(
        set.this_peer_id,
    )
}

/// One more transfer is about its own shard, and about no other.
proof fn lemma_sent_for_push(transfers: Seq<ShardTransfer>, transfer: ShardTransfer, shard: ShardId)
    ensures
        sent_for(transfers.push(transfer), shard) == (sent_for(transfers, shard)
            || transfer.shard_id == shard),
{
    let longer = transfers.push(transfer);
    if sent_for(transfers, shard) {
        let k = choose|k: int| 0 <= k < transfers.len() && (#[trigger] transfers[k]).shard_id == shard;
        assert(longer[k].shard_id == shard);
    }
    if transfer.shard_id == shard {
        assert(longer[transfers.len() as int].shard_id == shard);
    }
    if sent_for(longer, shard) {
        let k = choose|k: int| 0 <= k < longer.len() && (#[trigger] longer[k]).shard_id == shard;
        if k < transfers.len() {
            assert(transfers[k].shard_id == shard);
        }
    }
}

/// True when every replica set that one of `transfers` is about knows this
/// peer.
pub open spec fn all_known<L>(holder: &ShardHolder<L>, transfers: Seq<ShardTransfer>) -> bool {
    forall|k: int|
        0 <= k < transfers.len() ==> knows_itself(holder, (#[trigger] transfers[k]).shard_id)
}

/// A local shard that an addition needs is still at hand: a replica set
/// that has taken its local shard knows this peer, and refuses to add it
/// once more.
proof fn lemma_local_at_hand<L>(
    before: &ShardHolder<L>,
    after: &ShardHolder<L>,
    change: Change,
    at_hand: Map<ShardId, L>,
    given: Map<ShardId, L>,
    transfers: Seq<ShardTransfer>,
)
    requires
        kept(at_hand, given, transfers),
        change is Remove || all_known(before, transfers),
    ensures
        refused(before, change, at_hand) == refused(before, change, given),
        made(before, after, change, at_hand) == made(before, after, change, given),
{
    reveal(refused);
    reveal(made);
    let shard = change_shard(change);
    if sent_for(transfers, shard) && change is Add {
        let k = choose|k: int| 0 <= k < transfers.len() && (#[trigger] transfers[k]).shard_id == shard;
        assert(knows_itself(before, transfers[k].shard_id));
    }
}

/// An addition that was made keeps the replica sets that know this peer, and
/// the replica set of the transfer that it asks for knows this peer.
proof fn lemma_known_after<L>(
    before: &ShardHolder<L>,
    after: &ShardHolder<L>,
    change: Change,
    given: Map<ShardId, L>,
    transfers: Seq<ShardTransfer>,
)
    requires
        change is Add,
        made(before, after, change, given),
        all_known(before, transfers),
    ensures
        all_known(after, transfers),
        asked(before, change) matches Some(transfer) ==> knows_itself(after, transfer.shard_id),
{
    reveal(made);
    let shard = change_shard(change);
    let to = change->Add_to;
    match before.slot(shard) {
        Some(Shard::ReplicaSet(set)) => {
            let next = after.slot(shard)->Some_0->ReplicaSet_0;
            assert(with_replica(set, next, to, built(given, shard)));
            assert(next.replica_state@.dom().contains(to));
            assert(next.replica_state.has(to));
            assert(set.replica_state.has(set.this_peer_id) ==> next.replica_state.has(
                next.this_peer_id,
            )) by {
                if set.replica_state.has(set.this_peer_id) {
                    assert(set.replica_state@.dom().contains(set.this_peer_id));
                    assert(next.replica_state@.dom().contains(set.this_peer_id));
                }
            }
        },
        _ => {},
    }
    assert forall|k: int| 0 <= k < transfers.len() implies knows_itself(
        after,
        (#[trigger] transfers[k]).shard_id,
    ) by {
        assert(knows_itself(before, transfers[k].shard_id));
    }
}

/// A change that was made leaves the rest of the holder alone.
proof fn lemma_made_frame<L>(
    before: &ShardHolder<L>,
    after: &ShardHolder<L>,
    change: Change,
    given: Map<ShardId, L>,
)
    requires
        made(before, after, change, given),
    ensures
        after.temporary_shards == before.temporary_shards,
        after.shard_transfers == before.shard_transfers,
        after.ring == before.ring,
        forall|id: ShardId| id != change_shard(change) ==> after.slot(id) == before.slot(id),
{
    reveal(made);
}

/// Holders that are alike refuse the same changes.
proof fn lemma_refused_alike<L>(
    before: &ShardHolder<L>,
    after: &ShardHolder<L>,
    change: Change,
    given: Map<ShardId, L>,
)
    requires
        alike(before, after),
    ensures
        refused(after, change, given) == refused(before, change, given),
        refusal(after, change) == refusal(before, change),
{
    reveal(refused);
    reveal(refusal);
}

/// The transfer that a change of the batch asks for is asked by the batch.
proof fn lemma_asked_by<L>(before: &ShardHolder<L>, changes: Seq<Change>, change: Change)
    requires
        changes.contains(change),
    ensures
        names(changes, change_shard(change)),
        asked(before, change) matches Some(transfer) ==> asked_by(changes, transfer)
            && transfer.shard_id == change_shard(change),
{
    let at = choose|at: int| 0 <= at < changes.len() && changes[at] == change;
    assert(change_shard(changes[at]) == change_shard(change));
    match asked(before, change) {
        Some(transfer) => {
            assert(changes[at] == (Change::Add {
                shard: transfer.shard_id,
                to: transfer.to,
                from: transfer.from,
            }));
        },
        None => {},
    }
}

/// A local shard that was used is no longer at hand.
proof fn lemma_kept_less<L>(
    at_hand: Map<ShardId, L>,
    given: Map<ShardId, L>,
    transfers: Seq<ShardTransfer>,
    transfer: ShardTransfer,
)
    requires
        kept(at_hand, given, transfers),
    ensures
        kept(at_hand.remove(transfer.shard_id), given, transfers.push(transfer)),
{
    assert forall|id: ShardId|
        at_hand.remove(transfer.shard_id).dom().contains(id) <==> given.dom().contains(id)
            && !sent_for(transfers.push(transfer), id) by {
        lemma_sent_for_push(transfers, transfer, id);
    }
}

/// One more change that was made extends what was made in turn.
proof fn lemma_made_next<L>(
    steps: Seq<ShardHolder<L>>,
    taken: Seq<Change>,
    change: Change,
    after: ShardHolder<L>,
    given: Map<ShardId, L>,
)
    requires
        made_in_turn(steps, taken, given),
        made(&steps[taken.len() as int], &after, change, given),
    ensures
        made_in_turn(steps.push(after), taken.push(change), given),
        transfers_asked(steps.push(after), taken.push(change)) == (match asked(
            &steps[taken.len() as int],
            change,
        ) {
            Some(transfer) => transfers_asked(steps, taken).push(transfer),
            None => transfers_asked(steps, taken),
        }),
        shards_let_go(steps.push(after), taken.push(change)) == (match let_go(
            &steps[taken.len() as int],
            change,
        ) {
            Some(shard) => shards_let_go(steps, taken).push(shard),
            None => shards_let_go(steps, taken),
        }),
{
    let longer = steps.push(after);
    let more = taken.push(change);
    lemma_steps_extended(steps, longer, taken);
    assert(more.take(more.len() - 1) == taken);
    assert forall|k: int| 0 <= k < more.len() implies made(
        &longer[k],
        &longer[k + 1],
        #[trigger] more[k],
        given,
    ) by {
        if k < taken.len() {
            assert(made(&steps[k], &steps[k + 1], taken[k], given));
        }
    }
}

/// What one change did.
pub struct ChangeMade<L> {
    /// The transfer to ask for.
    pub transfer: Option<ShardTransfer>,
    /// The shard that left the holder.
    pub released: Option<Shard<L>>,
}

/// Makes one change of a replica set of `holder`. An addition on this peer
/// takes its local shard out of `locals`. The new state of the replica set
/// is handed to `persist` with the shard that it belongs to.
///
/// Fails with a service error, and changes nothing, when the change is
/// refused or the state of the replica set could not be saved.
pub fn apply_change<L, P: Fn(ShardId, &ReplicaState) -> bool>(
    holder: &mut ShardHolder<L>,
    change: Change,
    locals: &mut IdMap<ShardId, L>,
    persist: &P,
) -> (r: Result<ChangeMade<L>, CollectionError>)
    requires
        old(holder).wf(),
        old(locals).wf(),
        forall|shard: ShardId, m: &ReplicaState| call_requires(*persist, (shard, m)),
    ensures
        always_saves_shards(*persist) ==> !is_state_not_saved(r),
        final(holder).wf(),
        final(locals).wf(),
        forall|id: ShardId| final(holder).shards.has(id) == old(holder).shards.has(id),
        match r {
            Ok(done) => {
                &&& made(old(holder), final(holder), change, old(locals)@)
                &&& done.transfer == asked(old(holder), change)
                &&& done.released == let_go(old(holder), change)
                &&& final(locals)@ == (if done.transfer is Some {
                    old(locals)@.remove(change_shard(change))
                } else {
                    old(locals)@
                })
            },
            Err(_) => {
                &&& alike(old(holder), final(holder))
                &&& final(locals)@ == old(locals)@
                &&& if refused(old(holder), change, old(locals)@) {
                    &&& is_service_error(r, refusal(old(holder), change))
                    &&& !is_state_not_saved(r)
                } else {
                    is_state_not_saved(r)
                }
            },
        },
{
    let ghost at_hand = locals@;
    proof {
        reveal(made);
        reveal(refused);
        reveal(refusal);
    }
    match change {
        Change::Add { shard, to, from } => {
            let local = locals.remove(shard);
            let save = |m: &ReplicaState| -> (b: bool)
                requires
                    call_requires(persist, (shard, m)),
                ensures
                    call_ensures(persist, (shard, m), b),
                { persist(shard, m) };
            let added = add_replica(holder, shard, to, from, local, save);
            match added.unused_local {
                Some(l) => {
                    locals.insert(shard, l);
                },
                None => {},
            }
            proof {
                assert(at_hand.dom().contains(shard) ==> local == Some(at_hand[shard]));
                assert(!at_hand.dom().contains(shard) ==> local.is_none());
                if added.unused_local == local {
                    assert(locals@ =~= at_hand);
                } else {
                    assert(locals@ =~= at_hand.remove(shard));
                }
            }
            match added.result {
                Err(e) => Err(e),
                Ok(transfer) => Ok(ChangeMade { transfer, released: None }),
            }
        },
        Change::Remove(shard, peer) => {
            let save = |m: &ReplicaState| -> (b: bool)
                requires
                    call_requires(persist, (shard, m)),
                ensures
                    call_ensures(persist, (shard, m), b),
                { persist(shard, m) };
            match remove_replica_from(holder, shard, peer, save) {
                Err(e) => Err(e),
                Ok(released) => Ok(ChangeMade { transfer: None, released }),
            }
        },
    }
}

/// Puts together what a batch did.
proof fn lemma_changes_made<L>(
    before: &ShardHolder<L>,
    after: &ShardHolder<L>,
    changes: Seq<Change>,
    locals: Map<ShardId, L>,
    done: &ReplicaChanges<L>,
    steps: Seq<ShardHolder<L>>,
)
    requires
        done.made <= additions_first(changes).len(),
        (done.result is Ok) == (done.made == additions_first(changes).len()),
        made_in_turn(steps, additions_first(changes).take(done.made as int), locals),
        steps[0] == *before,
        alike(&steps[done.made as int], after),
        done.transfers@ == transfers_asked(
            steps,
            additions_first(changes).take(done.made as int),
        ),
        done.released@ == shards_let_go(steps, additions_first(changes).take(done.made as int)),
        done.made < additions_first(changes).len() ==> if refused(
            &steps[done.made as int],
            additions_first(changes)[done.made as int],
            locals,
        ) {
            &&& is_service_error(
                done.result,
                refusal(&steps[done.made as int], additions_first(changes)[done.made as int]),
            )
            &&& !is_state_not_saved(done.result)
        } else {
            is_state_not_saved(done.result)
        },
        kept(done.unused_locals@, locals, done.transfers@),
    ensures
        changes_made(before, after, changes, locals, done),
{
    if done.made < additions_first(changes).len() {
        lemma_refused_alike(
            &steps[done.made as int],
            after,
            additions_first(changes)[done.made as int],
            locals,
        );
    }
}

/// Makes the changes `changes` of the replica sets of `holder`: first every
/// addition, in order, then every removal, in order. `locals` holds the local
/// shards that the caller has built for the replicas that are added on this
/// peer, by shard. The new state of a replica set is handed to `persist`
/// with the shard that it belongs to.
///
/// The first change that fails ends the batch; the changes before it stay
/// made. See [`changes_made`].
pub fn apply_replica_changes<L, P: Fn(ShardId, &ReplicaState) -> bool>(
    holder: &mut ShardHolder<L>,
    changes: &Vec<Change>,
    locals: IdMap<ShardId, L>,
    persist: P,
) -> (done: ReplicaChanges<L>)
    requires
        old(holder).wf(),
        locals.wf(),
        forall|shard: ShardId, m: &ReplicaState| call_requires(persist, (shard, m)),
    ensures
        always_saves_shards(persist) ==> !is_state_not_saved(done.result),
        final(holder).wf(),
        done.unused_locals.wf(),
        changes_made(old(holder), final(holder), changes@, locals@, &done),
        final(holder).temporary_shards == old(holder).temporary_shards,
        final(holder).shard_transfers == old(holder).shard_transfers,
        final(holder).ring == old(holder).ring,
        forall|id: ShardId| final(holder).shards.has(id) == old(holder).shards.has(id),
        forall|id: ShardId|
            !names(changes@, id) ==> final(holder).slot(id) == old(holder).slot(id),
        forall|k: int|
            0 <= k < done.transfers@.len() ==> asked_by(changes@, #[trigger] done.transfers@[k]),
{
    let order = in_order(changes);
    let ghost given = locals@;
    let mut remaining = locals;
    let mut transfers: Vec<ShardTransfer> = Vec::new();
    let mut released: Vec<Shard<L>> = Vec::new();
    let ghost mut steps: Seq<ShardHolder<L>> = seq![*holder];
    let mut i: usize = 0;
    while i < order.len()
        invariant
            i <= order.len(),
            order@ == additions_first(changes@),
            holder.wf(),
            remaining.wf(),
            forall|shard: ShardId, m: &ReplicaState| call_requires(persist, (shard, m)),
            given == locals@,
            steps.len() == i + 1,
            steps[0] == *old(holder),
            steps[i as int] == *holder,
            made_in_turn(steps, order@.take(i as int), given),
            transfers@ == transfers_asked(steps, order@.take(i as int)),
            released@ == shards_let_go(steps, order@.take(i as int)),
            holder.temporary_shards == old(holder).temporary_shards,
            holder.shard_transfers == old(holder).shard_transfers,
            holder.ring == old(holder).ring,
            forall|id: ShardId| holder.shards.has(id) == old(holder).shards.has(id),
            forall|id: ShardId| !names(changes@, id) ==> holder.slot(id) == old(holder).slot(id),
            forall|k: int|
                0 <= k < transfers@.len() ==> asked_by(changes@, #[trigger] transfers@[k]),
            kept(remaining@, given, transfers@),
            i <= additions(changes@).len() ==> all_known(holder, transfers@),
        decreases order.len() - i,
    {
        let change = order[i];
        let ghost before = *holder;
        let ghost earlier = transfers@;
        let ghost taken = order@.take(i as int);
        let ghost at_hand = remaining@;
        proof {
            lemma_additions_first(changes@, i as int);
            lemma_asked_by(&before, changes@, change);
            assert(order@.take(i + 1) == taken.push(change));
        }
        let made_now = apply_change(holder, change, &mut remaining, &persist);
        proof {
            lemma_local_at_hand(&before, holder, change, at_hand, given, earlier);
        }
        match made_now {
            Err(e) => {
                let done = ReplicaChanges {
                    result: Err(e),
                    made: i,
                    transfers,
                    released,
                    unused_locals: remaining,
                };
                proof {
                    lemma_changes_made(old(holder), holder, changes@, given, &done, steps);
                }
                return done;
            },
            Ok(one) => {
                let ChangeMade { transfer, released: let_go } = one;
                proof {
                    lemma_made_frame(&before, holder, change, given);
                    lemma_made_next(steps, taken, change, *holder, given);
                    if change is Add {
                        lemma_known_after(&before, holder, change, given, earlier);
                    }
                    steps = steps.push(*holder);
                }
                match transfer {
                    Some(transfer) => {
                        transfers.push(transfer);
                        proof {
                            lemma_kept_less(at_hand, given, earlier, transfer);
                        }
                    },
                    None => {},
                }
                match let_go {
                    Some(shard) => {
                        released.push(shard);
                    },
                    None => {},
                }
            },
        }
        i += 1;
    }
    proof {
        assert(order@.take(i as int) == order@);
    }
    let done = ReplicaChanges {
        result: Ok(()),
        made: i,
        transfers,
        released,
        unused_locals: remaining,
    };
    proof {
        lemma_changes_made(old(holder), holder, changes@, given, &done, steps);
    }
    done
}

} // verus!
