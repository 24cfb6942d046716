//! The shard holder: every shard of a collection on this peer, the temporary
//! shards of incoming transfers, the hash ring and the transfers in flight.

use vstd::prelude::*;
use crate::hash_ring::HashRing;
use crate::id_map::{lemma_position_of, position_of, IdMap};
use crate::replica_set::ReplicaState;
use crate::shard::Shard;
use crate::types::{
    always_saves,
    is_bad_request,
    is_not_found,
    numbered,
    text_with_number,
    CollectionError,
    PeerId,
    ShardId,
};

verus! {

/// A transfer of a shard from one peer to another. With `sync` the receiving
/// peer has a replica already and is brought up to date; without it the
/// shard moves to the receiving peer.
#[derive(Clone, Copy, Debug, PartialEq, Eq, Structural, Hash)]
pub struct ShardTransfer {
    pub shard_id: ShardId,
    pub from: PeerId,
    pub to: PeerId,
    pub sync: bool,
}

impl ShardTransfer {
    /// True when `other` moves the same shard between the same peers in
    /// another mode: the two cannot be in flight together.
    pub open spec fn conflicts_with(&self, other: &ShardTransfer) -> bool {
        self.shard_id == other.shard_id && self.from == other.from && self.to == other.to
            && self.sync != other.sync
    }

    /// True when `other` moves the same shard between the same peers in
    /// another mode.
    pub fn is_in_conflict(&self, other: &ShardTransfer) -> (b: bool)
        ensures
            b == self.conflicts_with(other),
    {
        self.shard_id == other.shard_id && self.from == other.from && self.to == other.to
            && self.sync != other.sync
    }
}

/// All shards of one collection on this peer.
pub struct ShardHolder<L> {
    pub shards: IdMap<ShardId, Shard<L>>,
    pub temporary_shards: IdMap<ShardId, Shard<L>>,
    pub shard_transfers: Vec<ShardTransfer>,
    pub ring: HashRing,
}

/// A replica set in a slot is sound, knows the slot's id and records a state
/// for exactly its replicas.
pub open spec fn slot_ok<L>(id: ShardId, shard: Shard<L>) -> bool {
    shard matches Shard::ReplicaSet(set) ==> set.wf() && set.consistent() && set.shard_id == id
}

/// Every slot of `entries` is sound.
pub open spec fn slots_ok<L>(entries: Seq<(ShardId, Shard<L>)>) -> bool {
    forall|i: int| 0 <= i < entries.len() ==> slot_ok((#[trigger] entries[i]).0, entries[i].1)
}

/// Every temporary shard is a plain local shard.
pub open spec fn temporaries_ok<L>(entries: Seq<(ShardId, Shard<L>)>) -> bool {
    forall|i: int| 0 <= i < entries.len() ==> (#[trigger] entries[i]).1 is Local
}

/// The text of the error that a failed write of the transfers gives.
pub open spec fn transfers_not_saved() -> Seq<char> {
    "Failed to save the shard transfers"@
}

/// True when `r` is the error of transfers that could not be saved.
pub open spec fn is_transfers_not_saved<T>(r: Result<T, CollectionError>) -> bool {
    r matches Err(CollectionError::ServiceError { error }) && error@ == transfers_not_saved()
}

impl<L> ShardHolder<L> {
    /// The structure is sound: the ring holds exactly the shards of the
    /// holder, no transfer is registered twice, temporary shards are local
    /// shards and replica sets are sound.
    pub open spec fn wf(&self) -> bool {
        &&& self.shards.wf()
        &&& self.temporary_shards.wf()
        &&& self.shard_transfers@.no_duplicates()
        &&& self.ring.wf()
        &&& forall|id: ShardId| self.ring.shards().contains(id) <==> self.shards.has(id)
        &&& slots_ok(self.shards.entries())
        &&& temporaries_ok(self.temporary_shards.entries())
    }

    /// The shard in slot `id`, if there is one.
    pub open spec fn slot(&self, id: ShardId) -> Option<Shard<L>> {
        if self.shards.has(id) {
            Some(self.shards.value(id))
        } else {
            None
        }
    }

    /// The temporary shard for `id`, if there is one.
    pub open spec fn temporary(&self, id: ShardId) -> Option<Shard<L>> {
        if self.temporary_shards.has(id) {
            Some(self.temporary_shards.value(id))
        } else {
            None
        }
    }

    /// The transfers in flight.
    pub open spec fn transfers(&self) -> Set<ShardTransfer> {
        self.shard_transfers@.to_set()
    }

    /// An empty holder around `ring`.
    pub fn new(ring: HashRing) -> (holder: Self)
        requires
            ring.wf(),
        ensures
            holder.wf(),
            holder.ring.scale() == ring.scale(),
            holder.ring.keys().len() == 0,
            ring.keys().len() == 0 ==> holder.ring == ring,
            holder.shards.entries().len() == 0,
            holder.temporary_shards.entries().len() == 0,
            holder.shard_transfers@.len() == 0,
    {
        let holder = ShardHolder {
            shards: IdMap::new(),
            temporary_shards: IdMap::new(),
            shard_transfers: Vec::new(),
            ring: ring.emptied(),
        };
        proof {
            assert forall|id: ShardId| holder.ring.shards().contains(id) <==> holder.shards.has(
                id,
            ) by {
                lemma_position_of(holder.shards.entries(), id);
            }
        }
        holder
    }

    /// Number of shards.
    pub fn len(&self) -> (n: usize)
        ensures
            n == self.shards.entries().len(),
    {
        self.shards.len()
    }

    /// True when slot `shard_id` holds a shard.
    pub fn contains_shard(&self, shard_id: &ShardId) -> (b: bool)
        ensures
            b == self.shards.has(*shard_id),
    {
        self.shards.contains(*shard_id)
    }

    /// The shard in slot `shard_id`.
    pub fn get_shard(&self, shard_id: &ShardId) -> (r: Option<&Shard<L>>)
        ensures
            match r {
                Some(shard) => self.slot(*shard_id) == Some(*shard),
                None => self.slot(*shard_id).is_none(),
            },
    {
        self.shards.get(*shard_id)
    }

    /// The temporary shard for `shard_id`.
    pub fn get_temporary_shard(&self, shard_id: &ShardId) -> (r: Option<&Shard<L>>)
        ensures
            match r {
                Some(shard) => self.temporary(*shard_id) == Some(*shard),
                None => self.temporary(*shard_id).is_none(),
            },
    {
        self.temporary_shards.get(*shard_id)
    }

    /// Puts `shard` into slot `shard_id` and the slot on the ring. A shard
    /// that was in the slot is handed back.
    pub fn add_shard(&mut self, shard_id: ShardId, shard: Shard<L>) -> (previous: Option<Shard<L>>)
        requires
            old(self).wf(),
            slot_ok(shard_id, shard),
        ensures
            final(self).wf(),
            final(self).shards@ == old(self).shards@.insert(shard_id, shard),
            final(self).slot(shard_id) == Some(shard),
            forall|id: ShardId| id != shard_id ==> final(self).slot(id) == old(self).slot(id),
            final(self).shards.entries() == (if old(self).shards.has(shard_id) {
                old(self).shards.entries().update(
                    position_of(old(self).shards.entries(), shard_id),
                    (shard_id, shard),
                )
            } else {
                old(self).shards.entries().push((shard_id, shard))
            }),
            previous == old(self).slot(shard_id),
            final(self).temporary_shards == old(self).temporary_shards,
            final(self).shard_transfers == old(self).shard_transfers,
            final(self).ring.scale() == old(self).ring.scale(),
    {
        self.ring.add(shard_id);
        let previous = self.shards.insert(shard_id, shard);
        proof {
            let before = old(self).shards.entries();
            let after = self.shards.entries();
            lemma_position_of(before, shard_id);
            assert forall|id: ShardId| self.shards.has(id) == self.shards@.dom().contains(id) by {}
            assert forall|id: ShardId| old(self).shards.has(id) == old(self).shards@.dom().contains(
                id,
            ) by {}
            assert forall|id: ShardId| id != shard_id implies self.slot(id) == old(self).slot(
                id,
            ) by {
                assert(self.shards@[id] == old(self).shards@[id]);
            }
            assert(self.shards@[shard_id] == shard);
            assert forall|i: int| 0 <= i < after.len() implies slot_ok(
                (#[trigger] after[i]).0,
                after[i].1,
            ) by {
                if i < before.len() && i != position_of(before, shard_id) {
                    assert(after[i] == before[i]);
                }
            }
        }
        previous
    }

    /// Swaps the shard in slot `shard_id` for `shard` and hands the old one
    /// back, for the caller to release what it holds. An empty slot is
    /// filled.
    pub fn replace_shard(&mut self, shard_id: ShardId, shard: Shard<L>) -> (previous: Option<
        Shard<L>,
    >)
        requires
            old(self).wf(),
            slot_ok(shard_id, shard),
        ensures
            final(self).wf(),
            final(self).shards@ == old(self).shards@.insert(shard_id, shard),
            final(self).slot(shard_id) == Some(shard),
            forall|id: ShardId| id != shard_id ==> final(self).slot(id) == old(self).slot(id),
            previous == old(self).slot(shard_id),
            final(self).temporary_shards == old(self).temporary_shards,
            final(self).shard_transfers == old(self).shard_transfers,
            final(self).ring.scale() == old(self).ring.scale(),
    {
        self.add_shard(shard_id, shard)
    }

    /// Attaches `shard` as the temporary shard for `shard_id`. A temporary
    /// shard that was there is handed back.
    pub fn add_temporary_shard(&mut self, shard_id: ShardId, shard: L) -> (previous: Option<
        Shard<L>,
    >)
        requires
            old(self).wf(),
        ensures
            final(self).wf(),
            final(self).temporary(shard_id) == Some(Shard::Local(shard)),
            forall|id: ShardId|
                id != shard_id ==> final(self).temporary(id) == old(self).temporary(id),
            final(self).temporary_shards@ == old(self).temporary_shards@.insert(
                shard_id,
                Shard::Local(shard),
            ),
            previous == old(self).temporary(shard_id),
            final(self).shards == old(self).shards,
            final(self).shard_transfers == old(self).shard_transfers,
            final(self).ring == old(self).ring,
    {
        let previous = self.temporary_shards.insert(shard_id, Shard::Local(shard));
        proof {
            let before = old(self).temporary_shards.entries();
            let after = self.temporary_shards.entries();
            lemma_position_of(before, shard_id);
            assert forall|id: ShardId| id != shard_id implies self.temporary(id) == old(
                self).temporary(id) by {
                assert(self.temporary_shards@.dom().contains(id) == self.temporary_shards.has(id));
                assert(old(self).temporary_shards@.dom().contains(id) == old(
                    self).temporary_shards.has(id));
                assert(self.temporary_shards@[id] == old(self).temporary_shards@[id]);
            }
            assert(self.temporary_shards@.dom().contains(shard_id));
            assert(self.temporary_shards@[shard_id] == Shard::Local(shard));
            assert forall|i: int| 0 <= i < after.len() implies (#[trigger] after[i]).1 is Local by {
                if i < before.len() && i != position_of(before, shard_id) {
                    assert(after[i] == before[i]);
                }
            }
        }
        previous
    }

    /// Detaches the temporary shard for `shard_id` and hands it back.
    pub fn remove_temporary_shard(&mut self, shard_id: ShardId) -> (removed: Option<Shard<L>>)
        requires
            old(self).wf(),
        ensures
            final(self).wf(),
            final(self).temporary(shard_id).is_none(),
            forall|id: ShardId|
                id != shard_id ==> final(self).temporary(id) == old(self).temporary(id),
            final(self).temporary_shards@ == old(self).temporary_shards@.remove(shard_id),
            removed == old(self).temporary(shard_id),
            removed matches Some(shard) ==> shard is Local,
            final(self).shards == old(self).shards,
            final(self).shard_transfers == old(self).shard_transfers,
            final(self).ring == old(self).ring,
    {
        let removed = self.temporary_shards.remove(shard_id);
        proof {
            let before = old(self).temporary_shards.entries();
            let after = self.temporary_shards.entries();
            lemma_position_of(before, shard_id);
            assert forall|id: ShardId| id != shard_id implies self.temporary(id) == old(
                self).temporary(id) by {
                assert(self.temporary_shards@.dom().contains(id) == self.temporary_shards.has(id));
                assert(old(self).temporary_shards@.dom().contains(id) == old(
                    self).temporary_shards.has(id));
                assert(self.temporary_shards@[id] == old(self).temporary_shards@[id]);
            }
            if old(self).temporary_shards.has(shard_id) {
                let at = position_of(before, shard_id);
                assert(forall|i: int| 0 <= i < at ==> #[trigger] after[i] == before[i]);
                assert(forall|i: int| at <= i < after.len() ==> #[trigger] after[i] == before[i + 1]);
            }
        }
        removed
    }
}

/// A holder stays sound when the shard of one slot is replaced by a sound
/// one; the other slots are as before.
pub proof fn lemma_slot_replaced<L>(before: ShardHolder<L>, after: ShardHolder<L>, at: int)
    requires
        before.wf(),
        0 <= at < before.shards.entries().len(),
        after.shards.entries() == before.shards.entries().update(
            at,
            (before.shards.entries()[at].0, after.shards.entries()[at].1),
        ),
        slot_ok(before.shards.entries()[at].0, after.shards.entries()[at].1),
        after.temporary_shards == before.temporary_shards,
        after.shard_transfers == before.shard_transfers,
        after.ring == before.ring,
    ensures
        after.wf(),
        position_of(before.shards.entries(), before.shards.entries()[at].0) == at,
        after.slot(before.shards.entries()[at].0) == Some(after.shards.entries()[at].1),
        forall|id: ShardId|
            id != before.shards.entries()[at].0 ==> after.slot(id) == before.slot(id),
        forall|id: ShardId| after.shards.has(id) == before.shards.has(id),
        after.shards@ == before.shards@.insert(
            before.shards.entries()[at].0,
            after.shards.entries()[at].1,
        ),
{
    let s = before.shards.entries();
    let t = after.shards.entries();
    let key = s[at].0;
    crate::id_map::lemma_update_entry(s, at, t[at].1);
    assert forall|i: int| 0 <= i < t.len() implies slot_ok((#[trigger] t[i]).0, t[i].1) by {
        if i != at {
            assert(t[i] == s[i]);
            assert(slot_ok(s[i].0, s[i].1));
        }
    }
    assert forall|id: ShardId| id != key implies after.slot(id) == before.slot(id) by {
        assert(position_of(t, id) == position_of(s, id));
        lemma_position_of(s, id);
        if position_of(s, id) < s.len() {
            assert(t[position_of(s, id)] == s[position_of(s, id)]);
        }
    }
    assert forall|id: ShardId| after.shards.has(id) == before.shards.has(id) by {
        assert(position_of(t, id) == position_of(s, id));
    }
    assert forall|id: ShardId| after.ring.shards().contains(id) <==> after.shards.has(id) by {
        assert(before.ring.shards().contains(id) <==> before.shards.has(id));
    }
    assert(position_of(t, key) == at);
}

/// A copy of `transfers`.
fn copy_transfers(transfers: &Vec<ShardTransfer>) -> (copy: Vec<ShardTransfer>)
    ensures
        copy@ == transfers@,
{
    let mut copy: Vec<ShardTransfer> = Vec::new();
    let mut i: usize = 0;
    while i < transfers.len()
        invariant
            i <= transfers.len(),
            copy@ == transfers@.take(i as int),
        decreases transfers.len() - i,
    {
        copy.push(transfers[i]);
        assert(transfers@.take(i + 1) == transfers@.take(i as int).push(transfers@[i as int]));
        i += 1;
    }
    assert(transfers@.take(i as int) == transfers@);
    copy
}

/// True when a transfer of `transfers` conflicts with `transfer`.
pub open spec fn has_conflict(transfers: Seq<ShardTransfer>, transfer: ShardTransfer) -> bool {
    exists|i: int| 0 <= i < transfers.len() && (#[trigger] transfers[i]).conflicts_with(&transfer)
}

impl<L> ShardHolder<L> {
    /// Index of `transfer` among the registered transfers.
    fn find_transfer(&self, transfer: &ShardTransfer) -> (r: Option<usize>)
        ensures
            match r {
                Some(i) => i < self.shard_transfers@.len() && self.shard_transfers@[i as int]
                    == *transfer,
                None => !self.shard_transfers@.contains(*transfer),
            },
    {
        let mut i: usize = 0;
        while i < self.shard_transfers.len()
            invariant
                i <= self.shard_transfers.len(),
                forall|j: int| 0 <= j < i ==> self.shard_transfers@[j] != *transfer,
            decreases self.shard_transfers.len() - i,
        {
            if self.shard_transfers[i] == *transfer {
                return Some(i);
            }
            i += 1;
        }
        None
    }

    /// True when `transfer` is registered.
    pub fn check_transfer_exists(&self, transfer: &ShardTransfer) -> (b: bool)
        ensures
            b == self.transfers().contains(*transfer),
    {
        self.find_transfer(transfer).is_some()
    }

    /// The registered transfers.
    pub fn get_shard_transfers(&self) -> (transfers: &Vec<ShardTransfer>)
        ensures
            transfers@ == self.shard_transfers@,
    {
        &self.shard_transfers
    }

    /// Registers the transfers that were found in storage, in their order.
    /// A transfer that is registered already is left out.
    pub fn restore_transfers(&mut self, transfers: &Vec<ShardTransfer>)
        requires
            old(self).wf(),
        ensures
            final(self).wf(),
            final(self).shards == old(self).shards,
            final(self).temporary_shards == old(self).temporary_shards,
            final(self).ring == old(self).ring,
            final(self).transfers() == old(self).transfers().union(transfers@.to_set()),
            old(self).shard_transfers@.len() == 0 && transfers@.no_duplicates() ==> final(
                self).shard_transfers@ == transfers@,
    {
        let mut i: usize = 0;
        proof {
            assert(transfers@.take(0).to_set() =~= Set::<ShardTransfer>::empty());
            assert(self.transfers() =~= old(self).transfers().union(transfers@.take(0).to_set()));
        }
        while i < transfers.len()
            invariant
                i <= transfers.len(),
                self.wf(),
                self.shards == old(self).shards,
                self.temporary_shards == old(self).temporary_shards,
                self.ring == old(self).ring,
                self.transfers() == old(self).transfers().union(
                    transfers@.take(i as int).to_set(),
                ),
                old(self).shard_transfers@.len() == 0 && transfers@.no_duplicates()
                    ==> self.shard_transfers@ == transfers@.take(i as int),
            decreases transfers.len() - i,
        {
            let transfer = transfers[i];
            let ghost before = self.shard_transfers@;
            let ghost seen = transfers@.take(i as int);
            proof {
                assert(transfers@.take(i + 1) == seen.push(transfer));
                assert(seen.push(transfer).to_set() =~= seen.to_set().insert(transfer)) by {
                    assert forall|t: ShardTransfer|
                        seen.push(transfer).to_set().contains(t) == seen.to_set().insert(
                            transfer,
                        ).contains(t) by {
                        if seen.to_set().contains(t) {
                            let k = choose|k: int| 0 <= k < seen.len() && seen[k] == t;
                            assert(seen.push(transfer)[k] == t);
                        }
                        if t == transfer {
                            assert(seen.push(transfer)[seen.len() as int] == t);
                        }
                    }
                }
            }
            if self.find_transfer(&transfer).is_none() {
                self.shard_transfers.push(transfer);
                proof {
                    let after = self.shard_transfers@;
                    assert(after.to_set() =~= before.to_set().insert(transfer)) by {
                        assert forall|t: ShardTransfer|
                            after.to_set().contains(t) == before.to_set().insert(
                                transfer,
                            ).contains(t) by {
                            if before.to_set().contains(t) {
                                let k = choose|k: int| 0 <= k < before.len() && before[k] == t;
                                assert(after[k] == t);
                            }
                            if t == transfer {
                                assert(after[after.len() - 1] == t);
                            }
                        }
                    }
                    assert(self.transfers() =~= old(self).transfers().union(
                        transfers@.take(i + 1).to_set(),
                    ));
                }
            } else {
                proof {
                    assert(self.transfers() =~= old(self).transfers().union(
                        transfers@.take(i + 1).to_set(),
                    ));
                    if old(self).shard_transfers@.len() == 0 && transfers@.no_duplicates() {
                        let k = choose|k: int| 0 <= k < seen.len() && seen[k] == transfer;
                        assert(transfers@[k] == transfers@[i as int]);
                    }
                }
            }
            i += 1;
        }
        assert(transfers@.take(i as int) == transfers@);
    }

    /// The registered transfers that `peer_id` sends.
    pub fn get_outgoing_transfers(&self, peer_id: &PeerId) -> (outgoing: Vec<ShardTransfer>)
        ensures
            outgoing@ == self.shard_transfers@.filter(|t: ShardTransfer| t.from == *peer_id),
    {
        let mut outgoing: Vec<ShardTransfer> = Vec::new();
        let ghost pred = |t: ShardTransfer| t.from == *peer_id;
        let mut i: usize = 0;
        while i < self.shard_transfers.len()
            invariant
                i <= self.shard_transfers.len(),
                pred == (|t: ShardTransfer| t.from == *peer_id),
                outgoing@ == self.shard_transfers@.take(i as int).filter(pred),
            decreases self.shard_transfers.len() - i,
        {
            let transfer = self.shard_transfers[i];
            proof {
                assert(self.shard_transfers@.take(i + 1) == self.shard_transfers@.take(
                    i as int,
                ).push(transfer));
                self.shard_transfers@.take(i as int).lemma_filter_push(transfer, pred);
            }
            if transfer.from == *peer_id {
                outgoing.push(transfer);
            }
            i += 1;
        }
        assert(self.shard_transfers@.take(i as int) == self.shard_transfers@);
        outgoing
    }

    /// Registers `transfer` as in flight. The new set of transfers is saved
    /// before it takes effect.
    ///
    /// Returns `true` when the transfer was registered now, `false` when it
    /// was registered already. Fails with `BadRequest` when a registered
    /// transfer conflicts with it, and with a service error when the
    /// transfers could not be saved; the holder is then unchanged.
    pub fn register_start_shard_transfer<P: Fn(&Vec<ShardTransfer>) -> bool>(
        &mut self,
        transfer: ShardTransfer,
        persist: P,
    ) -> (r: Result<bool, CollectionError>)
        requires
            old(self).wf(),
            forall|t: &Vec<ShardTransfer>| call_requires(persist, (t,)),
        ensures
            always_saves(persist) ==> !is_transfers_not_saved(r),
            final(self).wf(),
            final(self).shards == old(self).shards,
            final(self).temporary_shards == old(self).temporary_shards,
            final(self).ring == old(self).ring,
            has_conflict(old(self).shard_transfers@, transfer) ==> is_bad_request(
                r,
                numbered(
                    "a transfer of shard "@,
                    transfer.shard_id as nat,
                    " between the same peers is in flight in another mode"@,
                ),
            ),
            !has_conflict(old(self).shard_transfers@, transfer) ==> (match r {
                Ok(registered) => registered == !old(self).transfers().contains(transfer),
                Err(_) => is_transfers_not_saved(r) && !old(self).transfers().contains(transfer),
            }),
            r is Err || r == Ok::<bool, CollectionError>(false) ==> final(self).shard_transfers
                == old(self).shard_transfers,
            r == Ok::<bool, CollectionError>(true) ==> final(self).shard_transfers@ == old(
                self).shard_transfers@.push(transfer) && final(self).transfers() == old(
                self).transfers().insert(transfer) && call_ensures(
                persist,
                (&final(self).shard_transfers,),
                true,
            ),
    {
        let mut i: usize = 0;
        while i < self.shard_transfers.len()
            invariant
                i <= self.shard_transfers.len(),
                *self == *old(self),
                self.wf(),
                forall|j: int|
                    0 <= j < i ==> !(#[trigger] self.shard_transfers@[j]).conflicts_with(&transfer),
            decreases self.shard_transfers.len() - i,
        {
            if self.shard_transfers[i].is_in_conflict(&transfer) {
                return Err(
                    CollectionError::BadRequest {
                        description: text_with_number(
                            "a transfer of shard ",
                            transfer.shard_id as u64,
                            " between the same peers is in flight in another mode",
                        ),
                    },
                );
            }
            i += 1;
        }
        if self.find_transfer(&transfer).is_some() {
            return Ok(false);
        }
        let mut candidate = copy_transfers(&self.shard_transfers);
        candidate.push(transfer);
        if !persist(&candidate) {
            return Err(
                CollectionError::service_error("Failed to save the shard transfers".to_string()),
            );
        }
        self.shard_transfers = candidate;
        proof {
            assert(self.transfers() =~= old(self).transfers().insert(transfer)) by {
                let before = old(self).shard_transfers@;
                let after = self.shard_transfers@;
                assert forall|t: ShardTransfer| after.to_set().contains(t) == before.to_set().insert(
                    transfer,
                ).contains(t) by {
                    if before.to_set().contains(t) {
                        let k = choose|k: int| 0 <= k < before.len() && before[k] == t;
                        assert(after[k] == t);
                    }
                    if t == transfer {
                        assert(after[after.len() - 1] == t);
                    }
                }
            }
        }
        Ok(true)
    }

    /// Takes `transfer` out of the transfers in flight. The new set of
    /// transfers is saved before it takes effect.
    ///
    /// Returns `true` when the transfer was registered. Fails with a service
    /// error when the transfers could not be saved; the holder is then
    /// unchanged.
    pub fn register_finish_transfer<P: Fn(&Vec<ShardTransfer>) -> bool>(
        &mut self,
        transfer: &ShardTransfer,
        persist: P,
    ) -> (r: Result<bool, CollectionError>)
        requires
            old(self).wf(),
            forall|t: &Vec<ShardTransfer>| call_requires(persist, (t,)),
        ensures
            always_saves(persist) ==> !is_transfers_not_saved(r),
            final(self).wf(),
            final(self).shards == old(self).shards,
            final(self).temporary_shards == old(self).temporary_shards,
            final(self).ring == old(self).ring,
            match r {
                Ok(registered) => registered == old(self).transfers().contains(*transfer),
                Err(_) => is_transfers_not_saved(r) && old(self).transfers().contains(*transfer),
            },
            r is Err || r == Ok::<bool, CollectionError>(false) ==> final(self).shard_transfers
                == old(self).shard_transfers,
            r is Ok ==> final(self).transfers() == old(self).transfers().remove(*transfer),
            r == Ok::<bool, CollectionError>(true) ==> call_ensures(
                persist,
                (&final(self).shard_transfers,),
                true,
            ),
    {
        match self.find_transfer(transfer) {
            None => {
                assert(old(self).transfers().remove(*transfer) =~= old(self).transfers());
                Ok(false)
            },
            Some(at) => {
                let mut candidate = copy_transfers(&self.shard_transfers);
                candidate.remove(at);
                proof {
                    let before = self.shard_transfers@;
                    let after = candidate@;
                    assert(forall|j: int| 0 <= j < at ==> #[trigger] after[j] == before[j]);
                    assert(forall|j: int|
                        at <= j < after.len() ==> #[trigger] after[j] == before[j + 1]);
                    assert forall|t: ShardTransfer| after.to_set().contains(t)
                        == before.to_set().remove(*transfer).contains(t) by {
                        if after.to_set().contains(t) {
                            let k = choose|k: int| 0 <= k < after.len() && after[k] == t;
                            if k < at {
                                assert(before[k] == t);
                            } else {
                                assert(before[k + 1] == t);
                            }
                        }
                        if before.to_set().contains(t) && t != *transfer {
                            let k = choose|k: int| 0 <= k < before.len() && before[k] == t;
                            if k < at {
                                assert(after[k] == t);
                            } else {
                                assert(after[k - 1] == t);
                            }
                        }
                    }
                    assert(after.to_set() =~= before.to_set().remove(*transfer));
                }
                if !persist(&candidate) {
                    return Err(
                        CollectionError::service_error(
                            "Failed to save the shard transfers".to_string(),
                        ),
                    );
                }
                self.shard_transfers = candidate;
                Ok(true)
            },
        }
    }

    /// The shards that an operation on `shard_selection` goes to.
    ///
    /// Without a selection these are all shards, in the order of their
    /// slots. With one it is the temporary shard of the selected slot, if a
    /// transfer has attached one, else the shard in the slot; there is none
    /// when the slot is empty.
    pub fn target_shards(&self, shard_selection: Option<ShardId>) -> (targets: Vec<&Shard<L>>)
        ensures
            match shard_selection {
                None => targets@.len() == self.shards.entries().len() && forall|i: int|
                    0 <= i < targets@.len() ==> *(#[trigger] targets@[i])
                        == self.shards.entries()[i].1,
                Some(id) => match self.temporary(id) {
                    Some(shard) => targets@.len() == 1 && *targets@[0] == shard,
                    None => match self.slot(id) {
                        Some(shard) => targets@.len() == 1 && *targets@[0] == shard,
                        None => targets@.len() == 0,
                    },
                },
            },
    {
        let mut targets: Vec<&Shard<L>> = Vec::new();
        match shard_selection {
            None => {
                let mut i: usize = 0;
                while i < self.shards.len()
                    invariant
                        i <= self.shards.entries().len(),
                        targets@.len() == i,
                        forall|j: int|
                            0 <= j < i ==> *(#[trigger] targets@[j]) == self.shards.entries()[j].1,
                    decreases self.shards.entries().len() - i,
                {
                    targets.push(self.shards.value_at(i));
                    i += 1;
                }
            },
            Some(id) => {
                match self.temporary_shards.get(id) {
                    Some(shard) => {
                        targets.push(shard);
                    },
                    None => {
                        match self.shards.get(id) {
                            Some(shard) => {
                                targets.push(shard);
                            },
                            None => {},
                        }
                    },
                }
            },
        }
        targets
    }

    /// Records the replica of shard `shard_id` on `peer_id` as active or
    /// not. The new state is saved before it takes effect.
    ///
    /// Fails with `NotFound` when the slot is empty or the replica set does
    /// not know the peer, with `BadRequest` when the shard is no replica
    /// set, and with a service error when the state could not be saved; the
    /// holder is then unchanged.
    pub fn set_shard_replica_state<P: Fn(&ReplicaState) -> bool>(
        &mut self,
        shard_id: ShardId,
        peer_id: PeerId,
        active: bool,
        persist: P,
    ) -> (r: Result<(), CollectionError>)
        requires
            old(self).wf(),
            forall|m: &ReplicaState| call_requires(persist, (m,)),
        ensures
            always_saves(persist) ==> !crate::replica_set::is_state_not_saved(r),
            final(self).wf(),
            final(self).temporary_shards == old(self).temporary_shards,
            final(self).shard_transfers == old(self).shard_transfers,
            final(self).ring == old(self).ring,
            forall|id: ShardId| id != shard_id ==> final(self).slot(id) == old(self).slot(id),
            r is Err ==> final(self).slot(shard_id) == old(self).slot(shard_id),
            match old(self).slot(shard_id) {
                None => is_not_found(r, numbered("Shard "@, shard_id as nat, ""@)),
                Some(Shard::ReplicaSet(set)) => if set.replica_state.has(peer_id) {
                    r is Ok || crate::replica_set::is_state_not_saved(r)
                } else {
                    is_not_found(
                        r,
                        numbered(
                        numbered("Shard "@, shard_id as nat, " replica on peer "@),
                        peer_id as nat,
                        ""@,
                    ),
                    )
                },
                Some(_) => is_bad_request(
                    r,
                    numbered("Shard "@, shard_id as nat, " is not a replica set"@),
                ),
            },
            r is Ok ==> {
                &&& old(self).slot(shard_id) matches Some(Shard::ReplicaSet(before))
                &&& final(self).slot(shard_id) matches Some(Shard::ReplicaSet(after))
                &&& after.same_replicas(&before)
                &&& after.replica_state@ == before.replica_state@.insert(peer_id, active)
                &&& call_ensures(persist, (&after.replica_state,), true)
            },
    {
        let found = self.shards.find(shard_id);
        match found {
            None => Err(
                CollectionError::NotFound {
                    what: text_with_number("Shard ", shard_id as u64, ""),
                },
            ),
            Some(at) => {
                let ghost before = self.shards.entries();
                proof {
                    lemma_position_of(before, shard_id);
                }
                let shard = self.shards.value_at_mut(at);
                let r = match shard {
                    Shard::ReplicaSet(set) => set.set_active(&peer_id, active, persist),
                    _ => Err(
                        CollectionError::BadRequest {
                            description: text_with_number(
                                "Shard ",
                                shard_id as u64,
                                " is not a replica set",
                            ),
                        },
                    ),
                };
                proof {
                    lemma_slot_replaced(*old(self), *self, at as int);
                }
                r
            },
        }
    }
}

} // verus!
