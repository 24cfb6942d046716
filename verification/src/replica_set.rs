//! A set of replicas of one shard: at most one on this peer, the others on
//! remote peers, and the record of which of them are active.

use vstd::prelude::*;
use crate::id_map::{position_of, IdMap};
use crate::shard::{ForwardProxyShard, RemoteShard, Shard};
use crate::types::{
    always_saves,
    is_bad_request,
    is_not_found,
    is_service_error,
    numbered,
    text_with_number,
    CollectionError,
    PeerId,
    ShardId,
};

verus! {

broadcast use vstd::seq_lib::group_seq_properties;

/// For each known peer, whether its replica is active.
pub type ReplicaState = IdMap<PeerId, bool>;

/// Number of remote replicas that a read is first sent to.
pub const READ_REMOTE_REPLICAS: u32 = 2;

/// A change of a replica set that follows from a new replication factor.
#[derive(Clone, Copy, Debug, PartialEq, Eq, Structural, Hash)]
pub enum Change {
    /// Add a replica of `shard` on peer `to`; peer `from` sends the data.
    Add { shard: ShardId, to: PeerId, from: PeerId },
    /// Remove the replica of the shard from the peer.
    Remove(ShardId, PeerId),
}

/// The replicas of one shard.
///
/// A replica set is meant to hold at least two replicas. When one is left,
/// the collection turns the set into a plain local or remote shard.
pub struct ReplicaSet<L> {
    pub shard_id: ShardId,
    pub this_peer_id: PeerId,
    /// The replica on this peer: a local shard, or a forward proxy around it
    /// while the shard is being sent to another peer.
    pub local: Option<Box<Shard<L>>>,
    pub remotes: Vec<RemoteShard>,
    pub replica_state: ReplicaState,
    /// Number of remote replicas that a read is first sent to.
    pub read_remote_replicas: u32,
}

/// The peers of a list of remote shards, in order.
pub open spec fn remote_peers(remotes: Seq<RemoteShard>) -> Seq<PeerId> {
    remotes.map_values(|r: RemoteShard| r.peer_id)
}

/// True when a remote shard of `remotes` is on `peer_id`.
pub open spec fn has_remote(remotes: Seq<RemoteShard>, peer_id: PeerId) -> bool {
    exists|i: int| 0 <= i < remotes.len() && (#[trigger] remotes[i]).peer_id == peer_id
}

/// No two remote shards are on one peer, and none is on `this_peer_id`.
pub open spec fn distinct_remotes(remotes: Seq<RemoteShard>, this_peer_id: PeerId) -> bool {
    &&& forall|i: int, j: int|
        0 <= i < j < remotes.len() ==> (#[trigger] remotes[i]).peer_id != (
        #[trigger] remotes[j]).peer_id
    &&& forall|i: int| 0 <= i < remotes.len() ==> (#[trigger] remotes[i]).peer_id != this_peer_id
}

/// The peers among `remotes` that `state` records as active, in order.
pub open spec fn active_peers(remotes: Seq<RemoteShard>, state: Seq<(PeerId, bool)>) -> Seq<
    PeerId,
> {
    remote_peers(remotes).filter(|p: PeerId| is_active_in(state, p))
}

/// True when `state` knows `peer` and records it as active.
pub open spec fn is_active_in(state: Seq<(PeerId, bool)>, peer: PeerId) -> bool {
    position_of(state, peer) < state.len() && state[position_of(state, peer)].1
}

/// What a write has to reach.
pub struct UpdatePlan {
    /// True when the replica on this peer takes the write.
    pub local: bool,
    /// The remote peers that take the write.
    pub remotes: Vec<PeerId>,
}

/// How the writes of one update ended.
pub enum UpdateOutcome<R> {
    /// Every replica of the plan replied: the remote replies in the order of
    /// the plan, and the reply of the local replica if it was part of it.
    Replied { remote: Vec<R>, local: Option<R> },
    /// The write failed on `peer_id`; it is the first failure seen.
    Failed { peer_id: PeerId, error: CollectionError },
}

/// The result of an update and the peer to report as failing, if any.
pub struct UpdateConclusion<R> {
    pub result: Result<R, CollectionError>,
    pub failed_peer: Option<PeerId>,
}

/// Where a read stands.
pub enum ReadProgress<R> {
    /// Nothing was tried yet.
    Start,
    /// The local replica was read.
    Local(Result<R, CollectionError>),
    /// The first group of remote replicas was read; the results are in the
    /// order in which they arrived, up to the first success. `local_error`
    /// is the error of the local replica, if it was read before and failed.
    FanOut { local_error: Option<CollectionError>, results: Vec<Result<R, CollectionError>> },
    /// The remaining remote replicas were read after every replica before
    /// them had failed, with `captured` as the first error.
    Fallback { captured: CollectionError, results: Vec<Result<R, CollectionError>> },
}

/// What a read does next.
pub enum ReadStep<R> {
    /// Read the local replica.
    QueryLocal,
    /// Read the first group of remote replicas; `local_error`, the error of
    /// the local replica if it was read and failed, is kept for the end.
    QueryFanOut { peers: Vec<PeerId>, local_error: Option<CollectionError> },
    /// Read the remaining remote replicas; `captured`, the first error so
    /// far, is kept for the end.
    QueryFallback { peers: Vec<PeerId>, captured: CollectionError },
    /// The read is over.
    Done(Result<R, CollectionError>),
}

/// The first error of a read whose replicas have all failed: the error of
/// the local replica if it was read, else the first error of the remote
/// replicas; none when nothing was read.
pub open spec fn first_error<R>(
    captured: Option<CollectionError>,
    results: Seq<Result<R, CollectionError>>,
) -> Option<CollectionError> {
    match captured {
        Some(local) => Some(local),
        None => if results.len() > 0 && results[0] is Err {
            Some(results[0]->Err_0)
        } else {
            None
        },
    }
}

/// Index of the first success in `results`, or their number if none succeeded.
pub open spec fn first_ok<R>(results: Seq<Result<R, CollectionError>>) -> int
    decreases results.len(),
{
    if results.len() == 0 {
        0
    } else if results[0] is Ok {
        0
    } else {
        1 + first_ok(results.skip(1))
    }
}

/// `first_ok` points at a success, and at the first one.
pub proof fn lemma_first_ok<R>(results: Seq<Result<R, CollectionError>>)
    ensures
        0 <= first_ok(results) <= results.len(),
        first_ok(results) < results.len() ==> results[first_ok(results)] is Ok,
        forall|i: int| 0 <= i < first_ok(results) ==> results[i] is Err,
    decreases results.len(),
{
    if results.len() != 0 && !(results[0] is Ok) {
        lemma_first_ok(results.skip(1));
        assert forall|i: int| 0 <= i < first_ok(results) implies results[i] is Err by {
            if i > 0 {
                assert(results.skip(1)[i - 1] == results[i]);
            }
        }
    }
}

/// Takes the first success out of `results`; without one, the first error.
/// `None` when there is no result at all.
pub fn first_success<R>(results: Vec<Result<R, CollectionError>>) -> (r: Option<
    Result<R, CollectionError>,
>)
    ensures
        results.len() == 0 ==> r.is_none(),
        results.len() > 0 ==> r == Some(
            if first_ok(results@) < results.len() {
                results@[first_ok(results@)]
            } else {
                results@[0]
            },
        ),
{
    let ghost all = results@;
    let mut pending = results;
    proof {
        lemma_first_ok(all);
    }
    if pending.len() == 0 {
        return None;
    }
    let mut i: usize = 0;
    while i < pending.len()
        invariant
            pending@ == all,
            all == results@,
            i <= all.len(),
            forall|j: int| 0 <= j < i ==> all[j] is Err,
            0 <= first_ok(all) <= all.len(),
            first_ok(all) < all.len() ==> all[first_ok(all)] is Ok,
            forall|j: int| 0 <= j < first_ok(all) ==> all[j] is Err,
        decreases all.len() - i,
    {
        if pending[i].is_ok() {
            assert(first_ok(all) == i) by {
                if first_ok(all) < i {
                    assert(all[first_ok(all)] is Err);
                }
            }
            let found = pending.swap_remove(i);
            return Some(found);
        }
        i += 1;
    }
    assert(first_ok(all) == all.len()) by {
        if first_ok(all) < all.len() {
            assert(all[first_ok(all)] is Err);
        }
    }
    let found = pending.swap_remove(0);
    Some(found)
}

impl<L> ReplicaSet<L> {
    /// The peers that hold a replica: the remote ones in order, then this
    /// peer if it holds one.
    pub open spec fn peers(&self) -> Seq<PeerId> {
        if self.local.is_some() {
            remote_peers(self.remotes@).push(self.this_peer_id)
        } else {
            remote_peers(self.remotes@)
        }
    }

    /// The structure is sound: no peer is known twice, no remote replica is
    /// on this peer, and the local replica is a local shard or a forward
    /// proxy around one.
    pub open spec fn wf(&self) -> bool {
        &&& self.replica_state.wf()
        &&& distinct_remotes(self.remotes@, self.this_peer_id)
        &&& match self.local {
            Some(shard) => *shard is Local || *shard is ForwardProxy,
            None => true,
        }
    }

    /// True when `peer_id` holds a replica of this set.
    pub open spec fn has_replica(&self, peer_id: PeerId) -> bool {
        (self.local.is_some() && peer_id == self.this_peer_id) || has_remote(
            self.remotes@,
            peer_id,
        )
    }

    /// The peers with a recorded state are exactly the peers with a replica.
    pub open spec fn consistent(&self) -> bool {
        forall|p: PeerId| self.replica_state.has(p) <==> self.has_replica(p)
    }

    /// True when `peer_id` is known and recorded as active.
    pub open spec fn is_active(&self, peer_id: PeerId) -> bool {
        is_active_in(self.replica_state.entries(), peer_id)
    }

    /// True when `other` has the same replicas; only the recorded states may
    /// differ.
    pub open spec fn same_replicas(&self, other: &Self) -> bool {
        &&& self.shard_id == other.shard_id
        &&& self.this_peer_id == other.this_peer_id
        &&& self.local == other.local
        &&& self.remotes == other.remotes
        &&& self.read_remote_replicas == other.read_remote_replicas
    }

    /// The peers that hold a replica: the remote ones in order, then this
    /// peer if it holds one.
    pub fn peer_ids(&self) -> (ids: Vec<PeerId>)
        ensures
            ids@ == self.peers(),
    {
        let mut ids: Vec<PeerId> = Vec::new();
        let mut i: usize = 0;
        while i < self.remotes.len()
            invariant
                i <= self.remotes.len(),
                ids@ == remote_peers(self.remotes@.take(i as int)),
            decreases self.remotes.len() - i,
        {
            ids.push(self.remotes[i].peer_id);
            assert(self.remotes@.take(i + 1) == self.remotes@.take(i as int).push(
                self.remotes@[i as int],
            ));
            assert(ids@ == remote_peers(self.remotes@.take(i + 1)));
            i += 1;
        }
        assert(self.remotes@.take(i as int) == self.remotes@);
        if self.local.is_some() {
            ids.push(self.this_peer_id);
        }
        ids
    }

    /// Whether `peer_id` is recorded as active. Unknown peers are not active.
    pub fn peer_is_active(&self, peer_id: &PeerId) -> (b: bool)
        ensures
            b == self.is_active(*peer_id),
    {
        match self.replica_state.get(*peer_id) {
            Some(active) => *active,
            None => false,
        }
    }

    /// The pairs of shard and peer of this set: this peer first if it holds a
    /// replica, then the remote peers in order.
    pub fn shard_distribution(&self) -> (pairs: Vec<(ShardId, PeerId)>)
        ensures
            pairs@ == self.spec_shard_distribution(),
    {
        let mut pairs: Vec<(ShardId, PeerId)> = Vec::new();
        if self.local.is_some() {
            pairs.push((self.shard_id, self.this_peer_id));
        }
        let ghost head = pairs@;
        let mut i: usize = 0;
        while i < self.remotes.len()
            invariant
                i <= self.remotes.len(),
                pairs@ == head + self.remotes@.take(i as int).map_values(
                    |r: RemoteShard| (self.shard_id, r.peer_id),
                ),
            decreases self.remotes.len() - i,
        {
            pairs.push((self.shard_id, self.remotes[i].peer_id));
            assert(self.remotes@.take(i + 1) == self.remotes@.take(i as int).push(
                self.remotes@[i as int],
            ));
            assert(pairs@ == head + self.remotes@.take(i + 1).map_values(
                |r: RemoteShard| (self.shard_id, r.peer_id),
            ));
            i += 1;
        }
        assert(self.remotes@.take(i as int) == self.remotes@);
        pairs
    }

    /// See [`ReplicaSet::shard_distribution`].
    pub open spec fn spec_shard_distribution(&self) -> Seq<(ShardId, PeerId)> {
        let remote = self.remotes@.map_values(|r: RemoteShard| (self.shard_id, r.peer_id));
        if self.local.is_some() {
            seq![(self.shard_id, self.this_peer_id)] + remote
        } else {
            remote
        }
    }
}

/// The text of the error that a failed write of the replica state gives.
pub open spec fn state_not_saved() -> Seq<char> {
    "Failed to save the replica state"@
}

/// True when `r` is the error of a replica state that could not be saved.
pub open spec fn is_state_not_saved<T>(r: Result<T, CollectionError>) -> bool {
    r matches Err(CollectionError::ServiceError { error }) && error@ == state_not_saved()
}

/// True when the peers of `peers` are distinct and `this_peer_id` is not
/// among them.
pub fn are_remote_peers(peers: &Vec<PeerId>, this_peer_id: PeerId) -> (b: bool)
    ensures
        b == (peers@.no_duplicates() && !peers@.contains(this_peer_id)),
{
    let mut i: usize = 0;
    while i < peers.len()
        invariant
            i <= peers.len(),
            forall|a: int, b: int| 0 <= a < b < i ==> peers@[a] != peers@[b],
            forall|a: int| 0 <= a < i ==> peers@[a] != this_peer_id,
        decreases peers.len() - i,
    {
        if peers[i] == this_peer_id {
            assert(peers@.contains(this_peer_id));
            return false;
        }
        let mut k: usize = 0;
        while k < i
            invariant
                k <= i,
                i < peers.len(),
                forall|a: int| 0 <= a < k ==> peers@[a] != peers@[i as int],
            decreases i - k,
        {
            if peers[k] == peers[i] {
                return false;
            }
            k += 1;
        }
        i += 1;
    }
    true
}

/// What is wrong with a replica set whose remote replicas are not on
/// distinct peers other than this one, as a text.
pub open spec fn remotes_fault(shard_id: ShardId) -> Seq<char> {
    numbered(
        "the remote replicas of shard "@,
        shard_id as nat,
        " are not on distinct peers other than this one"@,
    )
}

/// An attempt to change the recorded state: the state that was handed to
/// the save function, and whether it was saved.
pub struct Attempt {
    pub candidate: ReplicaState,
    pub saved: bool,
}

/// True when `after` is the recorded state that `attempt` leaves of
/// `before`: the new state if it was saved, the old one if not.
pub open spec fn committed(before: ReplicaState, after: ReplicaState, attempt: Attempt) -> bool {
    after == if attempt.saved {
        attempt.candidate
    } else {
        before
    }
}

/// The place of the last attempt that was saved; -1 when none was.
pub open spec fn last_saved(attempts: Seq<Attempt>) -> int
    decreases attempts.len(),
{
    if attempts.len() == 0 {
        -1
    } else if attempts.last().saved {
        attempts.len() - 1
    } else {
        last_saved(attempts.drop_last())
    }
}

/// What the file of the state holds after `attempts`, when it held `start`
/// before: the last state that was saved.
pub open spec fn on_disk(start: ReplicaState, attempts: Seq<Attempt>) -> ReplicaState {
    if last_saved(attempts) < 0 {
        start
    } else {
        attempts[last_saved(attempts)].candidate
    }
}

/// The recorded state is at every time the last state that was saved:
/// where `states` are the recorded states before, between and after
/// `attempts`, the state after the first `k` attempts is what the file holds
/// then. Whenever the peer stops, what it opens again is what it had.
pub proof fn lemma_recorded_state_is_saved(
    states: Seq<ReplicaState>,
    attempts: Seq<Attempt>,
    k: int,
)
    requires
        states.len() == attempts.len() + 1,
        forall|i: int|
            0 <= i < attempts.len() ==> committed(states[i], states[i + 1], #[trigger] attempts[i]),
        0 <= k <= attempts.len(),
    ensures
        states[k] == on_disk(states[0], attempts.take(k)),
    decreases k,
{
    if k > 0 {
        lemma_recorded_state_is_saved(states, attempts, k - 1);
        let now = attempts.take(k);
        assert(now.drop_last() == attempts.take(k - 1));
        assert(now.last() == attempts[k - 1]);
        assert(committed(states[k - 1], states[k], attempts[k - 1]));
        lemma_last_saved(attempts.take(k - 1));
        if !attempts[k - 1].saved && last_saved(attempts.take(k - 1)) >= 0 {
            assert(now[last_saved(attempts.take(k - 1))] == attempts.take(k - 1)[last_saved(
                attempts.take(k - 1),
            )]);
        }
    }
}

/// The last attempt that was saved is one of the attempts, or none.
pub proof fn lemma_last_saved(attempts: Seq<Attempt>)
    ensures
        -1 <= last_saved(attempts) < attempts.len(),
        last_saved(attempts) >= 0 ==> attempts[last_saved(attempts)].saved,
        forall|i: int| last_saved(attempts) < i < attempts.len() ==> !(#[trigger] attempts[i]).saved,
    decreases attempts.len(),
{
    if attempts.len() > 0 && !attempts.last().saved {
        lemma_last_saved(attempts.drop_last());
        assert forall|i: int| last_saved(attempts) < i < attempts.len() implies !(
        #[trigger] attempts[i]).saved by {
            if i < attempts.len() - 1 {
                assert(attempts.drop_last()[i] == attempts[i]);
            }
        }
    }
}

impl<L> ReplicaSet<L> {
    /// Hands `candidate` to `persist` and, if it was saved, makes it the
    /// recorded state. A state that was not saved is dropped.
    pub fn commit_state<P: Fn(&ReplicaState) -> bool>(
        &mut self,
        candidate: ReplicaState,
        persist: P,
    ) -> (saved: bool)
        requires
            call_requires(persist, (&candidate,)),
        ensures
            call_ensures(persist, (&candidate,), saved),
            final(self).same_replicas(old(self)),
            committed(
                old(self).replica_state,
                final(self).replica_state,
                (Attempt { candidate, saved }),
            ),
    {
        let saved = persist(&candidate);
        if saved {
            self.replica_state = candidate;
        }
        saved
    }

    /// Records `peer_id` as active or not. The new state is saved before it
    /// takes effect.
    ///
    /// Fails with `NotFound` when the peer is unknown, and with a service
    /// error when the state could not be saved; the set is then unchanged.
    pub fn set_active<P: Fn(&ReplicaState) -> bool>(
        &mut self,
        peer_id: &PeerId,
        active: bool,
        persist: P,
    ) -> (r: Result<(), CollectionError>)
        requires
            old(self).wf(),
            forall|m: &ReplicaState| call_requires(persist, (m,)),
        ensures
            always_saves(persist) ==> !is_state_not_saved(r),
            final(self).wf(),
            final(self).same_replicas(old(self)),
            old(self).consistent() ==> final(self).consistent(),
            !old(self).replica_state.has(*peer_id) ==> is_not_found(
                r,
                numbered(
                    numbered("Shard "@, old(self).shard_id as nat, " replica on peer "@),
                    *peer_id as nat,
                    ""@,
                ),
            ),
            r is Err ==> final(self).replica_state == old(self).replica_state,
            old(self).replica_state.has(*peer_id) ==> r is Ok || is_state_not_saved(r),
            old(self).replica_state.has(*peer_id) && always_saves(persist) ==> r is Ok,
            r is Ok ==> {
                &&& call_ensures(persist, (&final(self).replica_state,), true)
                &&& final(self).replica_state.entries() == old(self).replica_state.entries().update(
                    position_of(old(self).replica_state.entries(), *peer_id),
                    (*peer_id, active),
                )
                &&& final(self).replica_state@ == old(self).replica_state@.insert(*peer_id, active)
            },
            old(self).replica_state.has(*peer_id) && r is Err ==> exists|c: ReplicaState|
                #![auto]
                c.entries() == old(self).replica_state.entries().update(
                    position_of(old(self).replica_state.entries(), *peer_id),
                    (*peer_id, active),
                ) && call_ensures(persist, (&c,), false),
    {
        if !self.replica_state.contains(*peer_id) {
            let shard = text_with_number("Shard ", self.shard_id as u64, " replica on peer ");
            return Err(
                CollectionError::NotFound { what: text_with_number(shard.as_str(), *peer_id, "") },
            );
        }
        let mut candidate = self.replica_state.copy();
        candidate.insert(*peer_id, active);
        assert(forall|p: PeerId| candidate.has(p) <==> old(self).replica_state.has(p)) by {
            assert(forall|p: PeerId| candidate@.dom().contains(p) <==> candidate.has(p));
            assert(forall|p: PeerId|
                old(self).replica_state@.dom().contains(p) <==> old(self).replica_state.has(p));
        }
        if self.commit_state(candidate, persist) {
            Ok(())
        } else {
            Err(CollectionError::service_error("Failed to save the replica state".to_string()))
        }
    }

    /// Makes `peer_id` known as the holder of a replica that is not active
    /// yet. The new state is saved before it takes effect.
    ///
    /// Fails with a service error when the peer is already known or the state
    /// could not be saved; the set is then unchanged.
    pub fn add_inactive_replica_state<P: Fn(&ReplicaState) -> bool>(
        &mut self,
        peer_id: &PeerId,
        persist: P,
    ) -> (r: Result<(), CollectionError>)
        requires
            old(self).wf(),
            forall|m: &ReplicaState| call_requires(persist, (m,)),
        ensures
            always_saves(persist) ==> !is_state_not_saved(r),
            final(self).wf(),
            final(self).same_replicas(old(self)),
            old(self).replica_state.has(*peer_id) ==> is_service_error(
                r,
                numbered("replica for peer "@, *peer_id as nat, " is already registered"@),
            ) && !is_state_not_saved(r),
            r is Err ==> final(self).replica_state == old(self).replica_state,
            !old(self).replica_state.has(*peer_id) ==> r is Ok || is_state_not_saved(r),
            !old(self).replica_state.has(*peer_id) && always_saves(persist) ==> r is Ok,
            r is Ok ==> {
                &&& call_ensures(persist, (&final(self).replica_state,), true)
                &&& final(self).replica_state.entries() == old(self).replica_state.entries().push(
                    (*peer_id, false),
                )
                &&& final(self).replica_state@ == old(self).replica_state@.insert(*peer_id, false)
                &&& final(self).replica_state.has(*peer_id)
                &&& !final(self).is_active(*peer_id)
            },
            !old(self).replica_state.has(*peer_id) && r is Err ==> exists|c: ReplicaState|
                #![auto]
                c.entries() == old(self).replica_state.entries().push((*peer_id, false))
                    && call_ensures(persist, (&c,), false),
    {
        if self.replica_state.contains(*peer_id) {
            proof {
                reveal_strlit("Failed to save the replica state");
                reveal_strlit("replica for peer ");
                reveal_strlit(" is already registered");
            }
            let error = text_with_number("replica for peer ", *peer_id, " is already registered");
            assert(error@[0] == 'r');
            assert(state_not_saved()[0] == 'F');
            return Err(CollectionError::service_error(error));
        }
        let mut candidate = self.replica_state.copy();
        candidate.insert(*peer_id, false);
        proof {
            crate::id_map::lemma_position_of(old(self).replica_state.entries(), *peer_id);
            crate::id_map::lemma_push_entry(old(self).replica_state.entries(), *peer_id, false);
        }
        if self.commit_state(candidate, persist) {
            Ok(())
        } else {
            Err(CollectionError::service_error("Failed to save the replica state".to_string()))
        }
    }

    /// Puts a forward proxy to `remote_shard` around the local replica.
    ///
    /// Fails with a service error when this peer holds no replica or the
    /// replica is not a plain local shard; the set is then unchanged.
    pub fn proxify_local(&mut self, remote_shard: RemoteShard) -> (r: Result<(), CollectionError>)
        requires
            old(self).wf(),
        ensures
            final(self).wf(),
            final(self).shard_id == old(self).shard_id,
            final(self).this_peer_id == old(self).this_peer_id,
            final(self).remotes == old(self).remotes,
            final(self).replica_state == old(self).replica_state,
            final(self).read_remote_replicas == old(self).read_remote_replicas,
            old(self).consistent() ==> final(self).consistent(),
            match old(self).local {
                Some(shard) => match *shard {
                    Shard::Local(local) => r is Ok && final(self).local == Some(
                        Box::new(
                            Shard::ForwardProxy(
                                ForwardProxyShard { wrapped_shard: local, remote_shard },
                            ),
                        ),
                    ),
                    _ => is_service_error(
                        r,
                        numbered(
                            "cannot proxy the local replica of shard "@,
                            old(self).shard_id as nat,
                            ": it is behind a proxy already"@,
                        ),
                    ) && final(self).local == old(self).local,
                },
                None => is_service_error(r, "cannot proxy absent local shard"@) && final(
                    self).local.is_none(),
            },
    {
        match self.local.take() {
            Some(shard) => {
                let shard = *shard;
                match shard {
                    Shard::Local(local) => {
                        let proxy = ForwardProxyShard::new(local, remote_shard);
                        self.local = Some(Box::new(Shard::ForwardProxy(proxy)));
                        Ok(())
                    },
                    other => {
                        let error = text_with_number(
                            "cannot proxy the local replica of shard ",
                            self.shard_id as u64,
                            ": it is behind a proxy already",
                        );
                        self.local = Some(Box::new(other));
                        Err(CollectionError::service_error(error))
                    },
                }
            },
            None => Err(
                CollectionError::service_error("cannot proxy absent local shard".to_string()),
            ),
        }
    }
}

/// The text of the error of a replica set without an active replica.
pub open spec fn is_no_active_replica<T>(r: Result<T, CollectionError>, shard_id: ShardId, peer_id: PeerId) -> bool {
    r matches Err(CollectionError::ServiceError { error }) && error@
        == "The replica set for shard "@ + crate::types::decimal(shard_id as nat) + " on peer "@
        + crate::types::decimal(peer_id as nat) + " has no active replica"@
}

impl<L> ReplicaSet<L> {
    /// The remote peers that are recorded as active, in the order of the
    /// remote replicas.
    pub open spec fn active_remotes(&self) -> Seq<PeerId> {
        active_peers(self.remotes@, self.replica_state.entries())
    }

    /// True when this peer holds a replica that is recorded as active.
    pub open spec fn local_is_active(&self) -> bool {
        self.local.is_some() && self.is_active(self.this_peer_id)
    }

    /// The remote peers that are recorded as active.
    pub fn active_remote_peers(&self) -> (peers: Vec<PeerId>)
        ensures
            peers@ == self.active_remotes(),
    {
        let mut peers: Vec<PeerId> = Vec::new();
        let ghost pred = |p: PeerId| is_active_in(self.replica_state.entries(), p);
        let mut i: usize = 0;
        while i < self.remotes.len()
            invariant
                i <= self.remotes.len(),
                pred == (|p: PeerId| is_active_in(self.replica_state.entries(), p)),
                peers@ == remote_peers(self.remotes@.take(i as int)).filter(pred),
            decreases self.remotes.len() - i,
        {
            let peer = self.remotes[i].peer_id;
            assert(self.remotes@.take(i + 1) == self.remotes@.take(i as int).push(
                self.remotes@[i as int],
            ));
            assert(remote_peers(self.remotes@.take(i + 1)) == remote_peers(
                self.remotes@.take(i as int),
            ).push(peer));
            proof {
                remote_peers(self.remotes@.take(i as int)).lemma_filter_push(peer, pred);
            }
            if self.peer_is_active(&peer) {
                peers.push(peer);
            }
            i += 1;
        }
        assert(self.remotes@.take(i as int) == self.remotes@);
        peers
    }

    fn no_active_replica(&self) -> (e: CollectionError)
        ensures
            is_no_active_replica::<()>(Err(e), self.shard_id, self.this_peer_id),
    {
        let head = text_with_number(
            "The replica set for shard ",
            self.shard_id as u64,
            " on peer ",
        );
        let error = text_with_number(head.as_str(), self.this_peer_id, " has no active replica");
        assert(error@ == "The replica set for shard "@ + crate::types::decimal(
            self.shard_id as nat,
        ) + " on peer "@ + crate::types::decimal(self.this_peer_id as nat)
            + " has no active replica"@);
        CollectionError::service_error(error)
    }

    /// The replicas that a write goes to: the local one if it is active, and
    /// every active remote one.
    ///
    /// Fails with a service error when no replica is active.
    pub fn update_plan(&self) -> (r: Result<UpdatePlan, CollectionError>)
        ensures
            self.active_remotes().len() == 0 && !self.local_is_active() ==> is_no_active_replica(
                r,
                self.shard_id,
                self.this_peer_id,
            ),
            self.active_remotes().len() > 0 || self.local_is_active() ==> r is Ok
                && r->Ok_0.local == self.local_is_active() && r->Ok_0.remotes@
                == self.active_remotes(),
    {
        let remotes = self.active_remote_peers();
        let local = self.local.is_some() && self.peer_is_active(&self.this_peer_id);
        if remotes.len() == 0 && !local {
            return Err(self.no_active_replica());
        }
        Ok(UpdatePlan { local, remotes })
    }

    /// What an update returns once its writes have ended, and the peer to
    /// report as failing.
    ///
    /// When every replica replied, the result is the first reply: that of the
    /// first remote replica, or that of the local replica when no remote
    /// replica took part. A failure is returned with its peer named in
    /// front of what it says, and the peer is reported.
    pub fn conclude_update<R>(outcome: UpdateOutcome<R>) -> (c: UpdateConclusion<R>)
        ensures
            match outcome {
                UpdateOutcome::Replied { remote, local } => c.failed_peer.is_none() && (
                if remote.len() > 0 {
                    c.result == Ok::<R, CollectionError>(remote@[0])
                } else {
                    match local {
                        Some(reply) => c.result == Ok::<R, CollectionError>(reply),
                        None => is_service_error(c.result, "None of the replicas replied"@),
                    }
                }),
                UpdateOutcome::Failed { peer_id, error } => c.failed_peer == Some(peer_id) && (
                c.result matches Err(told) && told.is_on_peer(error, peer_id)),
            },
    {
        match outcome {
            UpdateOutcome::Replied { remote, local } => {
                let mut remote = remote;
                if remote.len() > 0 {
                    let first = remote.swap_remove(0);
                    UpdateConclusion { result: Ok(first), failed_peer: None }
                } else {
                    match local {
                        Some(reply) => UpdateConclusion { result: Ok(reply), failed_peer: None },
                        None => UpdateConclusion {
                            result: Err(
                                CollectionError::service_error(
                                    "None of the replicas replied".to_string(),
                                ),
                            ),
                            failed_peer: None,
                        },
                    }
                }
            },
            UpdateOutcome::Failed { peer_id, error } => UpdateConclusion {
                result: Err(error.on_peer(peer_id)),
                failed_peer: Some(peer_id),
            },
        }
    }

    /// Number of remote replicas that a read is first sent to.
    pub open spec fn fan_out(&self) -> int {
        if self.active_remotes().len() <= self.read_remote_replicas {
            self.active_remotes().len() as int
        } else {
            self.read_remote_replicas as int
        }
    }

    fn read_remotes<R>(&self, captured: Option<CollectionError>) -> (step: ReadStep<R>)
        ensures
            self.turns_to_remotes(step, captured),
    {
        let mut peers = self.active_remote_peers();
        if peers.len() == 0 {
            return match captured {
                Some(error) => ReadStep::Done(Err(error)),
                None => ReadStep::Done(Err(self.no_active_replica())),
            };
        }
        if peers.len() > self.read_remote_replicas as usize {
            peers.truncate(self.read_remote_replicas as usize);
        }
        assert(peers@ =~= self.active_remotes().take(self.fan_out()));
        ReadStep::QueryFanOut { peers, local_error: captured }
    }

    /// Decides the next step of a read.
    ///
    /// A read goes to the local replica if it is active. If that fails or is
    /// not possible, it goes to the first active remote replicas, as many as
    /// `read_remote_replicas`, and then to the remaining active ones. The
    /// first success ends the read. When every replica that was read has
    /// failed, the read returns the first error: that of the local replica if
    /// it was read, else the first of the first group of remote replicas. A
    /// set without any active replica fails with a service error.
    pub fn read_step<R>(&self, progress: ReadProgress<R>) -> (step: ReadStep<R>)
        ensures
            match progress {
                ReadProgress::Start => if self.local_is_active() {
                    step is QueryLocal
                } else {
                    self.turns_to_remotes(step, None)
                },
                ReadProgress::Local(Ok(reply)) => step == ReadStep::Done(
                    Ok::<R, CollectionError>(reply),
                ),
                ReadProgress::Local(Err(error)) => self.turns_to_remotes(step, Some(error)),
                ReadProgress::FanOut { local_error, results } => if first_ok(results@)
                    < results.len() {
                    step == ReadStep::Done(results@[first_ok(results@)])
                } else {
                    match first_error(local_error, results@) {
                        None => step matches ReadStep::Done(r) && is_service_error(
                            r,
                            "no replica was read"@,
                        ),
                        Some(first) => if self.fan_out() < self.active_remotes().len() {
                            step == (ReadStep::QueryFallback::<R> {
                                peers: step->QueryFallback_peers,
                                captured: first,
                            }) && step->QueryFallback_peers@ == self.active_remotes().skip(
                                self.fan_out(),
                            )
                        } else {
                            step == ReadStep::Done(Err::<R, CollectionError>(first))
                        },
                    }
                },
                ReadProgress::Fallback { captured, results } => if first_ok(results@)
                    < results.len() {
                    step == ReadStep::Done(results@[first_ok(results@)])
                } else {
                    step == ReadStep::Done(Err::<R, CollectionError>(captured))
                },
            },
    {
        match progress {
            ReadProgress::Start => {
                if self.local.is_some() && self.peer_is_active(&self.this_peer_id) {
                    ReadStep::QueryLocal
                } else {
                    self.read_remotes(None)
                }
            },
            ReadProgress::Local(Ok(reply)) => ReadStep::Done(Ok(reply)),
            ReadProgress::Local(Err(error)) => self.read_remotes(Some(error)),
            ReadProgress::FanOut { local_error: captured, results } => {
                proof {
                    lemma_first_ok(results@);
                }
                let first = match first_success(results) {
                    Some(Ok(reply)) => {
                        return ReadStep::Done(Ok(reply));
                    },
                    Some(Err(remote)) => match captured {
                        Some(local) => local,
                        None => remote,
                    },
                    None => match captured {
                        Some(local) => local,
                        None => {
                            return ReadStep::Done(
                                Err(
                                    CollectionError::service_error("no replica was read".to_string()),
                                ),
                            );
                        },
                    },
                };
                let mut peers = self.active_remote_peers();
                let k = self.read_remote_replicas as usize;
                if k < peers.len() {
                    let rest = peers.split_off(k);
                    assert(rest@ =~= self.active_remotes().skip(self.fan_out()));
                    ReadStep::QueryFallback { peers: rest, captured: first }
                } else {
                    ReadStep::Done(Err(first))
                }
            },
            ReadProgress::Fallback { captured, results } => {
                proof {
                    lemma_first_ok(results@);
                }
                match first_success(results) {
                    Some(Ok(reply)) => ReadStep::Done(Ok(reply)),
                    _ => ReadStep::Done(Err(captured)),
                }
            },
        }
    }

    /// The step of a read that turns to the remote replicas, with
    /// `captured` as the error of the local replica if it was read: the
    /// first group of active ones. Without an active one the read ends, with
    /// the error of the local replica, or with the error of a set without an
    /// active replica when nothing was read.
    pub open spec fn turns_to_remotes<R>(
        &self,
        step: ReadStep<R>,
        captured: Option<CollectionError>,
    ) -> bool {
        if self.active_remotes().len() == 0 {
            match captured {
                Some(error) => step == ReadStep::Done(Err::<R, CollectionError>(error)),
                None => step is Done && is_no_active_replica(
                    step->Done_0,
                    self.shard_id,
                    self.this_peer_id,
                ),
            }
        } else {
            step == (ReadStep::QueryFanOut::<R> {
                peers: step->QueryFanOut_peers,
                local_error: captured,
            }) && step->QueryFanOut_peers@ == self.active_remotes().take(self.fan_out())
        }
    }
}

/// The entries that record every peer of `peers` as active.
pub open spec fn all_active(peers: Seq<PeerId>) -> Seq<(PeerId, bool)> {
    peers.map_values(|p: PeerId| (p, true))
}

/// The remote shards of `shard_id` on `peers`.
pub open spec fn remotes_on(shard_id: ShardId, peers: Seq<PeerId>) -> Seq<RemoteShard> {
    peers.map_values(|p: PeerId| RemoteShard { id: shard_id, peer_id: p })
}

impl<L> ReplicaSet<L> {
    /// Builds the replica set of `shard_id` as seen from `this_peer_id`: with
    /// `local` as the replica on this peer, if there is one, and a remote
    /// replica on each peer of `remotes`. Every replica starts active. The
    /// state is saved; if that fails, no set is built.
    ///
    /// Fails with `BadRequest` when a peer is named twice among `remotes` or
    /// this peer is among them.
    pub fn build<P: Fn(&ReplicaState) -> bool>(
        shard_id: ShardId,
        this_peer_id: PeerId,
        local: Option<L>,
        remotes: &Vec<PeerId>,
        persist: P,
    ) -> (r: Result<Self, CollectionError>)
        requires
            forall|m: &ReplicaState| call_requires(persist, (m,)),
        ensures
            !(remotes@.no_duplicates() && !remotes@.contains(this_peer_id)) ==> is_bad_request(
                r,
                remotes_fault(shard_id),
            ),
            remotes@.no_duplicates() && !remotes@.contains(this_peer_id) ==> r is Ok
                || is_state_not_saved(r),
            always_saves(persist) ==> !is_state_not_saved(r),
            r is Ok ==> {
                let set = r->Ok_0;
                &&& set.wf()
                &&& set.consistent()
                &&& set.shard_id == shard_id
                &&& set.this_peer_id == this_peer_id
                &&& set.local == match local {
                    Some(l) => Some(Box::new(Shard::Local(l))),
                    None => None,
                }
                &&& set.remotes@ == remotes_on(shard_id, remotes@)
                &&& set.replica_state.entries() == if local.is_some() {
                    seq![(this_peer_id, true)] + all_active(remotes@)
                } else {
                    all_active(remotes@)
                }
                &&& set.read_remote_replicas == READ_REMOTE_REPLICAS
                &&& call_ensures(persist, (&set.replica_state,), true)
            },
            is_state_not_saved(r) ==> exists|c: ReplicaState|
                #![auto]
                c.entries() == (if local.is_some() {
                    seq![(this_peer_id, true)] + all_active(remotes@)
                } else {
                    all_active(remotes@)
                }) && call_ensures(persist, (&c,), false),
    {
        if !are_remote_peers(remotes, this_peer_id) {
            return Err(
                CollectionError::BadRequest {
                    description: text_with_number(
                        "the remote replicas of shard ",
                        shard_id as u64,
                        " are not on distinct peers other than this one",
                    ),
                },
            );
        }
        let mut state: ReplicaState = IdMap::new();
        if local.is_some() {
            state.insert(this_peer_id, true);
        }
        let ghost head = state.entries();
        let mut shards: Vec<RemoteShard> = Vec::new();
        let mut i: usize = 0;
        while i < remotes.len()
            invariant
                i <= remotes.len(),
                remotes@.no_duplicates(),
                !remotes@.contains(this_peer_id),
                state.wf(),
                head == (if local.is_some() {
                    seq![(this_peer_id, true)]
                } else {
                    Seq::<(PeerId, bool)>::empty()
                }),
                state.entries() == head + all_active(remotes@.take(i as int)),
                shards@ == remotes_on(shard_id, remotes@.take(i as int)),
            decreases remotes.len() - i,
        {
            let peer = remotes[i];
            let ghost before = state.entries();
            proof {
                assert forall|j: int| 0 <= j < before.len() implies before[j].0 != peer by {
                    if j < head.len() {
                    } else {
                        assert(before[j] == all_active(remotes@.take(i as int))[j - head.len()]);
                        assert(before[j].0 == remotes@[j - head.len()]);
                    }
                }
                crate::id_map::lemma_position_absent(before, peer);
            }
            state.insert(peer, true);
            shards.push(RemoteShard { id: shard_id, peer_id: peer });
            assert(remotes@.take(i + 1) == remotes@.take(i as int).push(peer));
            assert(state.entries() =~= head + all_active(remotes@.take(i + 1)));
            assert(shards@ =~= remotes_on(shard_id, remotes@.take(i + 1)));
            i += 1;
        }
        assert(remotes@.take(i as int) == remotes@);
        let saved = persist(&state);
        if !saved {
            return Err(
                CollectionError::service_error("Failed to save the replica state".to_string()),
            );
        }
        let set = ReplicaSet {
            shard_id,
            this_peer_id,
            local: match local {
                Some(l) => Some(Box::new(Shard::Local(l))),
                None => None,
            },
            remotes: shards,
            replica_state: state,
            read_remote_replicas: READ_REMOTE_REPLICAS,
        };
        proof {
            let entries = set.replica_state.entries();
            assert forall|p: PeerId| set.replica_state.has(p) <==> set.has_replica(p) by {
                crate::id_map::lemma_position_of(entries, p);
                if set.has_replica(p) {
                    if local.is_some() && p == this_peer_id {
                        crate::id_map::lemma_position_found(entries, p, 0);
                    } else {
                        let k = choose|k: int|
                            0 <= k < set.remotes@.len() && (#[trigger] set.remotes@[k]).peer_id
                                == p;
                        assert(entries[head.len() + k].0 == p);
                        if position_of(entries, p) >= entries.len() {
                            assert(entries[head.len() + k].0 != p);
                        }
                    }
                }
                if set.replica_state.has(p) {
                    let q = position_of(entries, p);
                    if q >= head.len() {
                        assert(set.remotes@[q - head.len()].peer_id == p);
                    }
                }
            }
        }
        Ok(set)
    }

    /// Removes the replica on `peer_id`, together with its recorded state,
    /// which is saved first. A replica on this peer is handed back, for the
    /// caller to release what it holds.
    ///
    /// Fails with a service error when `peer_id` holds no replica or the
    /// state could not be saved; the set is then unchanged.
    pub fn remove_replica<P: Fn(&ReplicaState) -> bool>(
        &mut self,
        peer_id: &PeerId,
        persist: P,
    ) -> (r: Result<Option<Shard<L>>, CollectionError>)
        requires
            old(self).wf(),
            forall|m: &ReplicaState| call_requires(persist, (m,)),
        ensures
            always_saves(persist) ==> !is_state_not_saved(r),
            final(self).wf(),
            final(self).shard_id == old(self).shard_id,
            final(self).this_peer_id == old(self).this_peer_id,
            final(self).read_remote_replicas == old(self).read_remote_replicas,
            old(self).consistent() ==> final(self).consistent(),
            r is Err ==> *final(self) == *old(self),
            !old(self).has_replica(*peer_id) ==> is_service_error(
                r,
                if *peer_id == old(self).this_peer_id {
                    numbered(
                        "replica set "@,
                        old(self).shard_id as nat,
                        " should contain a local shard"@,
                    )
                } else {
                    numbered(
                        numbered(
                            "replica set "@,
                            old(self).shard_id as nat,
                            " should contain a remote shard for peer "@,
                        ),
                        *peer_id as nat,
                        ""@,
                    )
                },
            ) && !is_state_not_saved(r),
            old(self).has_replica(*peer_id) ==> r is Ok || is_state_not_saved(r),
            old(self).has_replica(*peer_id) && always_saves(persist) ==> r is Ok,
            r is Ok ==> {
                &&& call_ensures(persist, (&final(self).replica_state,), true)
                &&& final(self).replica_state@ == old(self).replica_state@.remove(*peer_id)
                &&& !final(self).has_replica(*peer_id)
                &&& forall|q: PeerId|
                    q != *peer_id ==> final(self).has_replica(q) == old(self).has_replica(q)
                &&& if *peer_id == old(self).this_peer_id {
                    &&& old(self).local.is_some()
                    &&& r->Ok_0 == Some(*old(self).local->Some_0)
                    &&& final(self).local.is_none()
                    &&& final(self).remotes == old(self).remotes
                } else {
                    &&& r->Ok_0.is_none()
                    &&& final(self).local == old(self).local
                    &&& exists|i: int|
                        0 <= i < old(self).remotes@.len() && (#[trigger] old(
                            self).remotes@[i]).peer_id == *peer_id && final(self).remotes@ == old(
                            self).remotes@.remove(i)
                }
            },
    {
        proof {
            reveal_strlit("Failed to save the replica state");
            reveal_strlit("replica set ");
        }
        if *peer_id == self.this_peer_id {
            if self.local.is_none() {
                let error = text_with_number(
                    "replica set ",
                    self.shard_id as u64,
                    " should contain a local shard",
                );
                assert(error@[0] == 'r');
                assert(state_not_saved()[0] == 'F');
                return Err(CollectionError::service_error(error));
            }
            let mut candidate = self.replica_state.copy();
            candidate.remove(*peer_id);
            if !self.commit_state(candidate, persist) {
                return Err(
                    CollectionError::service_error("Failed to save the replica state".to_string()),
                );
            }
            let local = self.local.take();
            proof {
                assert forall|p: PeerId| old(self).consistent() implies (final(
                    self).replica_state.has(p) <==> final(self).has_replica(p)) by {
                    assert(final(self).replica_state@.dom().contains(p) == final(
                        self).replica_state.has(p));
                    assert(old(self).replica_state@.dom().contains(p) == old(
                        self).replica_state.has(p));
                    assert(old(self).replica_state.has(p) <==> old(self).has_replica(p));
                }
            }
            match local {
                Some(shard) => Ok(Some(*shard)),
                None => Ok(None),
            }
        } else {
            let mut found: Option<usize> = None;
            let mut i: usize = 0;
            while i < self.remotes.len() && found.is_none()
                invariant
                    i <= self.remotes.len(),
                    forall|j: int|
                        0 <= j < i && found.is_none() ==> (#[trigger] self.remotes@[j]).peer_id
                            != *peer_id,
                    found matches Some(k) ==> k < self.remotes.len() && self.remotes@[k as int].peer_id
                        == *peer_id,
                decreases self.remotes.len() - i + (if found.is_none() { 1int } else { 0int }),
            {
                if self.remotes[i].peer_id == *peer_id {
                    found = Some(i);
                } else {
                    i += 1;
                }
            }
            match found {
                None => {
                    let head = text_with_number(
                        "replica set ",
                        self.shard_id as u64,
                        " should contain a remote shard for peer ",
                    );
                    let error = text_with_number(head.as_str(), *peer_id, "");
                    assert(error@[0] == 'r');
                    assert(state_not_saved()[0] == 'F');
                    Err(CollectionError::service_error(error))
                },
                Some(k) => {
                    let mut candidate = self.replica_state.copy();
                    candidate.remove(*peer_id);
                    if !self.commit_state(candidate, persist) {
                        return Err(
                            CollectionError::service_error(
                                "Failed to save the replica state".to_string(),
                            ),
                        );
                    }
                    self.remotes.remove(k);
                    proof {
                        let before = old(self).remotes@;
                        let after = final(self).remotes@;
                        assert(forall|j: int| 0 <= j < k ==> #[trigger] after[j] == before[j]);
                        assert(forall|j: int|
                            k <= j < after.len() ==> #[trigger] after[j] == before[j + 1]);
                        assert forall|q: PeerId| q != *peer_id implies has_remote(after, q)
                            == has_remote(before, q) by {
                            if has_remote(before, q) {
                                let a = choose|a: int|
                                    0 <= a < before.len() && (#[trigger] before[a]).peer_id == q;
                                if a < k {
                                    assert(after[a].peer_id == q);
                                } else {
                                    assert(after[a - 1].peer_id == q);
                                }
                            }
                            if has_remote(after, q) {
                                let a = choose|a: int|
                                    0 <= a < after.len() && (#[trigger] after[a]).peer_id == q;
                                if a < k {
                                    assert(before[a].peer_id == q);
                                } else {
                                    assert(before[a + 1].peer_id == q);
                                }
                            }
                        }
                        assert(!has_remote(after, *peer_id)) by {
                            if has_remote(after, *peer_id) {
                                let a = choose|a: int|
                                    0 <= a < after.len() && (#[trigger] after[a]).peer_id
                                        == *peer_id;
                                if a < k {
                                    assert(before[a].peer_id == *peer_id);
                                } else {
                                    assert(before[a + 1].peer_id == *peer_id);
                                }
                            }
                        }
                        assert forall|p: PeerId| old(self).consistent() implies (final(
                            self).replica_state.has(p) <==> final(self).has_replica(p)) by {
                            assert(final(self).replica_state@.dom().contains(p) == final(
                                self).replica_state.has(p));
                            assert(old(self).replica_state@.dom().contains(p) == old(
                                self).replica_state.has(p));
                            assert(old(self).replica_state.has(p) <==> old(self).has_replica(p));
                        }
                    }
                    Ok(None)
                },
            }
        }
    }
}

impl<L> ReplicaSet<L> {
    /// The remote shards of `remotes` whose peer `target` knows, in order.
    pub open spec fn kept_remotes(remotes: Seq<RemoteShard>, target: Seq<(PeerId, bool)>) -> Seq<
        RemoteShard,
    > {
        remotes.filter(|r: RemoteShard| position_of(target, r.peer_id) < target.len())
    }

    /// Brings the set to the state `replicas`: replicas on peers that
    /// `replicas` does not know are removed, and the others are recorded as
    /// active or not as `replicas` says. The new state is saved before
    /// anything changes. A replica removed from this peer is handed back, for
    /// the caller to release what it holds.
    ///
    /// Fails with `BadRequest` when `replicas` knows a peer that holds no
    /// replica of this set, and with a service error when the state could
    /// not be saved; the set is then unchanged.
    pub fn apply_state<P: Fn(&ReplicaState) -> bool>(
        &mut self,
        replicas: &ReplicaState,
        persist: P,
    ) -> (r: Result<Option<Shard<L>>, CollectionError>)
        requires
            old(self).wf(),
            old(self).consistent(),
            replicas.wf(),
            forall|m: &ReplicaState| call_requires(persist, (m,)),
        ensures
            always_saves(persist) ==> !is_state_not_saved(r),
            final(self).wf(),
            final(self).consistent(),
            final(self).shard_id == old(self).shard_id,
            final(self).this_peer_id == old(self).this_peer_id,
            final(self).read_remote_replicas == old(self).read_remote_replicas,
            r is Err ==> *final(self) == *old(self),
            (exists|p: PeerId| replicas.has(p) && !old(self).has_replica(p)) ==> exists|p: PeerId|
                replicas.has(p) && !old(self).has_replica(p) && #[trigger] is_bad_request(
                    r,
                    numbered("no replica on peer "@, p as nat, " to apply a state to"@),
                ),
            (forall|p: PeerId| replicas.has(p) ==> old(self).has_replica(p)) ==> r is Ok
                || is_state_not_saved(r),
            (forall|p: PeerId| replicas.has(p) ==> old(self).has_replica(p)) && always_saves(
                persist,
            ) ==> r is Ok,
            r is Ok ==> {
                &&& call_ensures(persist, (&final(self).replica_state,), true)
                &&& final(self).replica_state@ == replicas@
                &&& forall|p: PeerId| #[trigger] final(self).has_replica(p) <==> replicas.has(p)
                &&& final(self).remotes@ == Self::kept_remotes(
                    old(self).remotes@,
                    replicas.entries(),
                )
                &&& if replicas.has(old(self).this_peer_id) {
                    final(self).local == old(self).local && r->Ok_0.is_none()
                } else {
                    final(self).local.is_none() && r->Ok_0 == match old(self).local {
                        Some(shard) => Some(*shard),
                        None => None,
                    }
                }
            },
    {
        let ghost target = replicas.entries();
        let ghost known = self.replica_state.entries();
        let mut j: usize = 0;
        while j < replicas.len()
            invariant
                j <= target.len(),
                target == replicas.entries(),
                known == self.replica_state.entries(),
                *self == *old(self),
                self.wf(),
                self.consistent(),
                replicas.wf(),
                forall|k: int| 0 <= k < j ==> self.replica_state.has((#[trigger] target[k]).0),
            decreases target.len() - j,
        {
            let peer = replicas.id_at(j);
            if !self.replica_state.contains(peer) {
                let failure: Result<Option<Shard<L>>, CollectionError> = Err(
                    CollectionError::BadRequest {
                        description: text_with_number(
                            "no replica on peer ",
                            peer,
                            " to apply a state to",
                        ),
                    },
                );
                proof {
                    crate::id_map::lemma_position_of_entry(target, j as int);
                    assert(replicas.has(peer) && !old(self).has_replica(peer) && is_bad_request(
                        failure,
                        numbered("no replica on peer "@, peer as nat, " to apply a state to"@),
                    ));
                }
                return failure;
            }
            j += 1;
        }
        assert forall|p: PeerId| replicas.has(p) implies self.replica_state.has(p) by {
            crate::id_map::lemma_position_of(target, p);
            assert(target[position_of(target, p)].0 == p);
        }
        let mut candidate: ReplicaState = IdMap::new();
        assert forall|p: PeerId|
            #[trigger] candidate@.dom().contains(p) <==> (replicas.has(p) && position_of(known, p)
                < 0) by {
            crate::id_map::lemma_position_of(candidate.entries(), p);
            crate::id_map::lemma_position_of(known, p);
        }
        let mut i: usize = 0;
        while i < self.replica_state.len()
            invariant
                i <= known.len(),
                target == replicas.entries(),
                known == self.replica_state.entries(),
                *self == *old(self),
                self.replica_state.wf(),
                replicas.wf(),
                candidate.wf(),
                forall|p: PeerId|
                    #[trigger] candidate@.dom().contains(p) <==> (replicas.has(p) && position_of(
                        known,
                        p,
                    ) < i),
                forall|p: PeerId|
                    #[trigger] candidate@.dom().contains(p) ==> candidate@[p] == replicas.value(p),
            decreases known.len() - i,
        {
            let peer = self.replica_state.id_at(i);
            let ghost earlier = candidate@;
            match replicas.get(peer) {
                Some(active) => {
                    candidate.insert(peer, *active);
                },
                None => {},
            }
            proof {
                crate::id_map::lemma_position_of_entry(known, i as int);
                assert forall|p: PeerId|
                    #[trigger] candidate@.dom().contains(p) <==> (replicas.has(p) && position_of(
                        known,
                        p,
                    ) < i + 1) by {
                    crate::id_map::lemma_position_of(known, p);
                    assert(earlier.dom().contains(p) <==> (replicas.has(p) && position_of(known, p)
                        < i));
                    if p != peer && position_of(known, p) == i {
                        assert(false);
                    }
                }
                assert forall|p: PeerId| #[trigger]
                    candidate@.dom().contains(p) implies candidate@[p] == replicas.value(p) by {
                    if p != peer {
                        assert(earlier.dom().contains(p));
                    }
                }
            }
            i += 1;
        }
        assert(candidate@ =~= replicas@) by {
            assert forall|p: PeerId| candidate@.dom().contains(p) == replicas@.dom().contains(
                p,
            ) by {
                crate::id_map::lemma_position_of(known, p);
                if replicas.has(p) {
                    assert(self.replica_state.has(p));
                }
            }
        }
        if !self.commit_state(candidate, persist) {
            return Err(
                CollectionError::service_error("Failed to save the replica state".to_string()),
            );
        }
        let ghost pred = |r: RemoteShard| position_of(target, r.peer_id) < target.len();
        let ghost before = self.remotes@;
        let mut kept: Vec<RemoteShard> = Vec::new();
        let mut n: usize = 0;
        while n < self.remotes.len()
            invariant
                n <= self.remotes.len(),
                before == self.remotes@,
                target == replicas.entries(),
                pred == (|r: RemoteShard| position_of(target, r.peer_id) < target.len()),
                distinct_remotes(before, self.this_peer_id),
                kept@ == before.take(n as int).filter(pred),
                distinct_remotes(kept@, self.this_peer_id),
                forall|k: int|
                    0 <= k < kept@.len() ==> pred(#[trigger] kept@[k]) && exists|m: int|
                        0 <= m < n && before[m] == kept@[k],
                forall|m: int| 0 <= m < n && pred(#[trigger] before[m]) ==> has_remote(kept@, before[m].peer_id),
            decreases self.remotes.len() - n,
        {
            let remote = self.remotes[n];
            proof {
                assert(before.take(n + 1) == before.take(n as int).push(remote));
                before.take(n as int).lemma_filter_push(remote, pred);
            }
            let ghost earlier = kept@;
            if replicas.contains(remote.peer_id) {
                kept.push(remote);
                proof {
                    assert forall|m: int| 0 <= m < n && pred(#[trigger] before[m]) implies has_remote(kept@, before[m].peer_id) by {
                        let a = choose|a: int| 0 <= a < earlier.len() && (#[trigger] earlier[a]).peer_id == before[m].peer_id;
                        assert(kept@[a].peer_id == before[m].peer_id);
                    }
                    assert(kept@[kept@.len() - 1].peer_id == remote.peer_id);
                }
            }
            n += 1;
        }
        assert(before.take(n as int) == before);
        self.remotes = kept;
        let dropped = if replicas.contains(self.this_peer_id) {
            None
        } else {
            self.local.take()
        };
        proof {
            let after = final(self).remotes@;
            assert forall|p: PeerId| final(self).has_replica(p) <==> replicas.has(p) by {
                assert(old(self).replica_state.has(p) <==> old(self).has_replica(p));
                if replicas.has(p) {
                    if has_remote(before, p) {
                        let m = choose|m: int|
                            0 <= m < before.len() && (#[trigger] before[m]).peer_id == p;
                        assert(pred(before[m]));
                    }
                }
                if has_remote(after, p) {
                    let k = choose|k: int|
                        0 <= k < after.len() && (#[trigger] after[k]).peer_id == p;
                    assert(pred(after[k]));
                }
            }
            assert forall|p: PeerId| final(self).replica_state.has(p) <==> final(
                self).has_replica(p) by {
                assert(final(self).replica_state@.dom().contains(p) == final(
                    self).replica_state.has(p));
                assert(replicas@.dom().contains(p) == replicas.has(p));
            }
        }
        match dropped {
            Some(shard) => Ok(Some(*shard)),
            None => Ok(None),
        }
    }
}

/// After a state was applied, the set holds a replica for each peer of the
/// state: at least one when the state is not empty. The replica on this peer
/// was handed back for release exactly when this peer held one and the state
/// leaves it out.
pub proof fn lemma_applied_state_keeps_a_replica<L>(
    before: ReplicaSet<L>,
    after: ReplicaSet<L>,
    replicas: ReplicaState,
    dropped: Option<Shard<L>>,
)
    requires
        replicas.wf(),
        replicas.entries().len() > 0,
        after.this_peer_id == before.this_peer_id,
        forall|p: PeerId| #[trigger] after.has_replica(p) <==> replicas.has(p),
        if replicas.has(before.this_peer_id) {
            after.local == before.local && dropped.is_none()
        } else {
            after.local.is_none() && dropped == match before.local {
                Some(shard) => Some(*shard),
                None => None,
            }
        },
    ensures
        exists|p: PeerId| after.has_replica(p),
        after.remotes@.len() + (if after.local.is_some() { 1int } else { 0int }) >= 1,
        dropped.is_some() <==> before.local.is_some() && !replicas.has(before.this_peer_id),
{
    let p = replicas.entries()[0].0;
    crate::id_map::lemma_position_found(replicas.entries(), p, 0);
    assert(replicas.has(p));
    assert(after.has_replica(p));
    if !(after.local.is_some() && p == after.this_peer_id) {
        let i = choose|i: int|
            0 <= i < after.remotes@.len() && (#[trigger] after.remotes@[i]).peer_id == p;
    }
}

impl<L> ReplicaSet<L> {
    /// Makes `local` the replica on this peer, which is known and holds
    /// none yet.
    pub(crate) fn attach_local(&mut self, local: L)
        requires
            old(self).wf(),
            old(self).local.is_none(),
            old(self).replica_state.has(old(self).this_peer_id),
            forall|p: PeerId|
                p != old(self).this_peer_id ==> (old(self).replica_state.has(p) <==> old(
                    self).has_replica(p)),
        ensures
            final(self).wf(),
            final(self).consistent(),
            final(self).local == Some(Box::new(Shard::Local(local))),
            final(self).shard_id == old(self).shard_id,
            final(self).this_peer_id == old(self).this_peer_id,
            final(self).remotes == old(self).remotes,
            final(self).replica_state == old(self).replica_state,
            final(self).read_remote_replicas == old(self).read_remote_replicas,
    {
        self.local = Some(Box::new(Shard::Local(local)));
    }

    /// Adds a remote replica on `peer_id`, which is known, is not this peer
    /// and holds none yet.
    pub(crate) fn attach_remote(&mut self, peer_id: PeerId)
        requires
            old(self).wf(),
            peer_id != old(self).this_peer_id,
            old(self).replica_state.has(peer_id),
            forall|p: PeerId|
                p != peer_id ==> (old(self).replica_state.has(p) <==> old(self).has_replica(p)),
            !old(self).has_replica(peer_id),
        ensures
            final(self).wf(),
            final(self).consistent(),
            final(self).remotes@ == old(self).remotes@.push(
                RemoteShard { id: old(self).shard_id, peer_id },
            ),
            final(self).local == old(self).local,
            final(self).shard_id == old(self).shard_id,
            final(self).this_peer_id == old(self).this_peer_id,
            final(self).replica_state == old(self).replica_state,
            final(self).read_remote_replicas == old(self).read_remote_replicas,
    {
        self.remotes.push(RemoteShard { id: self.shard_id, peer_id });
        proof {
            let before = old(self).remotes@;
            let after = self.remotes@;
            assert(forall|i: int| 0 <= i < before.len() ==> #[trigger] after[i] == before[i]);
            assert(after[before.len() as int].peer_id == peer_id);
            assert forall|i: int, j: int| 0 <= i < j < after.len() implies (
            #[trigger] after[i]).peer_id != (#[trigger] after[j]).peer_id by {
                if j == before.len() {
                    assert(before[i].peer_id != peer_id);
                }
            }
            assert forall|p: PeerId| self.replica_state.has(p) <==> self.has_replica(p) by {
                if has_remote(before, p) {
                    let i = choose|i: int|
                        0 <= i < before.len() && (#[trigger] before[i]).peer_id == p;
                    assert(after[i].peer_id == p);
                }
                if has_remote(after, p) {
                    let i = choose|i: int| 0 <= i < after.len() && (#[trigger] after[i]).peer_id == p;
                    if i < before.len() {
                        assert(before[i].peer_id == p);
                    }
                }
            }
        }
    }
}

} // verus!
