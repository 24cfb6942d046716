//! The changes of replica sets that a new replication factor asks for.
//!
//! A smaller factor removes replicas: from every shard those on the first
//! peers of the shard. A larger factor adds replicas: to every shard on the
//! first peers of the cluster that hold none, each filled from a peer that
//! holds an active replica.

use vstd::prelude::*;
use crate::collection::Collection;
use crate::replica_set::{is_active_in, Change, ReplicaSet};
use crate::shard::Shard;
use crate::types::{
    is_service_error,
    CollectionError,
    PeerId,
    ShardId,
};

verus! {

/// The first `n` elements of `s`, or all of them when there are fewer.
pub open spec fn first_n<T>(s: Seq<T>, n: int) -> Seq<T> {
    if n >= s.len() {
        s
    } else {
        s.take(n)
    }
}

/// The removal of the replica of `shard` on each of `peers`.
pub open spec fn removals_from(shard: ShardId, peers: Seq<PeerId>) -> Seq<Change> {
    peers.map_values(|peer: PeerId| Change::Remove(shard, peer))
}

/// The removals that take `count` replicas from each of `slots`.
pub open spec fn removals<L>(slots: Seq<(ShardId, Shard<L>)>, count: int) -> Seq<Change>
    decreases slots.len(),
{
    if slots.len() == 0 {
        Seq::empty()
    } else {
        removals(slots.drop_last(), count) + (match slots.last().1 {
            Shard::ReplicaSet(set) => removals_from(slots.last().0, first_n(set.peers(), count)),
            _ => Seq::empty(),
        })
    }
}

/// Index of the first slot that holds no replica set, or the number of
/// slots when each holds one.
pub open spec fn first_plain<L>(slots: Seq<(ShardId, Shard<L>)>) -> int
    decreases slots.len(),
{
    if slots.len() == 0 {
        0
    } else if !(slots[0].1 is ReplicaSet) {
        0
    } else {
        1 + first_plain(slots.skip(1))
    }
}

/// The first of `peers` that `state` records as active.
pub open spec fn first_active(peers: Seq<PeerId>, state: Seq<(PeerId, bool)>) -> Option<PeerId>
    decreases peers.len(),
{
    if peers.len() == 0 {
        None
    } else if is_active_in(state, peers[0]) {
        Some(peers[0])
    } else {
        first_active(peers.skip(1), state)
    }
}

/// The peer that fills a new replica of the shard: for a replica set the
/// first peer with an active replica, for a plain shard the peer that holds
/// it.
pub open spec fn source_of<L>(shard: Shard<L>, this_peer_id: PeerId) -> Option<PeerId> {
    match shard {
        Shard::ReplicaSet(set) => first_active(set.peers(), set.replica_state.entries()),
        Shard::Remote(remote) => Some(remote.peer_id),
        _ => Some(this_peer_id),
    }
}

/// The peers of `all_peers` that are not among `holders`, in order.
pub open spec fn without(all_peers: Seq<PeerId>, holders: Seq<PeerId>) -> Seq<PeerId> {
    all_peers.filter(|peer: PeerId| !holders.contains(peer))
}

/// The additions that give the shard `count` more replicas, as far as
/// there are peers without one and a peer to fill them from.
pub open spec fn additions_to<L>(
    id: ShardId,
    shard: Shard<L>,
    this_peer_id: PeerId,
    all_peers: Seq<PeerId>,
    count: int,
) -> Seq<Change> {
    match source_of(shard, this_peer_id) {
        Some(from) => first_n(
            without(all_peers, shard.spec_peer_ids(this_peer_id)),
            count,
        ).map_values(|to: PeerId| Change::Add { shard: id, to, from }),
        None => Seq::empty(),
    }
}

/// The additions that give each of `slots` `count` more replicas.
pub open spec fn additions<L>(
    slots: Seq<(ShardId, Shard<L>)>,
    this_peer_id: PeerId,
    all_peers: Seq<PeerId>,
    count: int,
) -> Seq<Change>
    decreases slots.len(),
{
    if slots.len() == 0 {
        Seq::empty()
    } else {
        additions(slots.drop_last(), this_peer_id, all_peers, count) + additions_to(
            slots.last().0,
            slots.last().1,
            this_peer_id,
            all_peers,
            count,
        )
    }
}

/// The first peer of the set with an active replica.
fn first_active_peer<L>(set: &ReplicaSet<L>) -> (r: Option<PeerId>)
    ensures
        r == first_active(set.peers(), set.replica_state.entries()),
{
    let peers = set.peer_ids();
    let mut i: usize = 0;
    assert(peers@.skip(0) == peers@);
    while i < peers.len()
        invariant
            i <= peers.len(),
            peers@ == set.peers(),
            first_active(peers@, set.replica_state.entries()) == first_active(
                peers@.skip(i as int),
                set.replica_state.entries(),
            ),
        decreases peers.len() - i,
    {
        proof {
            assert(peers@.skip(i as int).skip(1) == peers@.skip(i + 1));
        }
        if set.peer_is_active(&peers[i]) {
            return Some(peers[i]);
        }
        i += 1;
    }
    None
}

/// True when `peer` is among `peers`.
fn is_among(peers: &Vec<PeerId>, peer: PeerId) -> (b: bool)
    ensures
        b == peers@.contains(peer),
{
    let mut i: usize = 0;
    while i < peers.len()
        invariant
            i <= peers.len(),
            forall|k: int| 0 <= k < i ==> peers@[k] != peer,
        decreases peers.len() - i,
    {
        if peers[i] == peer {
            return true;
        }
        i += 1;
    }
    false
}

impl<L> Collection<L> {
    /// Suggests the changes of the replica sets that bring the collection
    /// from its replication factor to `new_repl_factor`. `all_peers` are the
    /// peers of the cluster, `this_peer_id` is this peer.
    ///
    /// With the same factor there is nothing to change: `None`. With a
    /// smaller factor every shard loses as many replicas as the factor
    /// drops, those on the first peers of the shard. With a larger factor
    /// every shard gains as many replicas as the factor grows, on the first
    /// peers of `all_peers` that hold none, as far as there are such peers;
    /// each is filled from the first peer that holds an active replica of
    /// the shard, and a shard without an active replica gains none.
    ///
    /// Fails with a service error when the factor drops and a shard is no
    /// replica set.
    pub fn suggest_shard_replica_changes(
        &self,
        new_repl_factor: u32,
        all_peers: &Vec<PeerId>,
        this_peer_id: PeerId,
    ) -> (r: Result<Option<Vec<Change>>, CollectionError>)
        requires
            new_repl_factor > 0,
        ensures
            ({
                let slots = self.shards_holder.shards.entries();
                let factor = self.config.params.replication_factor;
                if new_repl_factor == factor {
                    r == Ok::<Option<Vec<Change>>, CollectionError>(None)
                } else if new_repl_factor < factor {
                    if first_plain(slots) < slots.len() {
                        is_service_error(
                            r,
                            "Shards should all be `ReplicaSet` in this collection"@,
                        )
                    } else {
                        r matches Ok(Some(changes)) && changes@ == removals(
                            slots,
                            factor - new_repl_factor,
                        )
                    }
                } else {
                    r matches Ok(Some(changes)) && changes@ == additions(
                        slots,
                        this_peer_id,
                        all_peers@,
                        new_repl_factor - factor,
                    )
                }
            }),
    {
        let factor = self.config.params.replication_factor;
        let slots = &self.shards_holder.shards;
        let ghost entries = slots.entries();
        if new_repl_factor == factor {
            return Ok(None);
        }
        let mut changes: Vec<Change> = Vec::new();
        if new_repl_factor < factor {
            let remove_n = (factor - new_repl_factor) as usize;
            let mut i: usize = 0;
            assert(entries.skip(0) == entries);
            while i < slots.len()
                invariant
                    i <= entries.len(),
                    entries == slots.entries(),
                    entries == self.shards_holder.shards.entries(),
                    factor == self.config.params.replication_factor,
                    new_repl_factor < factor,
                    remove_n == factor - new_repl_factor,
                    first_plain(entries) == i + first_plain(entries.skip(i as int)),
                    changes@ == removals(entries.take(i as int), remove_n as int),
                decreases entries.len() - i,
            {
                let id = slots.id_at(i);
                proof {
                    assert(entries.skip(i as int).skip(1) == entries.skip(i + 1));
                    assert(entries.take(i + 1).drop_last() == entries.take(i as int));
                    assert(entries.take(i + 1).last() == entries[i as int]);
                }
                match slots.value_at(i) {
                    Shard::ReplicaSet(set) => {
                        let peers = set.peer_ids();
                        let ghost before = changes@;
                        let mut k: usize = 0;
                        while k < peers.len() && k < remove_n
                            invariant
                                k <= peers.len(),
                                k <= remove_n,
                                peers@ == set.peers(),
                                changes@ == before + removals_from(id, peers@.take(k as int)),
                            decreases peers.len() - k,
                        {
                            changes.push(Change::Remove(id, peers[k]));
                            proof {
                                assert(peers@.take(k + 1) == peers@.take(k as int).push(
                                    peers@[k as int],
                                ));
                                assert(changes@ =~= before + removals_from(id, peers@.take(k + 1)));
                            }
                            k += 1;
                        }
                        proof {
                            assert(peers@.take(k as int) =~= first_n(peers@, remove_n as int));
                        }
                    },
                    _ => {
                        proof {
                            assert(entries.skip(i as int)[0] == entries[i as int]);
                        }
                        return Err(
                            CollectionError::service_error(
                                "Shards should all be `ReplicaSet` in this collection".to_string(),
                            ),
                        );
                    },
                }
                i += 1;
            }
            proof {
                assert(entries.take(i as int) == entries);
            }
            Ok(Some(changes))
        } else {
            let add_n = (new_repl_factor - factor) as usize;
            let mut i: usize = 0;
            while i < slots.len()
                invariant
                    i <= entries.len(),
                    entries == slots.entries(),
                    add_n == new_repl_factor - factor,
                    changes@ == additions(
                        entries.take(i as int),
                        this_peer_id,
                        all_peers@,
                        add_n as int,
                    ),
                decreases entries.len() - i,
            {
                let id = slots.id_at(i);
                let shard = slots.value_at(i);
                proof {
                    assert(entries.take(i + 1).drop_last() == entries.take(i as int));
                    assert(entries.take(i + 1).last() == entries[i as int]);
                }
                let source = match shard {
                    Shard::ReplicaSet(set) => first_active_peer(set),
                    Shard::Remote(remote) => Some(remote.peer_id),
                    _ => Some(this_peer_id),
                };
                match source {
                    None => {},
                    Some(from) => {
                        let holders = shard.peer_ids(this_peer_id);
                        let ghost before = changes@;
                        let ghost pred = |peer: PeerId| !holders@.contains(peer);
                        let mut added: usize = 0;
                        let mut k: usize = 0;
                        while k < all_peers.len() && added < add_n
                            invariant
                                k <= all_peers.len(),
                                added <= add_n,
                                holders@ == shard.spec_peer_ids(this_peer_id),
                                pred == (|peer: PeerId| !holders@.contains(peer)),
                                added == all_peers@.take(k as int).filter(pred).len(),
                                changes@ == before + all_peers@.take(k as int).filter(
                                    pred,
                                ).map_values(|to: PeerId| Change::Add { shard: id, to, from }),
                            decreases all_peers.len() - k,
                        {
                            let peer = all_peers[k];
                            proof {
                                assert(all_peers@.take(k + 1) == all_peers@.take(k as int).push(
                                    peer,
                                ));
                                all_peers@.take(k as int).lemma_filter_push(peer, pred);
                            }
                            if !is_among(&holders, peer) {
                                changes.push(Change::Add { shard: id, to: peer, from });
                                added += 1;
                                proof {
                                    assert(changes@ =~= before + all_peers@.take(k + 1).filter(
                                        pred,
                                    ).map_values(|to: PeerId| Change::Add { shard: id, to, from }));
                                }
                            }
                            k += 1;
                        }
                        proof {
                            lemma_filter_take(all_peers@, pred, k as int, add_n as int);
                        }
                    },
                }
                i += 1;
            }
            proof {
                assert(entries.take(i as int) == entries);
            }
            Ok(Some(changes))
        }
    }
}

/// The first `count` of the filtered elements are found in a prefix: once
/// a prefix holds `count` of them, or is the whole sequence, filtering the
/// prefix gives them.
pub proof fn lemma_filter_take(s: Seq<PeerId>, pred: spec_fn(PeerId) -> bool, k: int, count: int)
    requires
        0 <= k <= s.len(),
        0 <= count,
        s.take(k).filter(pred).len() <= count,
        k == s.len() || s.take(k).filter(pred).len() == count,
    ensures
        s.take(k).filter(pred) == first_n(s.filter(pred), count),
{
    if k == s.len() {
        assert(s.take(k) == s);
    } else {
        lemma_filter_prefix(s, pred, k);
    }
}

/// Filtering a prefix gives a prefix of the filtered sequence.
pub proof fn lemma_filter_prefix(s: Seq<PeerId>, pred: spec_fn(PeerId) -> bool, k: int)
    requires
        0 <= k <= s.len(),
    ensures
        s.take(k).filter(pred) == s.filter(pred).take(s.take(k).filter(pred).len() as int),
        s.take(k).filter(pred).len() <= s.filter(pred).len(),
    decreases s.len() - k,
{
    if k == s.len() {
        assert(s.take(k) == s);
        assert(s.filter(pred).take(s.filter(pred).len() as int) =~= s.filter(pred));
    } else {
        lemma_filter_prefix(s, pred, k + 1);
        assert(s.take(k + 1) == s.take(k).push(s[k]));
        s.take(k).lemma_filter_push(s[k], pred);
        let small = s.take(k).filter(pred);
        let big = s.take(k + 1).filter(pred);
        assert(small =~= big.take(small.len() as int));
        assert(small =~= s.filter(pred).take(small.len() as int));
    }
}

} // verus!
