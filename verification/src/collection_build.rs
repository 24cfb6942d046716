//! Creating a collection and opening a stored one.

use vstd::prelude::*;
use crate::collection::Collection;
use crate::config::CollectionConfig;
use crate::hash_ring::{HashRing, HASH_RING_SHARD_SCALE};
use crate::id_map::{lemma_position_of, lemma_position_of_entry, position_of, IdMap};
use crate::replica_set::{
    all_active, are_remote_peers, is_state_not_saved, remotes_fault, remotes_on,
    state_not_saved, ReplicaSet, ReplicaState,
};
use crate::shard::{RemoteShard, Shard};
use crate::shard_holder::{slot_ok, ShardHolder};
use crate::types::{always_saves_shards, text_with_number, CollectionError, PeerId, ShardId};

verus! {

/// Where a shard of a new collection lives.
pub enum ShardType {
    /// On this peer.
    Local,
    /// On another peer.
    Remote(PeerId),
    /// On several peers: on this one if `local`, and on each peer of
    /// `remote`.
    ReplicaSet { local: bool, remote: Vec<PeerId> },
}

/// Where the shards of a new collection live.
pub struct CollectionShardDistribution {
    pub shards: IdMap<ShardId, ShardType>,
}

/// A collection that could not be created.
pub struct CreationFailure<L> {
    pub error: CollectionError,
    /// The shards that were built before the failure, for the caller to
    /// release what they hold.
    pub built: ShardHolder<L>,
    /// The local shards that were handed in and not used.
    pub unused_locals: IdMap<ShardId, L>,
}

impl ShardType {
    /// True when the shard has data on this peer.
    pub open spec fn needs_local(&self) -> bool {
        match self {
            ShardType::Local => true,
            ShardType::Remote(_) => false,
            ShardType::ReplicaSet { local, .. } => *local,
        }
    }

    /// True when the peers of a replica set are distinct and this peer is
    /// not among the remote ones.
    pub open spec fn is_valid(&self, this_peer_id: PeerId) -> bool {
        match self {
            ShardType::ReplicaSet { remote, .. } => remote@.no_duplicates() && !remote@.contains(
                this_peer_id,
            ),
            _ => true,
        }
    }

    /// True when `shard` is a shard of this kind for slot `id`, with `local`
    /// as its data on this peer.
    pub open spec fn is_built<L>(
        &self,
        shard: Shard<L>,
        id: ShardId,
        this_peer_id: PeerId,
        local: Option<L>,
    ) -> bool {
        match self {
            ShardType::Local => local matches Some(l) && shard == Shard::Local(l),
            ShardType::Remote(peer) => shard == Shard::<L>::Remote(
                RemoteShard { id, peer_id: *peer },
            ),
            ShardType::ReplicaSet { local: with_local, remote } => {
                &&& shard matches Shard::ReplicaSet(set)
                &&& set.shard_id == id
                &&& set.this_peer_id == this_peer_id
                &&& set.remotes@ == remotes_on(id, remote@)
                &&& if *with_local {
                    local matches Some(l) && set.local == Some(Box::new(Shard::Local(l)))
                        && set.replica_state.entries() == seq![(this_peer_id, true)] + all_active(
                        remote@,
                    )
                } else {
                    set.local.is_none() && set.replica_state.entries() == all_active(remote@)
                }
            },
        }
    }
}

/// True when a shard of this kind for slot `id` has data on this peer and
/// `locals` holds no local shard for it.
pub open spec fn lacks_local<L>(shard_type: ShardType, id: ShardId, locals: Map<ShardId, L>) -> bool {
    shard_type.needs_local() && !locals.dom().contains(id)
}

/// Builds the shard of slot `shard_id`, taking its data on this peer from
/// `locals`.
fn build_shard<L, P: Fn(ShardId, &ReplicaState) -> bool>(
    shard_id: ShardId,
    shard_type: &ShardType,
    this_peer_id: PeerId,
    locals: &mut IdMap<ShardId, L>,
    persist: &P,
) -> (r: Result<Shard<L>, CollectionError>)
    requires
        old(locals).wf(),
        forall|shard: ShardId, m: &ReplicaState| call_requires(*persist, (shard, m)),
    ensures
        final(locals).wf(),
        final(locals)@ == old(locals)@ || final(locals)@ == old(locals)@.remove(shard_id),
        match r {
            Ok(shard) => slot_ok(shard_id, shard) && shard_type.is_valid(this_peer_id)
                && shard_type.is_built(
                shard,
                shard_id,
                this_peer_id,
                if old(locals)@.dom().contains(shard_id) {
                    Some(old(locals)@[shard_id])
                } else {
                    None
                },
            ),
            Err(error) => {
                &&& (error is BadRequest || error is ServiceError)
                &&& error is BadRequest ==> !shard_type.is_valid(this_peer_id)
                    && error->BadRequest_description@ == remotes_fault(shard_id)
                &&& error is ServiceError ==> lacks_local(*shard_type, shard_id, old(locals)@)
                    || is_state_not_saved(r)
                &&& is_state_not_saved(r) ==> *shard_type is ReplicaSet
                &&& always_saves_shards(*persist) ==> !is_state_not_saved(r)
            },
        },
{
    proof {
        reveal_strlit("Failed to save the replica state");
        reveal_strlit("no local shard was built for shard ");
        assert(state_not_saved()[0] == 'F');
    }
    let r = match shard_type {
        ShardType::Local => match locals.remove(shard_id) {
            Some(local) => Ok(Shard::Local(local)),
            None => {
                let error = text_with_number(
                    "no local shard was built for shard ",
                    shard_id as u64,
                    "",
                );
                assert(error@[0] == 'n');
                Err(CollectionError::service_error(error))
            },
        },
        ShardType::Remote(peer) => Ok(Shard::Remote(RemoteShard { id: shard_id, peer_id: *peer })),
        ShardType::ReplicaSet { local, remote } => {
            if !are_remote_peers(remote, this_peer_id) {
                Err(
                    CollectionError::BadRequest {
                        description: text_with_number(
                            "the remote replicas of shard ",
                            shard_id as u64,
                            " are not on distinct peers other than this one",
                        ),
                    },
                )
            } else {
                let replica = if *local {
                    locals.remove(shard_id)
                } else {
                    None
                };
                if *local && replica.is_none() {
                    let error = text_with_number(
                        "no local shard was built for shard ",
                        shard_id as u64,
                        "",
                    );
                    assert(error@[0] == 'n');
                    Err(CollectionError::service_error(error))
                } else {
                    let save = |m: &ReplicaState| -> (b: bool)
                        requires
                            call_requires(persist, (shard_id, m)),
                        ensures
                            call_ensures(persist, (shard_id, m), b),
                        { persist(shard_id, m) };
                    match ReplicaSet::build(shard_id, this_peer_id, replica, remote, save) {
                        Ok(set) => Ok(Shard::ReplicaSet(set)),
                        Err(e) => Err(e),
                    }
                }
            }
        },
    };
    r
}

impl<L> Collection<L> {
    /// Creates the collection `id` with the shards of `shard_distribution`.
    /// `locals` holds the local shards that the caller has built for the
    /// shards with data on this peer, by shard. The shards are put into
    /// their slots in the order of the distribution; every replica of a
    /// replica set starts active, and its state is handed to `persist` with
    /// its shard.
    ///
    /// Fails with `BadRequest` when the peers of a replica set are not
    /// distinct or name this peer as remote, and with a service error when
    /// a local shard is missing or the state of a replica set could not be
    /// saved. The failure hands back what was built.
    pub fn new<P: Fn(ShardId, &ReplicaState) -> bool>(
        id: String,
        this_peer_id: PeerId,
        config: CollectionConfig,
        shard_distribution: CollectionShardDistribution,
        locals: IdMap<ShardId, L>,
        persist: P,
    ) -> (r: Result<Self, CreationFailure<L>>)
        requires
            shard_distribution.shards.wf(),
            locals.wf(),
            forall|shard: ShardId, m: &ReplicaState| call_requires(persist, (shard, m)),
        ensures
            match r {
                Ok(collection) => {
                    &&& collection.wf()
                    &&& collection.id == id
                    &&& collection.config == config
                    &&& !collection.before_drop_called
                    &&& collection.shards_holder.shard_transfers@.len() == 0
                    &&& collection.shards_holder.temporary_shards.entries().len() == 0
                    &&& collection.shards_holder.shards@.dom() == shard_distribution.shards@.dom()
                    &&& forall|shard: ShardId| #[trigger]
                        shard_distribution.shards@.dom().contains(shard)
                            ==> shard_distribution.shards@[shard].is_valid(this_peer_id)
                            && shard_distribution.shards@[shard].is_built(
                            collection.shards_holder.shards@[shard],
                            shard,
                            this_peer_id,
                            if locals@.dom().contains(shard) {
                                Some(locals@[shard])
                            } else {
                                None
                            },
                        )
                },
                Err(failure) => {
                    &&& failure.built.wf()
                    &&& failure.unused_locals.wf()
                    &&& (failure.error is BadRequest || failure.error is ServiceError)
                    &&& failure.error is BadRequest ==> exists|shard: ShardId| #[trigger]
                        shard_distribution.shards@.dom().contains(shard)
                            && !shard_distribution.shards@[shard].is_valid(this_peer_id)
                            && failure.error->BadRequest_description@ == remotes_fault(shard)
                    &&& failure.error is ServiceError ==> is_state_not_saved(
                        Err::<(), CollectionError>(failure.error),
                    ) || exists|shard: ShardId| #[trigger]
                        shard_distribution.shards@.dom().contains(shard) && lacks_local(
                            shard_distribution.shards@[shard],
                            shard,
                            locals@,
                        )
                    &&& always_saves_shards(persist) ==> !is_state_not_saved(
                        Err::<(), CollectionError>(failure.error),
                    )
                },
            },
            (forall|shard: ShardId| #[trigger]
                shard_distribution.shards@.dom().contains(shard) ==> (
                shard_distribution.shards@[shard] is Remote)) ==> r is Ok,
            always_saves_shards(persist) && (forall|shard: ShardId| #[trigger]
                shard_distribution.shards@.dom().contains(shard)
                    ==> shard_distribution.shards@[shard].is_valid(this_peer_id) && !lacks_local(
                    shard_distribution.shards@[shard],
                    shard,
                    locals@,
                )) ==> r is Ok,
    {
        let mut holder: ShardHolder<L> = ShardHolder::new(HashRing::fair(HASH_RING_SHARD_SCALE));
        let mut remaining = locals;
        let ghost given = locals@;
        let ghost plan = shard_distribution.shards.entries();
        let ghost wanted = shard_distribution.shards@;
        let ghost mut made: Seq<Shard<L>> = Seq::empty();
        let distribution = &shard_distribution.shards;
        let mut i: usize = 0;
        proof {
            assert forall|shard: ShardId| !(#[trigger] holder.shards@.dom().contains(shard)) by {
                lemma_position_of(holder.shards.entries(), shard);
            }
            assert forall|shard: ShardId| position_of(plan, shard) >= 0 by {
                lemma_position_of(plan, shard);
            }
        }
        while i < distribution.len()
            invariant
                i <= plan.len(),
                plan == distribution.entries(),
                wanted == distribution@,
                wanted == shard_distribution.shards@,
                distribution.wf(),
                holder.wf(),
                holder.ring.scale() == HASH_RING_SHARD_SCALE,
                remaining.wf(),
                given == locals@,
                forall|shard: ShardId, m: &ReplicaState| call_requires(persist, (shard, m)),
                holder.shard_transfers@.len() == 0,
                holder.temporary_shards.entries().len() == 0,
                made.len() == i,
                forall|shard: ShardId|
                    #[trigger] holder.shards@.dom().contains(shard) <==> (position_of(plan, shard)
                        < i),
                forall|shard: ShardId|
                    position_of(plan, shard) >= i ==> (#[trigger] remaining@.dom().contains(shard)
                        <==> given.dom().contains(shard)),
                forall|shard: ShardId|
                    position_of(plan, shard) >= i && #[trigger] remaining@.dom().contains(shard)
                        ==> remaining@[shard] == given[shard],
                forall|k: int|
                    0 <= k < i ==> holder.shards@[(#[trigger] plan[k]).0] == made[k],
                forall|k: int|
                    0 <= k < i ==> (#[trigger] plan[k]).1.is_valid(this_peer_id) && plan[k].1.is_built(
                        made[k],
                        plan[k].0,
                        this_peer_id,
                        if given.dom().contains(plan[k].0) {
                            Some(given[plan[k].0])
                        } else {
                            None
                        },
                    ),
            decreases plan.len() - i,
        {
            let shard_id = distribution.id_at(i);
            let shard_type = distribution.value_at(i);
            let ghost before = holder.shards@;
            let ghost locals_before = remaining@;
            proof {
                lemma_position_of_entry(plan, i as int);
                assert(wanted.dom().contains(shard_id));
                assert(wanted[shard_id] == *shard_type);
                assert(locals_before.dom().contains(shard_id) <==> given.dom().contains(shard_id));
            }
            let built = build_shard(shard_id, shard_type, this_peer_id, &mut remaining, &persist);
            let shard = match built {
                Ok(shard) => shard,
                Err(error) => {
                    proof {
                        assert(wanted.dom().contains(shard_id));
                        assert(wanted[shard_id] == *shard_type);
                        assert(is_state_not_saved(built) == is_state_not_saved(
                            Err::<(), CollectionError>(error),
                        ));
                        assert(lacks_local(*shard_type, shard_id, locals_before) == lacks_local(
                            wanted[shard_id],
                            shard_id,
                            given,
                        ));
                    }
                    return Err(CreationFailure { error, built: holder, unused_locals: remaining });
                },
            };
            holder.add_shard(shard_id, shard);
            proof {
                let ghost earlier = made;
                made = made.push(shard);
                assert forall|other: ShardId| #[trigger]
                    holder.shards@.dom().contains(other) <==> (position_of(plan, other) < i + 1) by {
                    lemma_position_of(plan, other);
                    assert(before.dom().contains(other) <==> (position_of(plan, other) < i));
                    if other != shard_id && position_of(plan, other) == i {
                        assert(false);
                    }
                }
                assert forall|other: ShardId| position_of(plan, other) >= i + 1 implies (
                #[trigger] remaining@.dom().contains(other) <==> given.dom().contains(other)) by {
                    assert(other != shard_id);
                    assert(locals_before.dom().contains(other) <==> given.dom().contains(other));
                }
                assert forall|other: ShardId|
                    position_of(plan, other) >= i + 1 && #[trigger] remaining@.dom().contains(
                        other,
                    ) implies remaining@[other] == given[other] by {
                    assert(other != shard_id);
                    assert(locals_before.dom().contains(other));
                }
                assert forall|k: int| 0 <= k < i + 1 implies holder.shards@[(#[trigger] plan[k]).0]
                    == made[k] by {
                    if k < i {
                        lemma_position_of_entry(plan, k);
                        assert(plan[k].0 != shard_id);
                        assert(before[plan[k].0] == earlier[k]);
                    }
                }
                assert forall|k: int| 0 <= k < i + 1 implies (#[trigger] plan[k]).1.is_valid(
                    this_peer_id,
                ) && plan[k].1.is_built(
                    made[k],
                    plan[k].0,
                    this_peer_id,
                    if given.dom().contains(plan[k].0) {
                        Some(given[plan[k].0])
                    } else {
                        None
                    },
                ) by {
                    if k < i {
                        assert(made[k] == earlier[k]);
                    }
                }
            }
            i += 1;
        }
        proof {
            assert forall|shard: ShardId| holder.shards@.dom().contains(shard) == wanted.dom().contains(
                shard,
            ) by {
                lemma_position_of(plan, shard);
            }
            assert(holder.shards@.dom() =~= wanted.dom());
            assert forall|shard: ShardId| #[trigger] wanted.dom().contains(shard) implies wanted[shard].is_valid(
                this_peer_id,
            ) && wanted[shard].is_built(
                holder.shards@[shard],
                shard,
                this_peer_id,
                if given.dom().contains(shard) {
                    Some(given[shard])
                } else {
                    None
                },
            ) by {
                lemma_position_of(plan, shard);
                let k = position_of(plan, shard);
                assert(plan[k].0 == shard);
                assert(holder.shards@[plan[k].0] == made[k]);
            }
        }
        Ok(Collection::from_parts(id, config, holder))
    }
}

} // verus!
