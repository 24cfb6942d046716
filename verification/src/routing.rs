//! Splitting an update by shard.
//!
//! Every point of an operation goes to the shard that the hash ring assigns
//! to its id. Operations that name no points, and the synchronisation of a
//! range of points, go to every shard.

use vstd::prelude::*;
use crate::hash_ring::{shard_at, spec_point_hash};

use crate::operations::{
    copy_payload, copy_texts, reverse, same_payload, same_texts, CollectionUpdateOperations, Payload, PayloadOps, PointInsertOperations, PointOperations, PointStruct,
};
use crate::shard::Shard;
use crate::shard_holder::ShardHolder;
use crate::types::{PointId, ShardId};

verus! {

/// The ids of `ids` that the ring of `keys` assigns to `shard`, in order.
pub open spec fn ids_for(ids: Seq<PointId>, keys: Seq<u128>, shard: ShardId) -> Seq<PointId>
    decreases ids.len(),
{
    if ids.len() == 0 {
        Seq::empty()
    } else {
        let rest = ids_for(ids.drop_last(), keys, shard);
        if shard_at(keys, spec_point_hash(ids.last())) == Some(shard) {
            rest.push(ids.last())
        } else {
            rest
        }
    }
}

/// The points of `points` that the ring of `keys` assigns to `shard`, in
/// order.
pub open spec fn points_for(points: Seq<PointStruct>, keys: Seq<u128>, shard: ShardId) -> Seq<
    PointStruct,
>
    decreases points.len(),
{
    if points.len() == 0 {
        Seq::empty()
    } else {
        let rest = points_for(points.drop_last(), keys, shard);
        if shard_at(keys, spec_point_hash(points.last().id)) == Some(shard) {
            rest.push(points.last())
        } else {
            rest
        }
    }
}

impl PointInsertOperations {
    /// The points, in order.
    pub open spec fn spec_points(&self) -> Seq<PointStruct> {
        match self {
            PointInsertOperations::PointsBatch(batch) => Seq::new(
                batch.ids@.len(),
                |i: int| batch.row(i),
            ),
            PointInsertOperations::PointsList(points) => points@,
        }
    }
}

impl CollectionUpdateOperations {
    /// True when the operation goes to every shard.
    pub open spec fn goes_to_all(&self) -> bool {
        match self {
            CollectionUpdateOperations::PointOperation(PointOperations::UpsertPoints(_)) => false,
            CollectionUpdateOperations::PointOperation(PointOperations::DeletePoints { .. }) =>
                false,
            CollectionUpdateOperations::PayloadOperation(PayloadOps::SetPayload { .. }) => false,
            CollectionUpdateOperations::PayloadOperation(PayloadOps::DeletePayload { .. }) =>
                false,
            CollectionUpdateOperations::PayloadOperation(PayloadOps::ClearPayload { .. }) => false,
            _ => true,
        }
    }

    /// The ids of the points that the operation names, in order.
    pub open spec fn named_ids(&self) -> Seq<PointId> {
        match self {
            CollectionUpdateOperations::PointOperation(op) => match op {
                PointOperations::UpsertPoints(insert) => insert.spec_points().map_values(
                    |p: PointStruct| p.id,
                ),
                PointOperations::DeletePoints { ids } => ids@,
                PointOperations::DeletePointsByFilter(_) => Seq::empty(),
                PointOperations::SyncPoints { points, .. } => points@.map_values(
                    |p: PointStruct| p.id,
                ),
            },
            CollectionUpdateOperations::PayloadOperation(op) => match op {
                PayloadOps::SetPayload { points, .. } => points@,
                PayloadOps::DeletePayload { points, .. } => points@,
                PayloadOps::ClearPayload { points } => points@,
                PayloadOps::ClearPayloadByFilter(_) => Seq::empty(),
            },
            CollectionUpdateOperations::FieldIndexOperation(_) => Seq::empty(),
        }
    }

    /// True when `shard` gets a part of the operation.
    pub open spec fn reaches(&self, keys: Seq<u128>, shard: ShardId) -> bool {
        self.goes_to_all() || ids_for(self.named_ids(), keys, shard).len() > 0
    }

    /// True when `self` is the part of `whole` that `shard` gets: the same
    /// kind of operation with the same data, on the points of `whole` that
    /// the ring assigns to `shard`, in their order.
    pub open spec fn is_share_of(
        &self,
        whole: &CollectionUpdateOperations,
        keys: Seq<u128>,
        shard: ShardId,
    ) -> bool {
        match (*whole, *self) {
            (
                CollectionUpdateOperations::PointOperation(PointOperations::UpsertPoints(insert)),
                CollectionUpdateOperations::PointOperation(
                    PointOperations::UpsertPoints(PointInsertOperations::PointsList(part)),
                ),
            ) => part@ == points_for(insert.spec_points(), keys, shard),
            (
                CollectionUpdateOperations::PointOperation(PointOperations::DeletePoints { ids }),
                CollectionUpdateOperations::PointOperation(
                    PointOperations::DeletePoints { ids: part },
                ),
            ) => part@ == ids_for(ids@, keys, shard),
            (
                CollectionUpdateOperations::PointOperation(
                    PointOperations::SyncPoints { from_id, to_id, points },
                ),
                CollectionUpdateOperations::PointOperation(
                    PointOperations::SyncPoints { from_id: from_part, to_id: to_part, points: part },
                ),
            ) => from_part == from_id && to_part == to_id && part@ == points_for(
                points@,
                keys,
                shard,
            ),
            (
                CollectionUpdateOperations::PayloadOperation(
                    PayloadOps::SetPayload { payload, points },
                ),
                CollectionUpdateOperations::PayloadOperation(
                    PayloadOps::SetPayload { payload: payload_part, points: part },
                ),
            ) => same_payload(payload_part@, payload@) && part@ == ids_for(points@, keys, shard),
            (
                CollectionUpdateOperations::PayloadOperation(
                    PayloadOps::DeletePayload { keys: names, points },
                ),
                CollectionUpdateOperations::PayloadOperation(
                    PayloadOps::DeletePayload { keys: names_part, points: part },
                ),
            ) => same_texts(names_part@, names@) && part@ == ids_for(points@, keys, shard),
            (
                CollectionUpdateOperations::PayloadOperation(PayloadOps::ClearPayload { points }),
                CollectionUpdateOperations::PayloadOperation(
                    PayloadOps::ClearPayload { points: part },
                ),
            ) => part@ == ids_for(points@, keys, shard),
            (
                CollectionUpdateOperations::PointOperation(
                    PointOperations::DeletePointsByFilter(_),
                ),
                _,
            ) => self.same(whole),
            (
                CollectionUpdateOperations::PayloadOperation(PayloadOps::ClearPayloadByFilter(_)),
                _,
            ) => self.same(whole),
            (CollectionUpdateOperations::FieldIndexOperation(_), _) => self.same(whole),
            _ => false,
        }
    }
}

/// The shards of `slots` that get a part of `operation`, in the order of the
/// slots.
pub open spec fn receivers<L>(
    slots: Seq<(ShardId, Shard<L>)>,
    operation: CollectionUpdateOperations,
    keys: Seq<u128>,
) -> Seq<ShardId>
    decreases slots.len(),
{
    if slots.len() == 0 {
        Seq::empty()
    } else {
        let rest = receivers(slots.drop_last(), operation, keys);
        if operation.reaches(keys, slots.last().0) {
            rest.push(slots.last().0)
        } else {
            rest
        }
    }
}

/// The ids of the points of `points_for` are the `ids_for` of their ids.
pub proof fn lemma_ids_of_points_for(points: Seq<PointStruct>, keys: Seq<u128>, shard: ShardId)
    ensures
        points_for(points, keys, shard).map_values(|p: PointStruct| p.id) == ids_for(
            points.map_values(|p: PointStruct| p.id),
            keys,
            shard,
        ),
    decreases points.len(),
{
    let ids = points.map_values(|p: PointStruct| p.id);
    if points.len() == 0 {
        assert(points_for(points, keys, shard).map_values(|p: PointStruct| p.id) =~= ids_for(
            ids,
            keys,
            shard,
        ));
    } else {
        lemma_ids_of_points_for(points.drop_last(), keys, shard);
        assert(ids.drop_last() =~= points.drop_last().map_values(|p: PointStruct| p.id));
        assert(ids.last() == points.last().id);
        assert(points_for(points, keys, shard).map_values(|p: PointStruct| p.id) =~= ids_for(
            ids,
            keys,
            shard,
        ));
    }
}

impl<L> ShardHolder<L> {
    /// For each slot, the ids of `ids` that go to its shard.
    fn split_ids(&self, ids: &Vec<PointId>) -> (shares: Vec<Vec<PointId>>)
        requires
            self.wf(),
        ensures
            shares@.len() == self.shards.entries().len(),
            forall|k: int|
                0 <= k < shares@.len() ==> (#[trigger] shares@[k])@ == ids_for(
                    ids@,
                    self.ring.keys(),
                    self.shards.entries()[k].0,
                ),
    {
        let ghost slots = self.shards.entries();
        let ghost keys = self.ring.keys();
        let mut shares: Vec<Vec<PointId>> = Vec::new();
        let mut k: usize = 0;
        while k < self.shards.len()
            invariant
                k <= slots.len(),
                slots == self.shards.entries(),
                shares@.len() == k,
                forall|j: int| 0 <= j < k ==> (#[trigger] shares@[j])@.len() == 0,
            decreases slots.len() - k,
        {
            shares.push(Vec::new());
            k += 1;
        }
        let mut n: usize = 0;
        while n < ids.len()
            invariant
                n <= ids.len(),
                self.wf(),
                slots == self.shards.entries(),
                keys == self.ring.keys(),
                shares@.len() == slots.len(),
                forall|j: int|
                    0 <= j < shares@.len() ==> (#[trigger] shares@[j])@ == ids_for(
                        ids@.take(n as int),
                        keys,
                        slots[j].0,
                    ),
            decreases ids.len() - n,
        {
            let id = ids[n];
            let ghost before = shares@;
            proof {
                assert(ids@.take(n + 1).drop_last() == ids@.take(n as int));
                assert(ids@.take(n + 1).last() == id);
            }
            match self.ring.get(&id) {
                Some(shard) => {
                    match self.shards.find(shard) {
                        Some(at) => {
                            shares[at].push(id);
                            proof {
                                assert forall|j: int| 0 <= j < shares@.len() implies (
                                #[trigger] shares@[j])@ == ids_for(
                                    ids@.take(n + 1),
                                    keys,
                                    slots[j].0,
                                ) by {
                                    if j != at {
                                        assert(shares@[j] == before[j]);
                                        crate::id_map::lemma_position_of_entry(slots, j);
                                    }
                                }
                            }
                        },
                        None => {
                            proof {
                                assert(self.ring.shards().contains(shard));
                                assert(false);
                            }
                        },
                    }
                },
                None => {
                    proof {
                        assert forall|j: int| 0 <= j < shares@.len() implies (
                        #[trigger] shares@[j])@ == ids_for(ids@.take(n + 1), keys, slots[j].0) by {}
                    }
                },
            }
            n += 1;
        }
        assert(ids@.take(n as int) == ids@);
        shares
    }

    /// For each slot, the points of `points` that go to its shard.
    fn split_points(&self, points: Vec<PointStruct>) -> (shares: Vec<Vec<PointStruct>>)
        requires
            self.wf(),
        ensures
            shares@.len() == self.shards.entries().len(),
            forall|k: int|
                0 <= k < shares@.len() ==> (#[trigger] shares@[k])@ == points_for(
                    points@,
                    self.ring.keys(),
                    self.shards.entries()[k].0,
                ),
    {
        let ghost slots = self.shards.entries();
        let ghost keys = self.ring.keys();
        let ghost all = points@;
        let mut shares: Vec<Vec<PointStruct>> = Vec::new();
        let mut k: usize = 0;
        while k < self.shards.len()
            invariant
                k <= slots.len(),
                slots == self.shards.entries(),
                shares@.len() == k,
                forall|j: int| 0 <= j < k ==> (#[trigger] shares@[j])@.len() == 0,
            decreases slots.len() - k,
        {
            shares.push(Vec::new());
            k += 1;
        }
        let mut rest = reverse(points);
        let ghost mut n: int = 0;
        while rest.len() > 0
            invariant
                0 <= n <= all.len(),
                rest@.len() == all.len() - n,
                forall|i: int| 0 <= i < rest@.len() ==> #[trigger] rest@[i] == all[all.len() - 1 - i],
                self.wf(),
                slots == self.shards.entries(),
                keys == self.ring.keys(),
                shares@.len() == slots.len(),
                forall|j: int|
                    0 <= j < shares@.len() ==> (#[trigger] shares@[j])@ == points_for(
                        all.take(n),
                        keys,
                        slots[j].0,
                    ),
            decreases rest@.len(),
        {
            let point = rest.pop().unwrap();
            let ghost before = shares@;
            proof {
                assert(point == all[n]);
                assert(all.take(n + 1).drop_last() == all.take(n));
                assert(all.take(n + 1).last() == point);
            }
            match self.ring.get(&point.id) {
                Some(shard) => {
                    match self.shards.find(shard) {
                        Some(at) => {
                            shares[at].push(point);
                            proof {
                                assert forall|j: int| 0 <= j < shares@.len() implies (
                                #[trigger] shares@[j])@ == points_for(
                                    all.take(n + 1),
                                    keys,
                                    slots[j].0,
                                ) by {
                                    if j != at {
                                        assert(shares@[j] == before[j]);
                                        crate::id_map::lemma_position_of_entry(slots, j);
                                    }
                                }
                            }
                        },
                        None => {
                            proof {
                                assert(self.ring.shards().contains(shard));
                                assert(false);
                            }
                        },
                    }
                },
                None => {
                    proof {
                        assert forall|j: int| 0 <= j < shares@.len() implies (
                        #[trigger] shares@[j])@ == points_for(all.take(n + 1), keys, slots[j].0) by {}
                    }
                },
            }
            proof {
                n = n + 1;
            }
        }
        assert(all.take(n) == all);
        shares
    }
}

/// What every part of a split operation has in common.
enum Template {
    Upsert,
    Sync(Option<PointId>, Option<PointId>),
    Delete,
    SetPayload(Payload),
    DeletePayload(Vec<String>),
    ClearPayload,
    Whole(CollectionUpdateOperations),
}

/// The points or ids of a split operation, slot by slot.
enum Parts {
    Points(Vec<Vec<PointStruct>>),
    Ids(Vec<Vec<PointId>>),
    Nothing,
}

/// True when `template` and `parts` were taken from `whole` for the slots
/// `slots` on the ring of `keys`.
spec fn taken_from<L>(
    template: Template,
    parts: Parts,
    whole: CollectionUpdateOperations,
    slots: Seq<(ShardId, Shard<L>)>,
    keys: Seq<u128>,
    done: int,
) -> bool {
    &&& match parts {
        Parts::Points(shares) => shares@.len() == slots.len() && forall|k: int|
            done <= k < shares@.len() ==> (#[trigger] shares@[k])@.map_values(
                |p: PointStruct| p.id,
            ) == ids_for(whole.named_ids(), keys, slots[k].0),
        Parts::Ids(shares) => shares@.len() == slots.len() && forall|k: int|
            done <= k < shares@.len() ==> (#[trigger] shares@[k])@ == ids_for(
                whole.named_ids(),
                keys,
                slots[k].0,
            ),
        Parts::Nothing => true,
    }
    &&& match (template, whole) {
        (
            Template::Upsert,
            CollectionUpdateOperations::PointOperation(PointOperations::UpsertPoints(insert)),
        ) => match parts {
            Parts::Points(shares) => forall|k: int|
                done <= k < shares@.len() ==> (#[trigger] shares@[k])@ == points_for(
                    insert.spec_points(),
                    keys,
                    slots[k].0,
                ),
            _ => false,
        },
        (
            Template::Sync(from, to),
            CollectionUpdateOperations::PointOperation(
                PointOperations::SyncPoints { from_id, to_id, points },
            ),
        ) => from == from_id && to == to_id && (match parts {
            Parts::Points(shares) => forall|k: int|
                done <= k < shares@.len() ==> (#[trigger] shares@[k])@ == points_for(
                    points@,
                    keys,
                    slots[k].0,
                ),
            _ => false,
        }),
        (
            Template::Delete,
            CollectionUpdateOperations::PointOperation(PointOperations::DeletePoints { .. }),
        ) => parts is Ids,
        (
            Template::SetPayload(bytes),
            CollectionUpdateOperations::PayloadOperation(PayloadOps::SetPayload { payload, .. }),
        ) => same_payload(bytes@, payload@) && parts is Ids,
        (
            Template::DeletePayload(names),
            CollectionUpdateOperations::PayloadOperation(
                PayloadOps::DeletePayload { keys: all_names, .. },
            ),
        ) => same_texts(names@, all_names@) && parts is Ids,
        (
            Template::ClearPayload,
            CollectionUpdateOperations::PayloadOperation(PayloadOps::ClearPayload { .. }),
        ) => parts is Ids,
        (Template::Whole(op), _) => op.same(&whole) && whole.goes_to_all() && !(whole
            is PointOperation && whole->PointOperation_0 is SyncPoints) && parts is Nothing,
        _ => false,
    }
}

impl<L> ShardHolder<L> {
    /// Splits `operation` into the parts that the shards get.
    ///
    /// The result names, in the order of the slots, each shard that gets a
    /// part, with its part. An operation on points goes to the shards that
    /// the ring assigns its points to, each with its own points. An
    /// operation by filter or on a field index goes to every shard as it is.
    /// The synchronisation of a range goes to every shard too, each with its
    /// own points, since a shard without any has to empty the range.
    pub fn split_by_shard(&self, operation: CollectionUpdateOperations) -> (parts: Vec<
        (ShardId, CollectionUpdateOperations),
    >)
        requires
            self.wf(),
            operation.is_valid(),
        ensures
            parts@.map_values(|e: (ShardId, CollectionUpdateOperations)| e.0) == receivers(
                self.shards.entries(),
                operation,
                self.ring.keys(),
            ),
            forall|i: int|
                0 <= i < parts@.len() ==> (#[trigger] parts@[i]).1.is_share_of(
                    &operation,
                    self.ring.keys(),
                    parts@[i].0,
                ),
    {
        let ghost whole = operation;
        let ghost slots = self.shards.entries();
        let ghost keys = self.ring.keys();
        let (template, mut shares) = match operation {
            CollectionUpdateOperations::PointOperation(PointOperations::UpsertPoints(insert)) => {
                let points = insert.into_points();
                proof {
                    assert(points@ =~= insert.spec_points());
                }
                let shares = self.split_points(points);
                proof {
                    assert forall|k: int| 0 <= k < shares@.len() implies (
                    #[trigger] shares@[k])@.map_values(|p: PointStruct| p.id) == ids_for(
                        whole.named_ids(),
                        keys,
                        slots[k].0,
                    ) by {
                        lemma_ids_of_points_for(insert.spec_points(), keys, slots[k].0);
                    }
                }
                (Template::Upsert, Parts::Points(shares))
            },
            CollectionUpdateOperations::PointOperation(
                PointOperations::SyncPoints { from_id, to_id, points },
            ) => {
                let shares = self.split_points(points);
                proof {
                    assert forall|k: int| 0 <= k < shares@.len() implies (
                    #[trigger] shares@[k])@.map_values(|p: PointStruct| p.id) == ids_for(
                        whole.named_ids(),
                        keys,
                        slots[k].0,
                    ) by {
                        lemma_ids_of_points_for(points@, keys, slots[k].0);
                    }
                }
                (Template::Sync(from_id, to_id), Parts::Points(shares))
            },
            CollectionUpdateOperations::PointOperation(PointOperations::DeletePoints { ids }) => {
                (Template::Delete, Parts::Ids(self.split_ids(&ids)))
            },
            CollectionUpdateOperations::PayloadOperation(
                PayloadOps::SetPayload { payload, points },
            ) => (Template::SetPayload(payload), Parts::Ids(self.split_ids(&points))),
            CollectionUpdateOperations::PayloadOperation(
                PayloadOps::DeletePayload { keys: names, points },
            ) => (Template::DeletePayload(names), Parts::Ids(self.split_ids(&points))),
            CollectionUpdateOperations::PayloadOperation(PayloadOps::ClearPayload { points }) => {
                (Template::ClearPayload, Parts::Ids(self.split_ids(&points)))
            },
            other => (Template::Whole(other), Parts::Nothing),
        };
        assert(taken_from(template, shares, whole, slots, keys, 0));
        let mut parts: Vec<(ShardId, CollectionUpdateOperations)> = Vec::new();
        let mut i: usize = 0;
        while i < self.shards.len()
            invariant
                i <= slots.len(),
                self.wf(),
                slots == self.shards.entries(),
                keys == self.ring.keys(),
                taken_from(template, shares, whole, slots, keys, i as int),
                parts@.map_values(|e: (ShardId, CollectionUpdateOperations)| e.0) == receivers(
                    slots.take(i as int),
                    whole,
                    keys,
                ),
                forall|j: int|
                    0 <= j < parts@.len() ==> (#[trigger] parts@[j]).1.is_share_of(
                        &whole,
                        keys,
                        parts@[j].0,
                    ),
            decreases slots.len() - i,
        {
            let shard = self.shards.id_at(i);
            proof {
                assert(slots.take(i + 1).drop_last() == slots.take(i as int));
                assert(slots.take(i + 1).last() == slots[i as int]);
            }
            let part: Option<CollectionUpdateOperations> = match &mut shares {
                Parts::Points(all) => {
                    let mut mine: Vec<PointStruct> = Vec::new();
                    core::mem::swap(&mut all[i], &mut mine);
                    match &template {
                        Template::Sync(from, to) => Some(
                            CollectionUpdateOperations::PointOperation(
                                PointOperations::SyncPoints {
                                    from_id: *from,
                                    to_id: *to,
                                    points: mine,
                                },
                            ),
                        ),
                        _ => if mine.len() > 0 {
                            Some(
                                CollectionUpdateOperations::PointOperation(
                                    PointOperations::UpsertPoints(
                                        PointInsertOperations::PointsList(mine),
                                    ),
                                ),
                            )
                        } else {
                            None
                        },
                    }
                },
                Parts::Ids(all) => {
                    let mut mine: Vec<PointId> = Vec::new();
                    core::mem::swap(&mut all[i], &mut mine);
                    if mine.len() == 0 {
                        None
                    } else {
                        match &template {
                            Template::SetPayload(payload) => Some(
                                CollectionUpdateOperations::PayloadOperation(
                                    PayloadOps::SetPayload {
                                        payload: copy_payload(payload),
                                        points: mine,
                                    },
                                ),
                            ),
                            Template::DeletePayload(names) => Some(
                                CollectionUpdateOperations::PayloadOperation(
                                    PayloadOps::DeletePayload {
                                        keys: copy_texts(names),
                                        points: mine,
                                    },
                                ),
                            ),
                            Template::ClearPayload => Some(
                                CollectionUpdateOperations::PayloadOperation(
                                    PayloadOps::ClearPayload { points: mine },
                                ),
                            ),
                            _ => Some(
                                CollectionUpdateOperations::PointOperation(
                                    PointOperations::DeletePoints { ids: mine },
                                ),
                            ),
                        }
                    }
                },
                Parts::Nothing => match &template {
                    Template::Whole(op) => Some(op.duplicate()),
                    _ => None,
                },
            };
            proof {
                assert(part is Some <==> whole.reaches(keys, shard));
                assert(part matches Some(op) ==> op.is_share_of(&whole, keys, shard));
            }
            let ghost before = parts@;
            match part {
                Some(op) => {
                    parts.push((shard, op));
                    proof {
                        assert(parts@.map_values(|e: (ShardId, CollectionUpdateOperations)| e.0)
                            =~= before.map_values(
                            |e: (ShardId, CollectionUpdateOperations)| e.0,
                        ).push(shard));
                    }
                },
                None => {},
            }
            i += 1;
        }
        assert(slots.take(i as int) == slots);
        parts
    }
}

} // verus!
