use collection::collection::Collection;
use collection::collection_build::{CollectionShardDistribution, ShardType};
use collection::collection_state::{LoadedShard, ShardInfo};
use collection::config::{CollectionConfig, CollectionParams, CollectionParamsDiff, Distance, VectorParams};
use collection::hash_ring::{HashRing, HASH_RING_SHARD_SCALE};
use collection::id_map::IdMap;
use collection::operations::{
    Batch, CollectionUpdateOperations, FieldIndexOperations, PayloadField, PayloadOps,
    PointInsertOperations, PointOperations, PointStruct,
};
use collection::replica_changes::{add_replica, remove_replica_from};
use collection::replica_set::{Change, ReplicaSet};
use collection::shard::{RemoteShard, Shard};
use collection::shard_holder::{ShardHolder, ShardTransfer};
use collection::transfer::{proxify_shard, TaskResult, TransferTasksPool};
use collection::types::{CollectionError, PointId};

fn config(replication_factor: u32) -> CollectionConfig {
    CollectionConfig {
        params: CollectionParams {
            vectors: vec![VectorParams { name: String::new(), size: 4, distance: Distance::Cosine }],
            shard_number: 1,
            replication_factor,
            on_disk_payload: false,
        },
        hnsw_config: Vec::new(),
        optimizer_config: Vec::new(),
        wal_config: Vec::new(),
    }
}

fn holder_with(shards: Vec<(u32, Shard<&'static str>)>) -> ShardHolder<&'static str> {
    let mut holder = ShardHolder::new(HashRing::fair(HASH_RING_SHARD_SCALE));
    for (id, shard) in shards {
        holder.add_shard(id, shard);
    }
    holder
}

fn collection_with(shards: Vec<(u32, Shard<&'static str>)>) -> Collection<&'static str> {
    Collection::from_parts("test".to_string(), config(1), holder_with(shards))
}

fn remote(id: u32, peer_id: u64) -> Shard<&'static str> {
    Shard::Remote(RemoteShard { id, peer_id })
}

fn num(id: u64) -> PointId {
    PointId::NumId(id)
}

fn point(id: u64) -> PointStruct {
    PointStruct { id: num(id), vector: vec![id as u32], payload: None }
}

#[test]
fn ring_assignment_does_not_depend_on_the_order_of_the_shards() {
    let mut forward = HashRing::fair(HASH_RING_SHARD_SCALE);
    for shard in 0..5 {
        forward.add(shard);
    }
    let mut backward = HashRing::fair(HASH_RING_SHARD_SCALE);
    for shard in (0..5).rev() {
        backward.add(shard);
    }
    backward.add(3);
    let mut used = [false; 5];
    for id in 0..2000u64 {
        let shard = forward.get(&num(id));
        assert_eq!(shard, backward.get(&num(id)));
        used[shard.unwrap() as usize] = true;
    }
    assert_eq!(used, [true; 5]);
    let uuid = PointId::Uuid(0x0123_4567_89ab_cdef_0123_4567_89ab_cdef);
    assert_eq!(forward.get(&uuid), backward.get(&uuid));
    assert!(forward.contains(4));
    assert!(!forward.contains(5));
}

#[test]
fn empty_ring_assigns_nothing() {
    let ring = HashRing::fair(10);
    assert!(ring.is_empty());
    assert_eq!(ring.get(&num(1)), None);
}

#[test]
fn ring_spreads_points_over_the_shards() {
    let mut ring = HashRing::fair(HASH_RING_SHARD_SCALE);
    for shard in 0..4 {
        ring.add(shard);
    }
    let mut counts = [0usize; 4];
    for id in 0..8000u64 {
        counts[ring.get(&num(id)).unwrap() as usize] += 1;
    }
    for count in counts {
        assert!(count > 1000, "a shard got {} of 8000 points", count);
    }
}

#[test]
fn split_by_shard_sends_each_point_to_its_shard() {
    let holder = holder_with(vec![(0, Shard::Local("a")), (1, Shard::Local("b")), (2, remote(2, 9))]);
    let points: Vec<PointStruct> = (1..=30).map(point).collect();
    let operation = CollectionUpdateOperations::PointOperation(PointOperations::UpsertPoints(
        PointInsertOperations::PointsList(points),
    ));
    let parts = holder.split_by_shard(operation);
    let mut seen = Vec::new();
    let mut last_shard = None;
    for (shard, part) in &parts {
        assert!(last_shard < Some(*shard));
        last_shard = Some(*shard);
        match part {
            CollectionUpdateOperations::PointOperation(PointOperations::UpsertPoints(
                PointInsertOperations::PointsList(points),
            )) => {
                assert!(!points.is_empty());
                let mut previous = 0;
                for p in points {
                    assert_eq!(holder.ring.get(&p.id), Some(*shard));
                    let PointId::NumId(n) = p.id else { panic!("numbers only") };
                    assert!(previous < n);
                    previous = n;
                    seen.push(n);
                }
            }
            _ => panic!("an upsert is split into upserts"),
        }
    }
    seen.sort();
    assert_eq!(seen, (1..=30).collect::<Vec<u64>>());
}

#[test]
fn split_by_shard_sends_filters_and_indexes_to_every_shard() {
    let holder = holder_with(vec![(0, Shard::Local("a")), (1, remote(1, 9))]);
    let by_filter = CollectionUpdateOperations::PayloadOperation(PayloadOps::ClearPayloadByFilter(
        vec![1, 2, 3],
    ));
    let parts = holder.split_by_shard(by_filter);
    assert_eq!(parts.iter().map(|p| p.0).collect::<Vec<_>>(), vec![0, 1]);
    for (_, part) in &parts {
        assert!(matches!(
            part,
            CollectionUpdateOperations::PayloadOperation(PayloadOps::ClearPayloadByFilter(f)) if f == &vec![1, 2, 3]
        ));
    }
    let index = CollectionUpdateOperations::FieldIndexOperation(FieldIndexOperations::DeleteIndex(
        "city".to_string(),
    ));
    assert_eq!(holder.split_by_shard(index).len(), 2);

    // A synchronisation reaches the shards without points too.
    let sync = CollectionUpdateOperations::PointOperation(PointOperations::SyncPoints {
        from_id: None,
        to_id: Some(num(10)),
        points: vec![point(1)],
    });
    let parts = holder.split_by_shard(sync);
    assert_eq!(parts.len(), 2);
    let sizes: usize = parts
        .iter()
        .map(|(_, part)| match part {
            CollectionUpdateOperations::PointOperation(PointOperations::SyncPoints { points, to_id, .. }) => {
                assert_eq!(*to_id, Some(num(10)));
                points.len()
            }
            _ => panic!("a synchronisation is split into synchronisations"),
        })
        .sum();
    assert_eq!(sizes, 1);
}

#[test]
fn split_by_shard_keeps_the_payload_and_skips_shards_without_points() {
    let holder = holder_with(vec![(0, Shard::Local("a")), (1, Shard::Local("b"))]);
    let only = num(5);
    let shard = holder.ring.get(&only).unwrap();
    let operation = CollectionUpdateOperations::PayloadOperation(PayloadOps::SetPayload {
        payload: vec![PayloadField { key: "city".to_string(), value: b"\"Berlin\"".to_vec() }],
        points: vec![only],
    });
    let parts = holder.split_by_shard(operation);
    assert_eq!(parts.len(), 1);
    assert_eq!(parts[0].0, shard);
    match &parts[0].1 {
        CollectionUpdateOperations::PayloadOperation(PayloadOps::SetPayload { payload, points }) => {
            assert_eq!(points, &vec![only]);
            assert_eq!(payload.len(), 1);
            assert_eq!(payload[0].key, "city");
            assert_eq!(payload[0].value, b"\"Berlin\"".to_vec());
        }
        _ => panic!("the payload goes with the points"),
    }
}

#[test]
fn update_from_client_rejects_a_batch_with_uneven_columns() {
    let collection = collection_with(vec![(0, Shard::Local("a"))]);
    let uneven = CollectionUpdateOperations::PointOperation(PointOperations::UpsertPoints(
        PointInsertOperations::PointsBatch(Batch {
            ids: vec![num(1), num(2)],
            vectors: vec![vec![1]],
            payloads: None,
        }),
    ));
    assert!(matches!(
        collection.update_from_client(uneven),
        Err(CollectionError::BadRequest { .. })
    ));
    let even = CollectionUpdateOperations::PointOperation(PointOperations::UpsertPoints(
        PointInsertOperations::PointsBatch(Batch {
            ids: vec![num(1), num(2)],
            vectors: vec![vec![1], vec![2]],
            payloads: Some(vec![None, Some(Vec::new())]),
        }),
    ));
    let parts = collection.update_from_client(even).unwrap();
    assert_eq!(parts.len(), 1);
    match &parts[0].1 {
        CollectionUpdateOperations::PointOperation(PointOperations::UpsertPoints(
            PointInsertOperations::PointsList(points),
        )) => {
            assert_eq!(points.len(), 2);
            assert_eq!(points[1].id, num(2));
            assert_eq!(points[1].vector, vec![2]);
            assert!(points[0].payload.is_none());
            assert!(points[1].payload.is_some());
        }
        _ => panic!("a batch becomes a list"),
    }
}

#[test]
fn target_shards_prefer_the_temporary_shard() {
    let mut holder = holder_with(vec![(0, remote(0, 2)), (1, Shard::Local("b"))]);
    assert_eq!(holder.target_shards(None).len(), 2);
    assert!(matches!(holder.target_shards(Some(0))[..], [Shard::Remote(_)]));
    holder.add_temporary_shard(0, "incoming");
    assert!(matches!(holder.target_shards(Some(0))[..], [Shard::Local("incoming")]));
    assert!(holder.target_shards(Some(7)).is_empty());
    assert_eq!(holder.target_shards(None).len(), 2);
}

#[test]
fn transfers_are_registered_once() {
    let mut holder = holder_with(vec![(0, Shard::Local("a"))]);
    let transfer = ShardTransfer { shard_id: 0, from: 1, to: 2, sync: false };
    assert!(matches!(holder.register_start_shard_transfer(transfer, |_| true), Ok(true)));
    assert!(matches!(holder.register_start_shard_transfer(transfer, |_| true), Ok(false)));
    let conflicting = ShardTransfer { sync: true, ..transfer };
    assert!(matches!(
        holder.register_start_shard_transfer(conflicting, |_| true),
        Err(CollectionError::BadRequest { .. })
    ));
    let other = ShardTransfer { shard_id: 0, from: 1, to: 3, sync: false };
    assert!(matches!(
        holder.register_start_shard_transfer(other, |_| false),
        Err(CollectionError::ServiceError { .. })
    ));
    assert!(!holder.check_transfer_exists(&other));
    assert_eq!(holder.get_outgoing_transfers(&1), vec![transfer]);
    assert!(holder.get_outgoing_transfers(&2).is_empty());
    assert!(matches!(holder.register_finish_transfer(&transfer, |_| false), Err(_)));
    assert!(holder.check_transfer_exists(&transfer));
    assert!(matches!(holder.register_finish_transfer(&transfer, |_| true), Ok(true)));
    assert!(matches!(holder.register_finish_transfer(&transfer, |_| true), Ok(false)));
}

#[test]
fn start_shard_transfer_decides_who_sends() {
    let transfer = |shard_id| ShardTransfer { shard_id, from: 1, to: 2, sync: false };
    let mut collection = collection_with(vec![(0, Shard::Local("a")), (1, remote(1, 5))]);
    assert!(matches!(collection.start_shard_transfer(transfer(0), false, |_| true), Ok(true)));
    assert!(matches!(collection.start_shard_transfer(transfer(1), false, |_| true), Ok(false)));
    match collection.start_shard_transfer(transfer(9), false, |_| true) {
        Err(CollectionError::ServiceError { error }) => assert_eq!(error, "Shard 9 doesn't exist"),
        _ => panic!("there is no shard 9"),
    }
    proxify_shard(&mut collection.shards_holder, 0, RemoteShard { id: 0, peer_id: 2 });
    assert!(matches!(collection.start_shard_transfer(transfer(0), false, |_| true), Ok(false)));

    let with_local: ReplicaSet<&'static str> =
        ReplicaSet::build(2, 1, Some("c"), &vec![2], |_| true).unwrap();
    let without_local: ReplicaSet<&'static str> =
        ReplicaSet::build(3, 1, None, &vec![2, 4], |_| true).unwrap();
    let mut replicated = collection_with(vec![
        (2, Shard::ReplicaSet(with_local)),
        (3, Shard::ReplicaSet(without_local)),
    ]);
    assert!(matches!(replicated.start_shard_transfer(transfer(2), true, |_| true), Ok(true)));
    let again = ShardTransfer { shard_id: 2, from: 1, to: 4, sync: false };
    assert!(matches!(replicated.start_shard_transfer(again, false, |_| true), Ok(false)));
    assert!(matches!(replicated.start_shard_transfer(transfer(3), true, |_| true), Ok(false)));
}

#[test]
fn transfer_finish() {
    // Peer A = 1 holds the shard, peer B = 2 knows it as remote.
    let transfer = ShardTransfer { shard_id: 0, from: 1, to: 2, sync: false };
    let mut a = collection_with(vec![(0, Shard::Local("data on A"))]);
    let mut b = collection_with(vec![(0, remote(0, 1))]);
    assert!(matches!(a.start_shard_transfer(transfer, false, |_| true), Ok(true)));
    assert!(matches!(b.start_shard_transfer(transfer, false, |_| true), Ok(false)));

    // The transfer task: A mirrors its writes to B, which fills a temporary shard.
    assert!(proxify_shard(&mut a.shards_holder, 0, RemoteShard { id: 0, peer_id: 2 }));
    assert!(b.initiate_temporary_shard(0, "data on B").is_none());

    let on_a = a.finish_shard_transfer(transfer, TaskResult::Finished, |_| true, |_| true).unwrap();
    assert!(on_a.changed);
    assert!(matches!(on_a.released[..], [Shard::ForwardProxy(_)]));
    assert!(matches!(a.shards_holder.get_shard(&0), Some(Shard::Remote(r)) if r.peer_id == 2));

    let on_b = b.finish_shard_transfer(transfer, TaskResult::NotFound, |_| true, |_| true).unwrap();
    assert!(on_b.changed);
    assert!(matches!(on_b.released[..], [Shard::Remote(_)]));
    assert!(matches!(b.shards_holder.get_shard(&0), Some(Shard::Local("data on B"))));
    assert!(b.shards_holder.get_temporary_shard(&0).is_none());

    for collection in [&mut a, &mut b] {
        let again = collection
            .finish_shard_transfer(transfer, TaskResult::NotFound, |_| true, |_| true)
            .unwrap();
        assert!(!again.changed);
        assert!(again.released.is_empty());
    }
    assert!(matches!(a.shards_holder.get_shard(&0), Some(Shard::Remote(r)) if r.peer_id == 2));
    assert!(matches!(b.shards_holder.get_shard(&0), Some(Shard::Local("data on B"))));
}

#[test]
fn third_parties_point_their_remote_shard_at_the_receiver() {
    let transfer = ShardTransfer { shard_id: 0, from: 1, to: 2, sync: false };
    let mut c = collection_with(vec![(0, remote(0, 1)), (1, remote(1, 1))]);
    let end = c.finish_shard_transfer(transfer, TaskResult::NotFound, |_| true, |_| true).unwrap();
    assert!(end.changed);
    assert!(matches!(c.shards_holder.get_shard(&0), Some(Shard::Remote(r)) if r.peer_id == 2));
    assert!(matches!(c.shards_holder.get_shard(&1), Some(Shard::Remote(r)) if r.peer_id == 1));
}

#[test]
fn finished_sync_transfer_activates_the_replica() {
    let transfer = ShardTransfer { shard_id: 0, from: 2, to: 3, sync: true };
    let mut set: ReplicaSet<&'static str> =
        ReplicaSet::build(0, 1, Some("a"), &vec![2, 3], |_| true).unwrap();
    set.set_active(&3, false, |_| true).unwrap();
    let mut collection = collection_with(vec![(0, Shard::ReplicaSet(set))]);
    collection.start_shard_transfer(transfer, true, |_| true).unwrap();

    // The state cannot be saved: the transfer is unregistered, the replica stays inactive.
    let failed = collection.finish_shard_transfer(transfer, TaskResult::Finished, |_| true, |_| false);
    assert!(matches!(failed, Err(CollectionError::ServiceError { .. })));
    assert!(!collection.check_transfer_exists(&transfer));

    let end = collection
        .finish_shard_transfer(transfer, TaskResult::NotFound, |_| true, |_| true)
        .unwrap();
    assert!(end.changed);
    match collection.shards_holder.get_shard(&0) {
        Some(Shard::ReplicaSet(set)) => assert!(set.peer_is_active(&3)),
        _ => panic!("the shard is a replica set"),
    }
    let again = collection
        .finish_shard_transfer(transfer, TaskResult::NotFound, |_| true, |_| true)
        .unwrap();
    assert!(!again.changed);
}

#[test]
fn aborted_transfer_restores_the_local_shard() {
    let transfer = ShardTransfer { shard_id: 0, from: 1, to: 2, sync: false };
    let mut a = collection_with(vec![(0, Shard::Local("data on A"))]);
    a.start_shard_transfer(transfer, false, |_| true).unwrap();
    proxify_shard(&mut a.shards_holder, 0, RemoteShard { id: 0, peer_id: 2 });
    a.initiate_temporary_shard(0, "unrelated");
    let end = a.abort_shard_transfer(transfer, TaskResult::Stopped, |_| true).unwrap();
    assert!(end.changed);
    assert!(matches!(end.released[..], [Shard::Local("unrelated")]));
    assert!(matches!(a.shards_holder.get_shard(&0), Some(Shard::Local("data on A"))));
    assert!(!a.check_transfer_exists(&transfer));
    let again = a.abort_shard_transfer(transfer, TaskResult::NotFound, |_| true).unwrap();
    assert!(!again.changed);
}

#[test]
fn tasks_pool_holds_one_task_for_each_key() {
    let mut pool: TransferTasksPool<&'static str> = TransferTasksPool::new();
    let transfer = ShardTransfer { shard_id: 0, from: 1, to: 2, sync: false };
    assert!(pool.stop_if_exists(&transfer).is_none());
    assert!(pool.add_task(&transfer, "first").is_none());
    assert!(pool.has_task(&ShardTransfer { sync: true, ..transfer }));
    assert_eq!(pool.add_task(&transfer, "second"), Some("first"));
    assert_eq!(pool.stop_if_exists(&transfer), Some("second"));
    assert!(pool.stop_if_exists(&transfer).is_none());
    assert!(TaskResult::Finished.is_finished());
    assert!(!TaskResult::Stopped.is_finished());
    assert!(!TaskResult::NotFound.is_finished());
}

fn distribution(shards: Vec<(u32, ShardType)>) -> CollectionShardDistribution {
    let mut map = IdMap::new();
    for (id, shard_type) in shards {
        map.insert(id, shard_type);
    }
    CollectionShardDistribution { shards: map }
}

fn locals(shards: Vec<(u32, &'static str)>) -> IdMap<u32, &'static str> {
    let mut map = IdMap::new();
    for (id, local) in shards {
        map.insert(id, local);
    }
    map
}

#[test]
fn new_collection_has_the_shards_of_the_distribution() {
    let plan = distribution(vec![
        (0, ShardType::Local),
        (1, ShardType::Remote(2)),
        (2, ShardType::ReplicaSet { local: true, remote: vec![2, 3] }),
    ]);
    let saved_for = std::cell::RefCell::new(Vec::new());
    let collection = Collection::new(
        "points".to_string(),
        1,
        config(1),
        plan,
        locals(vec![(0, "zero"), (2, "two")]),
        |shard, _| {
            saved_for.borrow_mut().push(shard);
            true
        },
    )
    .ok()
    .unwrap();
    assert_eq!(collection.name(), "points");
    assert_eq!(saved_for.into_inner(), vec![2]);
    assert!(collection.contains_shard(&1));
    assert!(!collection.contains_shard(&3));
    assert_eq!(collection.is_shard_local(&0), Some(true));
    assert_eq!(collection.is_shard_local(&1), Some(false));
    assert_eq!(collection.is_shard_local(&2), Some(false));
    assert_eq!(collection.is_shard_local(&3), None);
    assert_eq!(
        collection.shards_distribution(1),
        vec![(0, 1), (1, 2), (2, 1), (2, 2), (2, 3)]
    );
    assert_eq!(collection.local_shard_ids(), vec![0, 2]);
    let state = collection.state(1);
    assert_eq!(state.shards.len(), 3);
    assert!(matches!(state.shards[0], (0, ShardInfo::Single(1))));
    assert!(matches!(state.shards[1], (1, ShardInfo::Single(2))));
    match &state.shards[2] {
        (2, ShardInfo::ReplicaSet { replicas }) => {
            assert_eq!(replicas.len(), 3);
            assert_eq!(replicas.get(3), Some(&true));
        }
        _ => panic!("shard 2 is a replica set"),
    }
    assert!(state.transfers.is_empty());
    assert_eq!(state.config.params.replication_factor, 1);
}

#[test]
fn new_collection_fails_without_its_local_shards() {
    let missing = Collection::new(
        "points".to_string(),
        1,
        config(1),
        distribution(vec![(0, ShardType::Remote(2)), (1, ShardType::Local)]),
        locals(vec![(7, "unused")]),
        |_, _| true,
    );
    match missing {
        Err(failure) => {
            assert!(matches!(failure.error, CollectionError::ServiceError { .. }));
            assert!(failure.built.contains_shard(&0));
            assert!(failure.unused_locals.contains(7));
        }
        Ok(_) => panic!("shard 1 has no data"),
    }
    let this_peer_as_remote = Collection::<&'static str>::new(
        "points".to_string(),
        1,
        config(2),
        distribution(vec![(0, ShardType::ReplicaSet { local: false, remote: vec![2, 1] })]),
        IdMap::new(),
        |_, _| true,
    );
    assert!(matches!(
        this_peer_as_remote.err().map(|f| f.error),
        Some(CollectionError::BadRequest { .. })
    ));
    let unsaved = Collection::<&'static str>::new(
        "points".to_string(),
        1,
        config(2),
        distribution(vec![(0, ShardType::ReplicaSet { local: false, remote: vec![2, 3] })]),
        IdMap::new(),
        |_, _| false,
    );
    assert!(matches!(
        unsaved.err().map(|f| f.error),
        Some(CollectionError::ServiceError { .. })
    ));
}

#[test]
fn loaded_collection_has_the_stored_shards() {
    let mut found = IdMap::new();
    found.insert(0, LoadedShard::Local("zero"));
    found.insert(1, LoadedShard::Remote(4));
    found.insert(2, LoadedShard::Temporary("incoming"));
    let stored = vec![
        ShardTransfer { shard_id: 0, from: 1, to: 2, sync: false },
        ShardTransfer { shard_id: 1, from: 3, to: 1, sync: true },
        ShardTransfer { shard_id: 0, from: 1, to: 2, sync: false },
    ];
    let collection = Collection::load("points".to_string(), config(1), found, &stored);
    assert_eq!(collection.shards_holder.get_shard_transfers(), &stored[..2].to_vec());
    assert_eq!(collection.is_shard_local(&0), Some(true));
    assert!(matches!(collection.shards_holder.get_shard(&1), Some(Shard::Remote(r)) if r.peer_id == 4));
    assert!(!collection.contains_shard(&2));
    assert!(matches!(
        collection.shards_holder.get_temporary_shard(&2),
        Some(Shard::Local("incoming"))
    ));
    assert!(matches!(collection.update_targets(2)[..], [Shard::Local("incoming")]));
}

#[test]
fn cluster_info_lists_the_shards_by_id() {
    let set: ReplicaSet<&'static str> =
        ReplicaSet::build(1, 1, Some("b"), &vec![5, 2], |_| true).unwrap();
    let mut collection = collection_with(vec![
        (3, Shard::Local("d")),
        (1, Shard::ReplicaSet(set)),
        (2, remote(2, 7)),
        (0, Shard::Local("a")),
    ]);
    let late = ShardTransfer { shard_id: 3, from: 1, to: 2, sync: false };
    let early = ShardTransfer { shard_id: 0, from: 1, to: 5, sync: false };
    collection.start_shard_transfer(late, false, |_| true).unwrap();
    collection.start_shard_transfer(early, false, |_| true).unwrap();
    let mut counts: IdMap<u32, usize> = IdMap::new();
    counts.insert(3, 30);
    counts.insert(1, 10);
    assert!(matches!(
        collection.cluster_info(1, &counts),
        Err(CollectionError::ServiceError { .. })
    ));
    counts.insert(0, 0);
    let info = collection.cluster_info(1, &counts).unwrap();
    assert_eq!(info.peer_id, 1);
    assert_eq!(info.shard_count, 4);
    let local: Vec<(u32, usize)> = info.local_shards.iter().map(|s| (s.shard_id, s.points_count)).collect();
    assert_eq!(local, vec![(0, 0), (1, 10), (3, 30)]);
    let remote: Vec<(u32, u64)> = info.remote_shards.iter().map(|s| (s.shard_id, s.peer_id)).collect();
    assert_eq!(remote, vec![(1, 5), (1, 2), (2, 7)]);
    let transfers: Vec<(u32, u64, u64)> =
        info.shard_transfers.iter().map(|t| (t.shard_id, t.from, t.to)).collect();
    assert_eq!(transfers, vec![(0, 1, 5), (3, 1, 2)]);
}

#[test]
fn added_replica_on_this_peer_asks_for_a_transfer() {
    let set: ReplicaSet<&'static str> = ReplicaSet::build(0, 1, None, &vec![2, 3], |_| true).unwrap();
    let mut holder = holder_with(vec![(0, Shard::ReplicaSet(set)), (1, Shard::Local("plain"))]);
    let added = add_replica(&mut holder, 0, 1, 3, Some("new"), |_| true);
    assert_eq!(
        added.result.ok(),
        Some(Some(ShardTransfer { shard_id: 0, from: 3, to: 1, sync: true }))
    );
    assert!(added.unused_local.is_none());
    match holder.get_shard(&0) {
        Some(Shard::ReplicaSet(set)) => {
            assert_eq!(set.peer_ids(), vec![2, 3, 1]);
            assert!(!set.peer_is_active(&1));
            assert!(matches!(set.local.as_deref(), Some(Shard::Local("new"))));
        }
        _ => panic!("shard 0 stays a replica set"),
    }
    // The peer is known now.
    let twice = add_replica(&mut holder, 0, 1, 3, Some("again"), |_| true);
    assert!(matches!(twice.result, Err(CollectionError::ServiceError { .. })));
    assert_eq!(twice.unused_local, Some("again"));
    // A remote replica needs no data.
    let on_peer_4 = add_replica(&mut holder, 0, 4, 2, None, |_| true);
    assert_eq!(on_peer_4.result.ok(), Some(None));
    // A plain shard is left alone.
    let plain = add_replica(&mut holder, 1, 4, 2, None, |_| true);
    assert_eq!(plain.result.ok(), Some(None));
    assert!(matches!(holder.get_shard(&1), Some(Shard::Local("plain"))));
    // Nothing changes when the state cannot be saved.
    let unsaved = add_replica(&mut holder, 0, 5, 2, None, |_| false);
    assert!(matches!(unsaved.result, Err(CollectionError::ServiceError { .. })));
    match holder.get_shard(&0) {
        Some(Shard::ReplicaSet(set)) => assert_eq!(set.peer_ids(), vec![2, 3, 4, 1]),
        _ => panic!("shard 0 stays a replica set"),
    }
}

#[test]
fn replica_set_with_one_replica_left_becomes_a_plain_shard() {
    let set: ReplicaSet<&'static str> = ReplicaSet::build(0, 1, Some("a"), &vec![2], |_| true).unwrap();
    let other: ReplicaSet<&'static str> = ReplicaSet::build(1, 1, Some("b"), &vec![2], |_| true).unwrap();
    let mut holder = holder_with(vec![(0, Shard::ReplicaSet(set)), (1, Shard::ReplicaSet(other))]);
    assert!(matches!(remove_replica_from(&mut holder, 0, 2, |_| true), Ok(None)));
    assert!(matches!(holder.get_shard(&0), Some(Shard::Local("a"))));
    assert!(matches!(
        remove_replica_from(&mut holder, 1, 1, |_| true),
        Ok(Some(Shard::Local("b")))
    ));
    assert!(matches!(holder.get_shard(&1), Some(Shard::Remote(r)) if r.peer_id == 2 && r.id == 1));
    assert!(matches!(remove_replica_from(&mut holder, 1, 2, |_| true), Ok(None)));
    assert!(matches!(holder.get_shard(&1), Some(Shard::Remote(_))));
}

#[test]
fn handle_replica_changes_adds_before_it_removes() {
    let set: ReplicaSet<&'static str> = ReplicaSet::build(0, 1, Some("a"), &vec![2], |_| true).unwrap();
    let mut collection = collection_with(vec![(0, Shard::ReplicaSet(set))]);
    assert!(collection.handle_replica_changes(&Vec::new(), IdMap::new(), |_, _| true).result.is_ok());
    let changes = vec![Change::Remove(0, 2), Change::Add { shard: 0, to: 3, from: 1 }];
    assert!(collection::replica_changes::local_replicas_to_build(&collection.shards_holder, &changes).is_empty());
    let done = collection.handle_replica_changes(&changes, IdMap::new(), |_, _| true);
    assert!(done.result.is_ok());
    assert!(done.transfers.is_empty());
    assert!(done.released.is_empty());
    match collection.shards_holder.get_shard(&0) {
        Some(Shard::ReplicaSet(set)) => assert_eq!(set.peer_ids(), vec![3, 1]),
        _ => panic!("two replicas are left"),
    }
    assert_eq!(done.made, 2);
    let failing = vec![Change::Remove(0, 9)];
    let done = collection.handle_replica_changes(&failing, IdMap::new(), |_, _| true);
    assert!(matches!(done.result, Err(CollectionError::ServiceError { .. })));
    assert_eq!(done.made, 0);
}

#[test]
fn changes_are_taken_additions_first() {
    let changes = vec![
        Change::Remove(0, 2),
        Change::Add { shard: 0, to: 3, from: 1 },
        Change::Remove(1, 4),
        Change::Add { shard: 1, to: 5, from: 1 },
    ];
    assert_eq!(
        collection::replica_changes::in_order(&changes),
        vec![
            Change::Add { shard: 0, to: 3, from: 1 },
            Change::Add { shard: 1, to: 5, from: 1 },
            Change::Remove(0, 2),
            Change::Remove(1, 4),
        ]
    );
    assert!(collection::replica_changes::in_order(&Vec::new()).is_empty());
}

#[test]
fn one_change_takes_its_local_shard() {
    let set: ReplicaSet<&'static str> = ReplicaSet::build(0, 1, None, &vec![2, 3], |_| true).unwrap();
    let mut holder = holder_with(vec![(0, Shard::ReplicaSet(set))]);
    let mut locals: IdMap<u32, &'static str> = IdMap::new();
    locals.insert(0, "built");
    locals.insert(4, "other");
    let add = Change::Add { shard: 0, to: 1, from: 2 };
    let done = collection::replica_changes::apply_change(&mut holder, add, &mut locals, &|_: u32, _: &IdMap<u64, bool>| true)
        .ok()
        .unwrap();
    assert_eq!(done.transfer, Some(ShardTransfer { shard_id: 0, from: 2, to: 1, sync: true }));
    assert!(done.released.is_none());
    assert!(!locals.contains(0));
    assert!(locals.contains(4));
    // The set knows this peer now and refuses to add it once more.
    locals.insert(0, "again");
    let twice = collection::replica_changes::apply_change(&mut holder, add, &mut locals, &|_: u32, _: &IdMap<u64, bool>| true);
    assert!(matches!(twice, Err(CollectionError::ServiceError { .. })));
    assert!(locals.contains(0));
    // The removal hands the local shard back.
    let remove = Change::Remove(0, 1);
    let done = collection::replica_changes::apply_change(&mut holder, remove, &mut locals, &|_: u32, _: &IdMap<u64, bool>| true)
        .ok()
        .unwrap();
    assert!(done.transfer.is_none());
    assert!(matches!(done.released, Some(Shard::Local("built"))));
}

#[test]
fn batch_of_changes_stops_at_the_first_failure() {
    let first: ReplicaSet<&'static str> = ReplicaSet::build(0, 1, Some("a"), &vec![2, 3], |_| true).unwrap();
    let second: ReplicaSet<&'static str> = ReplicaSet::build(1, 1, None, &vec![2, 3], |_| true).unwrap();
    let mut collection =
        collection_with(vec![(0, Shard::ReplicaSet(first)), (1, Shard::ReplicaSet(second))]);
    let mut locals: IdMap<u32, &'static str> = IdMap::new();
    locals.insert(1, "b");
    locals.insert(9, "spare");
    // Taken in the order: add on this peer, add on peer 2 (refused), remove.
    let changes = vec![
        Change::Remove(0, 3),
        Change::Add { shard: 1, to: 1, from: 2 },
        Change::Add { shard: 0, to: 2, from: 1 },
    ];
    assert_eq!(
        collection::replica_changes::local_replicas_to_build(&collection.shards_holder, &changes),
        vec![1]
    );
    let done = collection.handle_replica_changes(&changes, locals, |_, _| true);
    assert!(matches!(done.result, Err(CollectionError::ServiceError { .. })));
    assert_eq!(done.made, 1);
    assert_eq!(done.transfers, vec![ShardTransfer { shard_id: 1, from: 2, to: 1, sync: true }]);
    assert!(done.released.is_empty());
    assert!(!done.unused_locals.contains(1));
    assert!(done.unused_locals.contains(9));
    // The removal that came after the failure was not made.
    match collection.shards_holder.get_shard(&0) {
        Some(Shard::ReplicaSet(set)) => assert_eq!(set.peer_ids(), vec![2, 3, 1]),
        _ => panic!("shard 0 stays a replica set"),
    }
    match collection.shards_holder.get_shard(&1) {
        Some(Shard::ReplicaSet(set)) => {
            assert_eq!(set.peer_ids(), vec![2, 3, 1]);
            assert!(!set.peer_is_active(&1));
        }
        _ => panic!("shard 1 stays a replica set"),
    }
    // A state that cannot be saved ends the batch before anything is made.
    let unsaved = collection.handle_replica_changes(&vec![Change::Remove(0, 3)], IdMap::new(), |_, _| false);
    assert!(matches!(unsaved.result, Err(CollectionError::ServiceError { .. })));
    assert_eq!(unsaved.made, 0);
    // With the removal alone the batch goes through and lets the replica go.
    let done = collection.handle_replica_changes(&vec![Change::Remove(1, 1)], IdMap::new(), |_, _| true);
    assert!(done.result.is_ok());
    assert_eq!(done.made, 1);
    assert_eq!(done.released.len(), 1);
    assert!(matches!(done.released[0], Shard::Local("b")));
}

#[test]
fn params_diff_sets_the_replication_factor() {
    let mut collection = collection_with(vec![(0, Shard::Local("a"))]);
    let zero = CollectionParamsDiff { replication_factor: Some(0) };
    assert!(matches!(
        collection.update_params_from_diff(&zero, &Vec::new(), IdMap::new(), |_, _| true),
        Err(CollectionError::BadRequest { .. })
    ));
    assert_eq!(collection.config.params.replication_factor, 1);
    let three = CollectionParamsDiff { replication_factor: Some(3) };
    assert!(collection.update_params_from_diff(&three, &Vec::new(), IdMap::new(), |_, _| true).is_ok());
    assert_eq!(collection.config.params.replication_factor, 3);
}

#[test]
fn suggested_changes_follow_the_replication_factor() {
    let first: ReplicaSet<&'static str> =
        ReplicaSet::build(0, 1, Some("a"), &vec![2, 3], |_| true).unwrap();
    let mut second: ReplicaSet<&'static str> =
        ReplicaSet::build(1, 1, None, &vec![2, 3], |_| true).unwrap();
    second.set_active(&2, false, |_| true).unwrap();
    let holder = holder_with(vec![(0, Shard::ReplicaSet(first)), (1, Shard::ReplicaSet(second))]);
    let collection = Collection::from_parts("test".to_string(), config(3), holder);
    let peers = vec![1, 2, 3, 4, 5];
    assert_eq!(collection.suggest_shard_replica_changes(3, &peers, 1).unwrap(), None);
    assert_eq!(
        collection.suggest_shard_replica_changes(1, &peers, 1).unwrap(),
        Some(vec![
            Change::Remove(0, 2),
            Change::Remove(0, 3),
            Change::Remove(1, 2),
            Change::Remove(1, 3),
        ])
    );
    assert_eq!(
        collection.suggest_shard_replica_changes(4, &peers, 1).unwrap(),
        Some(vec![
            Change::Add { shard: 0, to: 4, from: 2 },
            Change::Add { shard: 1, to: 1, from: 3 },
        ])
    );
    assert_eq!(
        collection.suggest_shard_replica_changes(9, &vec![2, 3], 1).unwrap(),
        Some(vec![])
    );

    let plain = collection_with(vec![(0, remote(0, 2)), (1, Shard::Local("b"))]);
    assert!(matches!(
        Collection::from_parts("test".to_string(), config(2), plain.shards_holder)
            .suggest_shard_replica_changes(1, &peers, 1),
        Err(CollectionError::ServiceError { .. })
    ));
    let grow = collection_with(vec![(0, remote(0, 2)), (1, Shard::Local("b"))]);
    assert_eq!(
        grow.suggest_shard_replica_changes(2, &vec![1, 2, 3], 1).unwrap(),
        Some(vec![
            Change::Add { shard: 0, to: 1, from: 2 },
            Change::Add { shard: 1, to: 2, from: 1 },
        ])
    );
}

#[test]
fn set_shard_replica_state_needs_a_replica_set() {
    let set: ReplicaSet<&'static str> = ReplicaSet::build(0, 1, Some("a"), &vec![2], |_| true).unwrap();
    let mut collection = collection_with(vec![(0, Shard::ReplicaSet(set)), (1, Shard::Local("b"))]);
    assert!(collection.set_shard_replica_state(0, 2, false, |_| true).is_ok());
    assert!(matches!(
        collection.set_shard_replica_state(0, 9, false, |_| true),
        Err(CollectionError::NotFound { .. })
    ));
    assert!(matches!(
        collection.set_shard_replica_state(1, 1, false, |_| true),
        Err(CollectionError::BadRequest { .. })
    ));
    assert!(matches!(
        collection.set_shard_replica_state(5, 1, false, |_| true),
        Err(CollectionError::NotFound { .. })
    ));
    assert!(!collection.before_drop_called);
    collection.before_drop();
    assert!(collection.before_drop_called);
}

#[test]
fn optimizer_configuration_goes_to_the_shards_with_data() {
    let set: ReplicaSet<&'static str> = ReplicaSet::build(2, 1, None, &vec![5, 6], |_| true).unwrap();
    let mut collection = collection_with(vec![
        (3, Shard::Local("d")),
        (1, remote(1, 7)),
        (2, Shard::ReplicaSet(set)),
    ]);
    collection.initiate_temporary_shard(1, "incoming");
    let targets = collection.update_optimizer_params(vec![1, 2, 3]);
    assert_eq!(
        targets,
        vec![
            collection::collection_ops::OptimizerTarget::Slot(3),
            collection::collection_ops::OptimizerTarget::Slot(2),
            collection::collection_ops::OptimizerTarget::Temporary(1),
        ]
    );
    assert_eq!(collection.config.optimizer_config, vec![1, 2, 3]);
}

#[test]
fn shards_are_named_by_their_kind() {
    let set: ReplicaSet<&'static str> = ReplicaSet::build(2, 1, None, &vec![5, 6], |_| true).unwrap();
    assert_eq!(Shard::Local("a").variant_name(), "local shard");
    assert_eq!(remote(1, 7).variant_name(), "remote shard");
    assert_eq!(Shard::ReplicaSet(set).variant_name(), "replica set");
}

#[test]
fn reopened_collection_routes_as_before() {
    let created = Collection::new(
        "points".to_string(),
        1,
        config(1),
        distribution(vec![(0, ShardType::Local), (1, ShardType::Remote(2)), (2, ShardType::Local)]),
        locals(vec![(0, "zero"), (2, "two")]),
        |_, _| true,
    )
    .ok()
    .unwrap();
    // The shards are found in another order when the collection is opened again.
    let mut found = IdMap::new();
    found.insert(2, LoadedShard::Local("two"));
    found.insert(0, LoadedShard::Local("zero"));
    found.insert(1, LoadedShard::Remote(2));
    let opened = Collection::load("points".to_string(), config(1), found, &Vec::new());
    for id in 0..500u64 {
        let point = collection::types::PointId::NumId(id);
        let before = created.shards_holder.ring.get(&point);
        assert!(before.is_some());
        assert_eq!(before, opened.shards_holder.ring.get(&point));
    }
    // A ring of another scale sends some point elsewhere.
    let mut other = HashRing::fair(7);
    for shard in 0..3u32 {
        other.add(shard);
    }
    assert!((0..500u64).any(|id| {
        let point = collection::types::PointId::NumId(id);
        other.get(&point) != created.shards_holder.ring.get(&point)
    }));
}

#[test]
fn applied_state_gives_the_configuration_and_a_plan() {
    let set: ReplicaSet<&'static str> = ReplicaSet::build(2, 1, Some("c"), &vec![5, 6], |_| true).unwrap();
    let mut collection = collection_with(vec![
        (0, Shard::Local("a")),
        (1, remote(1, 7)),
        (2, Shard::ReplicaSet(set)),
    ]);
    let kept = ShardTransfer { shard_id: 0, from: 1, to: 2, sync: false };
    let dropped = ShardTransfer { shard_id: 1, from: 7, to: 1, sync: false };
    collection.start_shard_transfer(kept, false, |_| true).unwrap();
    collection.start_shard_transfer(dropped, false, |_| true).unwrap();
    let mut target = IdMap::new();
    target.insert(1u64, true);
    target.insert(5u64, false);
    let mut plain = IdMap::new();
    plain.insert(9u64, true);
    let state = collection::collection_state::State {
        config: config(3),
        shards: vec![
            (0, ShardInfo::ReplicaSet { replicas: plain }),
            (2, ShardInfo::ReplicaSet { replicas: target }),
            (1, ShardInfo::Single(7)),
        ],
        transfers: vec![kept],
    };
    let plan = collection.apply_state(state);
    assert_eq!(collection.config.params.replication_factor, 3);
    assert_eq!(plan.to_abort, vec![dropped]);
    assert_eq!(plan.replica_states.len(), 1);
    assert_eq!(plan.replica_states[0].0, 2);
    assert_eq!(plan.replica_states[0].1.get(5), Some(&false));
    assert!(collection.check_transfer_exists(&dropped));
}
