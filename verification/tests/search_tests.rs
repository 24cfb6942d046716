use collection::collection::Collection;
use collection::collection_ops::{ScrollRequest, SearchPlan, SearchRequestBatch};
use collection::config::{CollectionConfig, CollectionParams, Distance, VectorParams};
use collection::hash_ring::{HashRing, HASH_RING_SHARD_SCALE};
use collection::recommend::{
    recommend_search_request, reference_ids, reference_vectors, NamedVector, RecommendRequest,
    VectorRecord,
};
use collection::results::{
    conclude_client_update, conclude_peer_update, scroll_page, sum_counts, CollectionInfo,
    CollectionStatus, CountResult, OptimizersStatus, PayloadIndexInfo, PayloadSchemaType,
    UpdateResult, UpdateStatus,
};
use collection::search::{
    fill_search_result_with_payload, is_two_step_search, merge_shard_results, peek_top, top_result,
    Order, Record, ScoredPoint, SearchFilter, SearchRequest, WithPayloadInterface, WithVector,
};
use collection::shard::Shard;
use collection::shard_holder::ShardHolder;
use collection::types::{CollectionError, PointId};
use collection::version::{
    can_upgrade_storage, check_storage_version, check_storage_version_texts, StorageVersionCheck,
    Version,
};

fn num(id: u64) -> PointId {
    PointId::NumId(id)
}

fn scored(id: u64, score: i32) -> ScoredPoint {
    ScoredPoint { id: num(id), version: 0, score, payload: None, vector: None }
}

fn scored_copy(p: &ScoredPoint) -> ScoredPoint {
    ScoredPoint { id: p.id, version: p.version, score: p.score, payload: None, vector: None }
}

fn ids(points: &[ScoredPoint]) -> Vec<u64> {
    points
        .iter()
        .map(|p| match p.id {
            PointId::NumId(n) => n,
            PointId::Uuid(_) => panic!("numbers only"),
        })
        .collect()
}

fn record(id: u64) -> Record {
    Record { id: num(id), payload: Some(Vec::new()), vector: Some(vec![id as u32]) }
}

fn record_ids(records: &[Record]) -> Vec<PointId> {
    records.iter().map(|r| r.id).collect()
}

fn search(limit: usize, offset: usize, payload: bool, vector: bool) -> SearchRequest {
    SearchRequest {
        vector_name: String::new(),
        vector: vec![1, 0, 0, 0],
        filter: None,
        params: None,
        limit,
        offset,
        with_payload: if payload { Some(WithPayloadInterface::Bool(true)) } else { None },
        with_vector: if vector { Some(WithVector::Bool(true)) } else { None },
        score_threshold: None,
    }
}

fn collection(shards: u32, distance: Distance) -> Collection<()> {
    let mut holder = ShardHolder::new(HashRing::fair(HASH_RING_SHARD_SCALE));
    for id in 0..shards {
        holder.add_shard(id, Shard::Local(()));
    }
    let config = CollectionConfig {
        params: CollectionParams {
            vectors: vec![VectorParams { name: String::new(), size: 4, distance }],
            shard_number: shards,
            replication_factor: 1,
            on_disk_payload: false,
        },
        hnsw_config: Vec::new(),
        optimizer_config: Vec::new(),
        wal_config: Vec::new(),
    };
    Collection::from_parts("points".to_string(), config, holder)
}

#[test]
fn best_points_come_first() {
    let points = vec![scored(1, 5), scored(2, 9), scored(3, 5), scored(4, -1), scored(5, 7)];
    assert_eq!(ids(&peek_top(points, 3, Order::LargeBetter)), vec![2, 5, 1]);
    let points = vec![scored(1, 5), scored(2, 9), scored(3, 5), scored(4, -1), scored(5, 7)];
    assert_eq!(ids(&peek_top(points, 4, Order::SmallBetter)), vec![4, 1, 3, 5]);
    let points = vec![scored(1, 5), scored(2, 9)];
    assert_eq!(ids(&peek_top(points, 10, Order::LargeBetter)), vec![2, 1]);
    assert!(peek_top(vec![scored(1, 5)], 0, Order::LargeBetter).is_empty());
}

#[test]
fn single_shard_upsert_then_search() {
    // Ids 1 and 2 with the scores 1.0 and 0.0 of a cosine search, as ordered integers.
    let collection = collection(1, Distance::Cosine);
    let batch = SearchRequestBatch { searches: vec![search(2, 0, false, false)] };
    let shard = vec![vec![scored(2, 0), scored(1, 1_065_353_216)]];
    let results = collection._search_batch(&batch, vec![shard], None).unwrap();
    assert_eq!(results.len(), 1);
    assert_eq!(ids(&results[0]), vec![1, 2]);
    assert_eq!(results[0][0].score, 1_065_353_216);
    assert_eq!(results[0][1].score, 0);
}

#[test]
fn offset_is_taken_off_for_clients_only() {
    let collection = collection(2, Distance::Euclid);
    let batch = SearchRequestBatch { searches: vec![search(2, 1, false, false), search(1, 5, false, false)] };
    let shards = || {
        vec![
            vec![vec![scored(1, 10), scored(2, 30)], vec![scored(7, 1)]],
            vec![vec![scored(3, 20), scored(4, 40)], vec![]],
        ]
    };
    let for_client = collection._search_batch(&batch, shards(), None).unwrap();
    assert_eq!(ids(&for_client[0]), vec![3, 2]);
    assert!(for_client[1].is_empty());
    let for_peer = collection._search_batch(&batch, shards(), Some(0)).unwrap();
    assert_eq!(ids(&for_peer[0]), vec![1, 3, 2]);
    assert_eq!(ids(&for_peer[1]), vec![7]);

    let one = collection
        .search(search(1, 1, false, false), vec![vec![scored(1, 10)], vec![scored(3, 20)]], None)
        .unwrap();
    assert_eq!(ids(&one), vec![3]);
    assert_eq!(ids(&top_result(vec![scored(1, 1), scored(2, 2)], 5, 0, Order::LargeBetter, None)), vec![2, 1]);
}

#[test]
fn unknown_vector_names_are_rejected() {
    let collection = collection(1, Distance::Dot);
    let mut request = search(1, 0, false, false);
    request.vector_name = "image".to_string();
    let batch = SearchRequestBatch { searches: vec![search(1, 0, false, false), request] };
    assert!(matches!(
        collection._search_batch(&batch, vec![], None),
        Err(CollectionError::BadRequest { .. })
    ));
}

#[test]
fn shard_results_are_merged_by_query() {
    let merged = merge_shard_results(
        vec![vec![vec![scored(1, 1)], vec![scored(2, 2)]], vec![vec![scored(3, 3)]]],
        3,
    );
    assert_eq!(merged.len(), 3);
    assert_eq!(ids(&merged[0]), vec![1, 3]);
    assert_eq!(ids(&merged[1]), vec![2]);
    assert!(merged[2].is_empty());
}

#[test]
fn two_steps_when_the_shards_send_much_more_than_is_used() {
    // 3 shards * (limit 10 + offset 0) = 30 is not more than 10 * 10.
    assert!(!is_two_step_search(&vec![search(10, 0, true, false)], 3));
    // 11 shards * 10 = 110 is more than 100.
    assert!(is_two_step_search(&vec![search(10, 0, true, false)], 11));
    assert!(is_two_step_search(&vec![search(10, 0, false, true)], 11));
    assert!(!is_two_step_search(&vec![search(10, 0, false, false)], 11));
    // 2 shards * (1 + 5) = 12 is more than 10.
    assert!(is_two_step_search(&vec![search(1, 5, true, true)], 2));
    // 10 shards * 10 = 100 is not more than 100.
    assert!(!is_two_step_search(&vec![search(10, 0, true, false)], 10));
    // Not every search asks for payload, but every search asks for vectors.
    assert!(is_two_step_search(&vec![search(1, 9, true, true), search(1, 9, false, true)], 2));
    assert!(!is_two_step_search(&vec![search(1, 9, true, false), search(1, 9, false, true)], 2));
    assert!(!is_two_step_search(&Vec::new(), 100));

    let collection = collection(11, Distance::Cosine);
    let mut request = search(10, 0, true, false);
    request.filter = Some(SearchFilter::Encoded(vec![4, 2]));
    match collection.search_batch(&SearchRequestBatch { searches: vec![request] }) {
        SearchPlan::TwoStep(stripped) => {
            assert_eq!(stripped.len(), 1);
            assert!(stripped[0].with_payload.is_none());
            assert!(stripped[0].with_vector.is_none());
            assert_eq!(stripped[0].limit, 10);
            assert!(matches!(&stripped[0].filter, Some(SearchFilter::Encoded(f)) if f == &vec![4, 2]));
        }
        SearchPlan::Direct => panic!("the search is run in two steps"),
    }
    assert!(matches!(
        collection.search_batch(&SearchRequestBatch { searches: vec![search(10, 0, false, false)] }),
        SearchPlan::Direct
    ));
}

#[test]
fn filling_keeps_ids_and_scores() {
    let found = vec![scored(3, 30), scored(1, 10), scored(2, 20)];
    let records = vec![record(1), record(2), record(3)];
    let filled = fill_search_result_with_payload(found, records);
    assert_eq!(ids(&filled), vec![3, 1, 2]);
    assert_eq!(filled.iter().map(|p| p.score).collect::<Vec<_>>(), vec![30, 10, 20]);
    assert_eq!(filled[0].vector, Some(vec![3]));
    assert!(filled[1].payload.is_some());

    // Point 1 was deleted between the search and the read.
    let found = vec![scored(3, 30), scored(1, 10), scored(2, 20)];
    let filled = fill_search_result_with_payload(found, vec![record(2), record(3)]);
    assert_eq!(ids(&filled), vec![3, 2]);
    assert!(fill_search_result_with_payload(vec![scored(1, 1)], Vec::new()).is_empty());
}

#[test]
fn sharded_scroll() {
    // Three shards hold the ids 1 to 9 as the ring spreads them.
    let mut ring = HashRing::fair(HASH_RING_SHARD_SCALE);
    for shard in 0..3 {
        ring.add(shard);
    }
    let mut shards: Vec<Vec<u64>> = vec![Vec::new(); 3];
    for id in 1..=9u64 {
        shards[ring.get(&num(id)).unwrap() as usize].push(id);
    }
    let scroll = |offset: Option<u64>, limit: usize| {
        let request = ScrollRequest {
            offset: offset.map(num),
            limit: Some(limit),
            filter: None,
            with_payload: None,
            with_vector: WithVector::Bool(false),
        };
        let per_shard = Collection::<()>::scroll_limit(&request).unwrap();
        let records: Vec<Vec<Record>> = shards
            .iter()
            .map(|ids| {
                ids.iter()
                    .filter(|id| offset.map_or(true, |from| **id >= from))
                    .take(per_shard)
                    .map(|id| record(*id))
                    .collect()
            })
            .collect();
        Collection::<()>::scroll_by(&request, records).unwrap()
    };
    let first = scroll(None, 4);
    assert_eq!(record_ids(&first.points), vec![num(1), num(2), num(3), num(4)]);
    assert_eq!(first.next_page_offset, Some(num(5)));
    let second = scroll(Some(5), 4);
    assert_eq!(record_ids(&second.points), vec![num(5), num(6), num(7), num(8)]);
    assert_eq!(second.next_page_offset, Some(num(9)));
    let last = scroll(Some(9), 4);
    assert_eq!(record_ids(&last.points), vec![num(9)]);
    assert_eq!(last.next_page_offset, None);
}

#[test]
fn scroll_needs_a_limit_and_orders_numbers_before_uuids() {
    assert!(matches!(scroll_page(Vec::new(), 0), Err(CollectionError::BadRequest { .. })));
    let request = ScrollRequest {
        offset: None,
        limit: Some(0),
        filter: None,
        with_payload: None,
        with_vector: WithVector::Bool(false),
    };
    assert!(matches!(
        Collection::<()>::scroll_limit(&request),
        Err(CollectionError::BadRequest { .. })
    ));
    let default = ScrollRequest { limit: None, ..request };
    assert_eq!(Collection::<()>::scroll_limit(&default).ok(), Some(11));

    let uuid = |u: u128| Record { id: PointId::Uuid(u), payload: None, vector: None };
    let page = scroll_page(vec![vec![uuid(7), record(u64::MAX)], vec![uuid(3), record(0)]], 3).unwrap();
    assert_eq!(
        record_ids(&page.points),
        vec![num(0), num(u64::MAX), PointId::Uuid(3)]
    );
    assert_eq!(page.next_page_offset, Some(PointId::Uuid(7)));
    assert!(num(u64::MAX).precedes(&PointId::Uuid(0)));
    assert!(!PointId::Uuid(0).precedes(&num(5)));
    assert_eq!(num(5).order_key(), (0, 5));
}

fn updated(operation_id: u64) -> Result<UpdateResult, CollectionError> {
    Ok(UpdateResult { operation_id, status: UpdateStatus::Completed })
}

fn failed(text: &str) -> Result<UpdateResult, CollectionError> {
    Err(CollectionError::ServiceError { error: text.to_string() })
}

#[test]
fn partial_failure_of_an_update_is_an_inconsistency() {
    assert!(matches!(
        conclude_client_update(vec![updated(1), updated(2)]),
        Ok(UpdateResult { operation_id: 2, .. })
    ));
    match conclude_client_update(vec![updated(1), failed("first"), failed("second"), updated(4)]) {
        Err(CollectionError::InconsistentShardFailure { shards_total, shards_failed, first_err }) => {
            assert_eq!(shards_total, 4);
            assert_eq!(shards_failed, 2);
            assert!(matches!(*first_err, CollectionError::ServiceError { error } if error == "first"));
        }
        _ => panic!("some shards failed and some did not"),
    }
    assert!(matches!(
        conclude_client_update(vec![failed("first"), failed("second")]),
        Err(CollectionError::ServiceError { error }) if error == "first"
    ));
    assert!(conclude_peer_update(Vec::new()).is_none());
    assert!(matches!(
        conclude_peer_update(vec![updated(1), updated(2)]),
        Some(Ok(UpdateResult { operation_id: 2, .. }))
    ));
    assert!(matches!(conclude_peer_update(vec![updated(1), failed("x")]), Some(Err(_))));
    match Collection::<()>::update_from_peer(Vec::new(), 3) {
        Err(CollectionError::ServiceError { error }) => {
            assert_eq!(error, "No target shard 3 found for update")
        }
        _ => panic!("the update had no target"),
    }
}

fn info(status: CollectionStatus, optimizer_status: OptimizersStatus, points: usize) -> CollectionInfo {
    CollectionInfo {
        status,
        optimizer_status,
        vectors_count: points,
        indexed_vectors_count: 0,
        points_count: points,
        segments_count: 2,
        payload_schema: Vec::new(),
    }
}

#[test]
fn infos_and_counts_add_up() {
    assert_eq!(sum_counts(&vec![CountResult { count: 3 }, CountResult { count: 4 }]).count, 7);
    assert_eq!(Collection::<()>::count(&Vec::new()).count, 0);
    assert_eq!(
        record_ids(&Collection::<()>::retrieve(vec![vec![record(2)], vec![], vec![record(1)]])),
        vec![num(2), num(1)]
    );

    let keyword = PayloadIndexInfo { data_type: PayloadSchemaType::Keyword };
    let integer = PayloadIndexInfo { data_type: PayloadSchemaType::Integer };
    let mut first = info(CollectionStatus::Yellow, OptimizersStatus::Good, 10);
    first.payload_schema = vec![("city".to_string(), keyword), ("age".to_string(), keyword)];
    let mut second = info(CollectionStatus::Green, OptimizersStatus::Error("b".to_string()), 5);
    second.payload_schema = vec![("age".to_string(), integer), ("zip".to_string(), integer)];
    let third = info(CollectionStatus::Green, OptimizersStatus::Error("ab".to_string()), 1);
    let merged = Collection::<()>::info(vec![first, second, third]).unwrap();
    assert_eq!(merged.status, CollectionStatus::Yellow);
    assert!(matches!(&merged.optimizer_status, OptimizersStatus::Error(text) if text == "b"));
    assert_eq!(merged.points_count, 16);
    assert_eq!(merged.vectors_count, 16);
    assert_eq!(merged.segments_count, 6);
    assert_eq!(
        merged.payload_schema,
        vec![
            ("city".to_string(), keyword),
            ("age".to_string(), integer),
            ("zip".to_string(), integer)
        ]
    );
    assert!(matches!(
        Collection::<()>::info(Vec::new()),
        Err(CollectionError::ServiceError { .. })
    ));
    assert_eq!(CollectionStatus::Green.worse(CollectionStatus::Red), CollectionStatus::Red);
    assert_eq!(CollectionStatus::Yellow.worse(CollectionStatus::Green), CollectionStatus::Yellow);
    assert!(matches!(
        OptimizersStatus::Error("a".to_string()).larger(OptimizersStatus::Error("b".to_string())),
        OptimizersStatus::Error(text) if text == "b"
    ));
    assert!(matches!(
        OptimizersStatus::Error("b".to_string()).larger(OptimizersStatus::Error("a".to_string())),
        OptimizersStatus::Error(text) if text == "b"
    ));
    assert!(matches!(
        OptimizersStatus::Error("a".to_string()).larger(OptimizersStatus::Good),
        OptimizersStatus::Error(_)
    ));
}

fn recommend(positive: Vec<u64>, negative: Vec<u64>) -> RecommendRequest {
    RecommendRequest {
        positive: positive.into_iter().map(num).collect(),
        negative: negative.into_iter().map(num).collect(),
        filter: Some(vec![9]),
        params: None,
        limit: 3,
        offset: 1,
        with_payload: None,
        with_vector: None,
        score_threshold: Some(5),
        using: None,
    }
}

fn vectors(id: u64, names: &[&str]) -> VectorRecord {
    VectorRecord {
        id: num(id),
        vectors: names
            .iter()
            .map(|name| NamedVector { name: name.to_string(), vector: vec![id as u32, name.len() as u32] })
            .collect(),
    }
}

#[test]
fn recommend_reads_its_reference_points_and_leaves_them_out() {
    let requests = vec![recommend(vec![1, 2], vec![3]), recommend(vec![2, 4], vec![1])];
    assert_eq!(reference_ids(&requests).unwrap(), vec![num(1), num(2), num(3), num(4)]);
    let stored = vec![vectors(1, &[""]), vectors(2, &[""]), vectors(3, &[""]), vectors(4, &[""])];
    // The target: the sum of the positive vectors, less the sum of the negative ones.
    let target = |positive: &Vec<Vec<u32>>, negative: &Vec<Vec<u32>>| {
        let sum = |list: &Vec<Vec<u32>>| list.iter().map(|v| v[0]).sum::<u32>();
        vec![sum(positive) - sum(negative)]
    };
    let batch = Collection::<()>::recommend_batch_by(&requests, &stored, target).unwrap();
    assert_eq!(batch.searches.len(), 2);
    assert_eq!(batch.searches[0].vector, vec![0]);
    assert_eq!(batch.searches[1].vector, vec![5]);
    assert!(matches!(
        &batch.searches[1].filter,
        Some(SearchFilter::Excluding { must_not_ids, .. }) if must_not_ids == &vec![num(2), num(4), num(1)]
    ));
    // The first request that cannot be served fails the batch.
    let missing = vec![recommend(vec![1], vec![]), recommend(vec![8], vec![9]), recommend(vec![7], vec![])];
    assert!(matches!(
        Collection::<()>::recommend_batch_by(&missing, &stored, target),
        Err(CollectionError::PointNotFound { missed_point_id }) if missed_point_id == num(8)
    ));
    let none = vec![recommend(vec![1], vec![]), recommend(vec![], vec![2])];
    assert!(matches!(
        Collection::<()>::recommend_batch_by(&none, &stored, target),
        Err(CollectionError::BadRequest { .. })
    ));
    assert!(matches!(
        reference_ids(&vec![recommend(vec![1], vec![]), recommend(vec![], vec![2])]),
        Err(CollectionError::BadRequest { description }) if description == "At least one positive vector ID required"
    ));

    let records = vec![vectors(3, &["", "image"]), vectors(1, &[""]), vectors(2, &[""])];
    let request = recommend(vec![1, 2], vec![3]);
    let reference = reference_vectors(&request, &records).unwrap();
    assert_eq!(reference.vector_name, "");
    assert_eq!(reference.positive, vec![vec![1, 0], vec![2, 0]]);
    assert_eq!(reference.negative, vec![vec![3, 0]]);

    let search = recommend_search_request(&request, reference.vector_name, vec![5, 5]);
    assert_eq!(search.vector, vec![5, 5]);
    assert_eq!(search.limit, 3);
    assert_eq!(search.offset, 1);
    assert_eq!(search.score_threshold, Some(5));
    match search.filter {
        Some(SearchFilter::Excluding { must, must_not_ids }) => {
            assert_eq!(must, Some(vec![9]));
            assert_eq!(must_not_ids, vec![num(1), num(2), num(3)]);
        }
        _ => panic!("the reference points are left out"),
    }

    assert!(matches!(
        reference_vectors(&recommend(vec![1, 8], vec![9]), &records),
        Err(CollectionError::PointNotFound { missed_point_id }) if missed_point_id == num(8)
    ));
    assert!(matches!(
        reference_vectors(&recommend(vec![1], vec![9]), &records),
        Err(CollectionError::PointNotFound { missed_point_id }) if missed_point_id == num(9)
    ));
    let mut by_name = recommend(vec![3], vec![]);
    by_name.using = Some("image".to_string());
    assert!(matches!(
        reference_vectors(&by_name, &records),
        Err(CollectionError::BadRequest { .. })
    ));
    let only_three = vec![vectors(3, &["", "image"])];
    assert_eq!(reference_vectors(&by_name, &only_three).unwrap().positive, vec![vec![3, 5]]);
}

fn version(major: u64, minor: u64, patch: u64) -> Version {
    Version { major, minor, patch, pre: String::new(), build: String::new() }
}

#[test]
fn storage_is_taken_over_by_the_next_patch_release_only() {
    assert!(can_upgrade_storage(&version(0, 4, 0), &version(0, 4, 1)));
    assert!(!can_upgrade_storage(&version(0, 4, 0), &version(0, 4, 2)));
    assert!(!can_upgrade_storage(&version(0, 4, 0), &version(0, 5, 0)));
    assert!(!can_upgrade_storage(&version(0, 4, 0), &version(0, 5, 1)));
    assert!(!can_upgrade_storage(&version(0, 4, 0), &version(1, 4, 0)));
    assert!(can_upgrade_storage(&version(0, 4, u64::MAX), &version(0, 4, u64::MAX)));
    assert!(can_upgrade_storage(&version(0, 4, 3), &version(0, 4, 1)));

    assert_eq!(
        check_storage_version(&version(0, 4, 1), &version(0, 4, 1)),
        StorageVersionCheck::UpToDate
    );
    assert_eq!(
        check_storage_version(&version(0, 4, 0), &version(0, 4, 1)),
        StorageVersionCheck::Migrate
    );
    assert_eq!(
        check_storage_version(&version(0, 4, 2), &version(0, 4, 1)),
        StorageVersionCheck::TooNew
    );
    assert_eq!(
        check_storage_version(&version(0, 3, 9), &version(0, 4, 1)),
        StorageVersionCheck::Incompatible
    );

    assert_eq!(
        check_storage_version_texts("0.10.1", "0.10.2"),
        Some(StorageVersionCheck::Migrate)
    );
    assert_eq!(
        check_storage_version_texts("0.10.2", "0.10.2"),
        Some(StorageVersionCheck::UpToDate)
    );
    assert_eq!(
        check_storage_version_texts("0.10.2", "0.10.4"),
        Some(StorageVersionCheck::Incompatible)
    );
    assert_eq!(
        check_storage_version_texts("1.0.0", "0.10.4"),
        Some(StorageVersionCheck::TooNew)
    );
    assert_eq!(check_storage_version_texts("0.10", "0.10.4"), None);
    assert_eq!(check_storage_version_texts("0.10.4", "latest"), None);

    let parsed = Version::parse("1.20.3-rc.1+build.7").unwrap();
    assert_eq!((parsed.major, parsed.minor, parsed.patch), (1, 20, 3));
    assert_eq!(parsed.pre, "rc.1");
    assert_eq!(parsed.build, "build.7");
    assert!(Version::parse("1.0.01").is_none());
}

#[test]
fn points_that_are_left_out_are_no_better() {
    let points = vec![scored(1, 5), scored(2, 9), scored(3, 5), scored(4, 7), scored(5, 1), scored(6, 9)];
    let all: Vec<(u64, i32)> = vec![(1, 5), (2, 9), (3, 5), (4, 7), (5, 1), (6, 9)];
    for n in 0..8usize {
        let top = peek_top(points.iter().map(|p| scored_copy(p)).collect(), n, Order::LargeBetter);
        assert_eq!(top.len(), n.min(points.len()));
        let picked = ids(&top);
        let worst = top.last().map(|p| p.score);
        for (id, score) in &all {
            if !picked.contains(id) {
                assert!(worst.map(|w| *score <= w).unwrap_or(true));
            }
        }
        let small = peek_top(points.iter().map(|p| scored_copy(p)).collect(), n, Order::SmallBetter);
        let picked = ids(&small);
        let worst = small.last().map(|p| p.score);
        for (id, score) in &all {
            if !picked.contains(id) {
                assert!(worst.map(|w| *score >= w).unwrap_or(true));
            }
        }
    }
    // Points of equal score keep the order in which they came.
    let top = peek_top(points, 3, Order::LargeBetter);
    assert_eq!(ids(&top), vec![2, 6, 4]);
}

#[test]
fn scroll_without_a_page_says_so() {
    let request = ScrollRequest {
        offset: None,
        limit: Some(0),
        filter: None,
        with_payload: None,
        with_vector: WithVector::Bool(false),
    };
    assert!(matches!(
        Collection::<()>::scroll_by(&request, Vec::new()),
        Err(CollectionError::BadRequest { description }) if description == "Limit cannot be 0"
    ));
    assert!(matches!(
        Collection::<()>::scroll_limit(&request),
        Err(CollectionError::BadRequest { description }) if description == "Limit cannot be 0"
    ));
}

#[test]
fn pre_release_comes_before_its_release() {
    assert_eq!(
        check_storage_version_texts("0.4.1", "0.4.1-rc.1"),
        Some(StorageVersionCheck::TooNew)
    );
    assert_eq!(
        check_storage_version_texts("0.4.1-rc.1", "0.4.1"),
        Some(StorageVersionCheck::Migrate)
    );
    assert_eq!(
        check_storage_version_texts("0.4.1-rc.1", "0.4.1-rc.1"),
        Some(StorageVersionCheck::UpToDate)
    );
    assert_eq!(
        check_storage_version_texts("0.4.1-rc.2", "0.4.1-rc.1"),
        Some(StorageVersionCheck::TooNew)
    );
    let stored = collection::version::Version::parse("0.4.1").unwrap();
    let app = collection::version::Version::parse("0.4.2").unwrap();
    assert_eq!(
        collection::version::storage_verdict(&stored, &app, false),
        StorageVersionCheck::Migrate
    );
    assert_eq!(
        collection::version::storage_verdict(&stored, &app, true),
        StorageVersionCheck::TooNew
    );
}
