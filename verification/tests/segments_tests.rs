use collection::operations::{
    Batch, FieldIndexOperations, PayloadField, PayloadOps, PointInsertOperations, PointOperations,
    PointStruct,
};
use collection::segments::{SegmentHolder, StoredPoint};
use collection::segments_updater::{
    check_unprocessed_points, clear_payload, clear_payload_by_filter, create_field_index,
    delete_field_index, delete_payload, delete_points, delete_points_by_filter,
    process_field_index_operation, process_payload_operation, process_point_operation, read_range,
    set_payload, sync_points, upsert_points,
};
use collection::types::{CollectionError, PointId};

fn num(id: u64) -> PointId {
    PointId::NumId(id)
}

fn field(key: &str, value: &str) -> PayloadField {
    PayloadField { key: key.to_string(), value: value.as_bytes().to_vec() }
}

fn point(id: u64, vector: u32, payload: Option<Vec<(&str, &str)>>) -> PointStruct {
    PointStruct {
        id: num(id),
        vector: vec![vector],
        payload: payload.map(|fields| fields.into_iter().map(|(k, v)| field(k, v)).collect()),
    }
}

fn holder() -> SegmentHolder {
    let mut holder = SegmentHolder::new();
    holder.add_segment(false);
    holder.add_segment(true);
    holder.add_segment(true);
    holder
}

fn stored<'a>(holder: &'a SegmentHolder, id: u64) -> Option<(usize, &'a StoredPoint)> {
    let at = holder.segment_of(num(id))?;
    Some((at, holder.segments[at].points.get(num(id)).unwrap()))
}

fn payload_of(holder: &SegmentHolder, id: u64) -> Vec<(String, String)> {
    stored(holder, id)
        .unwrap()
        .1
        .payload
        .iter()
        .map(|f| (f.key.clone(), String::from_utf8(f.value.clone()).unwrap()))
        .collect()
}

fn pair(key: &str, value: &str) -> (String, String) {
    (key.to_string(), value.to_string())
}

fn seal_point(holder: &mut SegmentHolder, id: u64) {
    let (_, point) = holder.take_point(num(id)).unwrap();
    holder.put_point(0, num(id), point);
}

#[test]
fn unprocessed_points_are_named_in_order() {
    let points = vec![num(1), num(2), num(3)];
    assert_eq!(check_unprocessed_points(&points, &vec![num(3), num(1), num(2)]).ok(), Some(3));
    assert!(matches!(
        check_unprocessed_points(&points, &vec![num(1)]),
        Err(CollectionError::PointNotFound { missed_point_id }) if missed_point_id == num(2)
    ));
    assert_eq!(check_unprocessed_points(&Vec::new(), &vec![num(1)]).ok(), Some(1));
}

#[test]
fn upsert_stores_new_points_and_replaces_stored_ones() {
    let mut holder = holder();
    let first = vec![point(1, 10, Some(vec![("city", "A")])), point(2, 20, None)];
    assert_eq!(upsert_points(&mut holder, 5, &first).ok(), Some(0));
    assert_eq!(stored(&holder, 1).map(|s| s.0), Some(1));
    assert_eq!(stored(&holder, 2).unwrap().1.vector, vec![20]);
    assert_eq!(stored(&holder, 2).unwrap().1.version, 5);

    let second = vec![
        point(1, 11, Some(vec![("age", "7")])),
        point(3, 30, None),
        point(3, 31, None),
    ];
    assert_eq!(upsert_points(&mut holder, 6, &second).ok(), Some(2));
    assert_eq!(stored(&holder, 1).unwrap().1.vector, vec![11]);
    assert_eq!(payload_of(&holder, 1), vec![pair("city", "A"), pair("age", "7")]);
    assert_eq!(stored(&holder, 3).unwrap().1.vector, vec![31]);

    // An earlier operation leaves the points alone.
    assert_eq!(upsert_points(&mut holder, 4, &vec![point(1, 99, None)]).ok(), Some(0));
    assert_eq!(stored(&holder, 1).unwrap().1.vector, vec![11]);
}

#[test]
fn writes_move_points_out_of_sealed_segments() {
    let mut holder = holder();
    upsert_points(&mut holder, 1, &vec![point(1, 10, None), point(2, 20, None)]).unwrap();
    seal_point(&mut holder, 1);
    assert_eq!(stored(&holder, 1).map(|s| s.0), Some(0));
    let payload = vec![field("city", "B")];
    assert_eq!(set_payload(&mut holder, 2, &payload, &vec![num(1), num(2)]).ok(), Some(2));
    assert_eq!(stored(&holder, 1).map(|s| s.0), Some(1));
    assert_eq!(payload_of(&holder, 1), vec![pair("city", "B")]);
    assert_eq!(stored(&holder, 1).unwrap().1.version, 2);
}

#[test]
fn writes_fail_without_a_segment_that_takes_points() {
    let mut sealed = SegmentHolder::new();
    sealed.add_segment(false);
    sealed.put_point(0, num(1), StoredPoint { version: 1, vector: vec![1], payload: Vec::new() });
    assert!(matches!(
        upsert_points(&mut sealed, 2, &vec![point(2, 2, None)]),
        Err(CollectionError::ServiceError { error }) if error == "No segments exists, expected at least one"
    ));
    assert!(matches!(
        clear_payload(&mut sealed, 2, &vec![num(1)]),
        Err(CollectionError::ServiceError { .. })
    ));
    assert!(matches!(
        sync_points(&mut sealed, 2, None, None, &vec![point(1, 1, None)]),
        Err(CollectionError::ServiceError { .. })
    ));
    // Deleting needs no such segment.
    assert_eq!(delete_points(&mut sealed, 2, &vec![num(1)]).ok(), Some(1));
    assert!(sealed.segment_of(num(1)).is_none());
}

#[test]
fn payload_operations_name_the_first_point_they_missed() {
    let mut holder = holder();
    upsert_points(
        &mut holder,
        5,
        &vec![point(1, 1, Some(vec![("a", "1"), ("b", "2"), ("c", "3")])), point(2, 2, None)],
    )
    .unwrap();
    let keys = vec!["a".to_string(), "c".to_string(), "x".to_string()];
    assert!(matches!(
        delete_payload(&mut holder, 6, &vec![num(1), num(7), num(8)], &keys),
        Err(CollectionError::PointNotFound { missed_point_id }) if missed_point_id == num(7)
    ));
    // Point 1 was written all the same.
    assert_eq!(payload_of(&holder, 1), vec![pair("b", "2")]);
    // A later write makes an earlier operation miss the point.
    assert!(matches!(
        clear_payload(&mut holder, 3, &vec![num(1)]),
        Err(CollectionError::PointNotFound { missed_point_id }) if missed_point_id == num(1)
    ));
    assert_eq!(clear_payload(&mut holder, 7, &vec![num(1), num(1), num(2)]).ok(), Some(2));
    assert!(payload_of(&holder, 1).is_empty());
    let replace = vec![field("b", "9"), field("d", "4")];
    set_payload(&mut holder, 8, &vec![field("b", "2")], &vec![num(1)]).unwrap();
    set_payload(&mut holder, 9, &replace, &vec![num(1)]).unwrap();
    assert_eq!(payload_of(&holder, 1), vec![pair("b", "9"), pair("d", "4")]);
}

#[test]
fn deleted_points_are_counted_once() {
    let mut holder = holder();
    upsert_points(&mut holder, 5, &vec![point(1, 1, None), point(2, 2, None), point(3, 3, None)]).unwrap();
    assert_eq!(delete_points(&mut holder, 4, &vec![num(1)]).ok(), Some(0));
    assert_eq!(delete_points(&mut holder, 6, &vec![num(1), num(9), num(1), num(3)]).ok(), Some(2));
    assert!(holder.segment_of(num(1)).is_none());
    assert!(holder.segment_of(num(2)).is_some());
}

#[test]
fn filters_pick_the_points_to_change() {
    let mut holder = holder();
    let points: Vec<PointStruct> = (1..=6).map(|id| point(id, id as u32, Some(vec![("k", "v")]))).collect();
    upsert_points(&mut holder, 5, &points).unwrap();
    let even = |id: &PointId, _point: &StoredPoint| matches!(id, PointId::NumId(n) if n % 2 == 0);
    assert_eq!(clear_payload_by_filter(&mut holder, 6, even).ok(), Some(3));
    assert!(payload_of(&holder, 2).is_empty());
    assert_eq!(payload_of(&holder, 3), vec![pair("k", "v")]);
    let bare = |_id: &PointId, point: &StoredPoint| point.payload.is_empty();
    assert_eq!(delete_points_by_filter(&mut holder, 7, bare).ok(), Some(3));
    let mut left = read_range(&holder, None, None);
    left.sort_by_key(|id| id.order_key());
    assert_eq!(left, vec![num(1), num(3), num(5)]);
    assert_eq!(read_range(&holder, Some(num(3)), Some(num(4))), vec![num(3)]);
}

#[test]
fn sync_brings_the_range_in_line() {
    let mut holder = holder();
    let start = vec![
        point(1, 1, None),
        point(2, 2, Some(vec![("k", "v")])),
        point(3, 3, None),
        point(4, 4, None),
        point(20, 20, None),
    ];
    upsert_points(&mut holder, 5, &start).unwrap();
    let wanted = vec![
        point(2, 2, Some(vec![("k", "v")])), // as stored
        point(3, 33, None),                  // changed
        point(5, 5, None),                   // new
        point(6, 6, None),                   // new
    ];
    let counts = sync_points(&mut holder, 6, Some(num(1)), Some(num(10)), &wanted).unwrap();
    assert_eq!(counts, (2, 2, 1));
    let mut left = read_range(&holder, None, None);
    left.sort_by_key(|id| id.order_key());
    assert_eq!(left, vec![num(2), num(3), num(5), num(6), num(20)]);
    assert_eq!(stored(&holder, 3).unwrap().1.vector, vec![33]);
    assert_eq!(stored(&holder, 2).unwrap().1.version, 5);
    assert_eq!(stored(&holder, 5).unwrap().1.version, 6);
    // In line already: nothing to do.
    let counts = sync_points(&mut holder, 7, Some(num(1)), Some(num(10)), &wanted).unwrap();
    assert_eq!(counts, (0, 0, 0));
}

#[test]
fn field_indexes_are_kept_by_segment() {
    let mut holder = holder();
    let city = "city".to_string();
    assert_eq!(create_field_index(&mut holder, 1, &city).ok(), Some(3));
    assert_eq!(create_field_index(&mut holder, 2, &city).ok(), Some(0));
    assert_eq!(holder.segments[2].indexed_fields, vec!["city".to_string()]);
    assert_eq!(delete_field_index(&mut holder, 3, &"age".to_string()).ok(), Some(0));
    assert_eq!(delete_field_index(&mut holder, 4, &city).ok(), Some(3));
    assert!(holder.segments[0].indexed_fields.is_empty());
    let create = FieldIndexOperations::CreateIndex { field_name: "age".to_string(), field_schema: None };
    assert_eq!(process_field_index_operation(&mut holder, 5, &create).ok(), Some(3));
    let delete = FieldIndexOperations::DeleteIndex("age".to_string());
    assert_eq!(process_field_index_operation(&mut holder, 6, &delete).ok(), Some(3));
}

#[test]
fn operations_are_dispatched_to_their_kind() {
    let never = |_filter: &Vec<u8>, _id: &PointId, _point: &StoredPoint| false;
    let by_first_byte = |filter: &Vec<u8>, id: &PointId, _point: &StoredPoint| {
        matches!(id, PointId::NumId(n) if *n == filter[0] as u64)
    };
    let mut holder = holder();
    let batch = PointOperations::UpsertPoints(PointInsertOperations::PointsBatch(Batch {
        ids: vec![num(1), num(2), num(3)],
        vectors: vec![vec![1], vec![2], vec![3]],
        payloads: Some(vec![None, Some(vec![field("k", "v")]), None]),
    }));
    assert_eq!(process_point_operation(&mut holder, 1, batch, never).ok(), Some(0));
    assert_eq!(payload_of(&holder, 2), vec![pair("k", "v")]);
    let uneven = PointOperations::UpsertPoints(PointInsertOperations::PointsBatch(Batch {
        ids: vec![num(1)],
        vectors: Vec::new(),
        payloads: None,
    }));
    assert!(matches!(
        process_point_operation(&mut holder, 2, uneven, never),
        Err(CollectionError::BadRequest { .. })
    ));
    let clear = PayloadOps::ClearPayloadByFilter(vec![2]);
    assert_eq!(process_payload_operation(&mut holder, 3, clear, by_first_byte).ok(), Some(1));
    assert!(payload_of(&holder, 2).is_empty());
    let set = PayloadOps::SetPayload { payload: vec![field("a", "1")], points: vec![num(3)] };
    assert_eq!(process_payload_operation(&mut holder, 4, set, never).ok(), Some(1));
    let sync = PointOperations::SyncPoints {
        from_id: None,
        to_id: None,
        points: vec![point(3, 3, Some(vec![("a", "1")])), point(4, 4, None)],
    };
    // Two deleted, one new, none changed.
    assert_eq!(process_point_operation(&mut holder, 5, sync, never).ok(), Some(3));
    let by_filter = PointOperations::DeletePointsByFilter(vec![4]);
    assert_eq!(process_point_operation(&mut holder, 6, by_filter, by_first_byte).ok(), Some(1));
    let delete = PointOperations::DeletePoints { ids: vec![num(3), num(4)] };
    assert_eq!(process_point_operation(&mut holder, 7, delete, never).ok(), Some(1));
    assert!(read_range(&holder, None, None).is_empty());
}
