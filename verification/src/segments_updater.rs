//! Applying updates to the segments of a local shard.
//!
//! A write on a point goes to the segment that holds the point. A point in a
//! sealed segment is moved to the first segment that takes new points before
//! it is written. A point that a later operation has written is left alone.

use vstd::prelude::*;
use crate::operations::{copy_bits, copy_bytes, Payload, PayloadField, PointStruct};
use crate::segments::{
    in_appendable, kept_homes, lemma_points_of, lemma_stays_in_appendable, same_shape, Segment,
    SegmentHolder, StoredPoint,
};
use crate::types::{
    is_service_error,
    CollectionError,
    PointId,
    SeqNumberType,
};

verus! {

/// The fields of a payload as keys and values.
pub open spec fn fields(payload: Seq<PayloadField>) -> Seq<(Seq<char>, Seq<u8>)> {
    payload.map_values(|f: PayloadField| (f.key@, f.value@))
}

/// Index of the field with key `key`, or the number of fields when there
/// is none.
pub open spec fn key_index(payload: Seq<(Seq<char>, Seq<u8>)>, key: Seq<char>) -> int
    decreases payload.len(),
{
    if payload.len() == 0 {
        0
    } else if payload[0].0 == key {
        0
    } else {
        1 + key_index(payload.skip(1), key)
    }
}

/// The payload with `field` set: in the place of the field of the same key
/// if there is one, else at the end.
pub open spec fn with_value(
    payload: Seq<(Seq<char>, Seq<u8>)>,
    field: (Seq<char>, Seq<u8>),
) -> Seq<(Seq<char>, Seq<u8>)> {
    if key_index(payload, field.0) < payload.len() {
        payload.update(key_index(payload, field.0), field)
    } else {
        payload.push(field)
    }
}

/// The payload with the fields of `more` set, one after the other.
pub open spec fn merged(payload: Seq<(Seq<char>, Seq<u8>)>, more: Seq<(Seq<char>, Seq<u8>)>) -> Seq<
    (Seq<char>, Seq<u8>),
>
    decreases more.len(),
{
    if more.len() == 0 {
        payload
    } else {
        with_value(merged(payload, more.drop_last()), more.last())
    }
}

/// The payload without the fields whose key is among `keys`.
pub open spec fn without_keys(payload: Seq<(Seq<char>, Seq<u8>)>, keys: Seq<Seq<char>>) -> Seq<
    (Seq<char>, Seq<u8>),
> {
    payload.filter(|f: (Seq<char>, Seq<u8>)| !keys.contains(f.0))
}

/// The texts of a list of strings.
pub open spec fn texts_of(keys: Seq<String>) -> Seq<Seq<char>> {
    keys.map_values(|k: String| k@)
}

/// Sets the field `field` in `payload`.
fn set_field(payload: &mut Payload, field: PayloadField)
    ensures
        fields(final(payload)@) == with_value(fields(old(payload)@), (field.key@, field.value@)),
{
    let ghost before = fields(payload@);
    let mut i: usize = 0;
    assert(before.skip(0) == before);
    while i < payload.len()
        invariant
            i <= payload.len(),
            *payload == *old(payload),
            before == fields(payload@),
            key_index(before, field.key@) == i + key_index(before.skip(i as int), field.key@),
        decreases payload.len() - i,
    {
        proof {
            assert(before.skip(i as int).skip(1) == before.skip(i + 1));
            assert(before.skip(i as int)[0] == before[i as int]);
            assert(before[i as int].0 == payload@[i as int].key@);
        }
        if payload[i].key == field.key {
            payload[i] = field;
            assert(fields(payload@) =~= before.update(i as int, (field.key@, field.value@)));
            return ;
        }
        i += 1;
    }
    payload.push(field);
    assert(fields(payload@) =~= before.push((field.key@, field.value@)));
}

/// Sets the fields of `more` in `payload`.
pub fn merge_payload(payload: &mut Payload, more: &Payload)
    ensures
        fields(final(payload)@) == merged(fields(old(payload)@), fields(more@)),
{
    let mut i: usize = 0;
    assert(fields(more@).take(0) =~= Seq::<(Seq<char>, Seq<u8>)>::empty());
    while i < more.len()
        invariant
            i <= more.len(),
            fields(payload@) == merged(fields(old(payload)@), fields(more@).take(i as int)),
        decreases more.len() - i,
    {
        let field = PayloadField { key: more[i].key.clone(), value: copy_bytes(&more[i].value) };
        proof {
            assert(fields(more@).take(i + 1).drop_last() == fields(more@).take(i as int));
            assert(fields(more@).take(i + 1).last() == (field.key@, field.value@));
        }
        set_field(payload, field);
        i += 1;
    }
    assert(fields(more@).take(i as int) == fields(more@));
}

/// True when `key` is among `keys`.
fn is_key_among(keys: &Vec<String>, key: &String) -> (b: bool)
    ensures
        b == texts_of(keys@).contains(key@),
{
    let mut i: usize = 0;
    while i < keys.len()
        invariant
            i <= keys.len(),
            forall|k: int| 0 <= k < i ==> texts_of(keys@)[k] != key@,
        decreases keys.len() - i,
    {
        if keys[i] == *key {
            assert(texts_of(keys@)[i as int] == key@);
            return true;
        }
        i += 1;
    }
    false
}

/// Takes the fields with a key of `keys` out of `payload`.
pub fn delete_keys(payload: &mut Payload, keys: &Vec<String>)
    ensures
        fields(final(payload)@) == without_keys(fields(old(payload)@), texts_of(keys@)),
{
    let ghost before = fields(payload@);
    let ghost pred = |f: (Seq<char>, Seq<u8>)| !texts_of(keys@).contains(f.0);
    let mut kept: Payload = Vec::new();
    let mut rest: Payload = Vec::new();
    core::mem::swap(payload, &mut rest);
    let ghost all = rest@;
    let mut rest = crate::operations::reverse(rest);
    let ghost mut done: int = 0;
    assert(before.take(0) =~= Seq::<(Seq<char>, Seq<u8>)>::empty());
    while rest.len() > 0
        invariant
            0 <= done <= all.len(),
            before == fields(all),
            pred == (|f: (Seq<char>, Seq<u8>)| !texts_of(keys@).contains(f.0)),
            rest@.len() == all.len() - done,
            forall|i: int| 0 <= i < rest@.len() ==> #[trigger] rest@[i] == all[all.len() - 1 - i],
            fields(kept@) == before.take(done).filter(pred),
        decreases rest@.len(),
    {
        let field = rest.pop().unwrap();
        proof {
            assert(field == all[done]);
            assert(before.take(done + 1) == before.take(done).push((field.key@, field.value@)));
            before.take(done).lemma_filter_push((field.key@, field.value@), pred);
        }
        if !is_key_among(keys, &field.key) {
            proof {
                assert(fields(kept@.push(field)) =~= fields(kept@).push((field.key@, field.value@)));
            }
            kept.push(field);
        }
        proof {
            done = done + 1;
        }
    }
    assert(before.take(done) == before);
    *payload = kept;
}

/// A write on one point.
pub enum PointEdit<'a> {
    /// Set the fields of the payload.
    SetPayload(&'a Payload),
    /// Take the fields with these keys out of the payload.
    DeletePayload(&'a Vec<String>),
    /// Empty the payload.
    ClearPayload,
    /// Take over the vector of the point and, if it has one, the fields of
    /// its payload.
    Upsert(&'a PointStruct),
}

/// True when `after` is `before` once operation `op_num` has made `edit`.
pub open spec fn is_edited(before: StoredPoint, after: StoredPoint, edit: PointEdit, op_num: SeqNumberType) -> bool {
    &&& after.version == op_num
    &&& match edit {
        PointEdit::SetPayload(payload) => after.vector == before.vector && fields(after.payload@)
            == merged(fields(before.payload@), fields(payload@)),
        PointEdit::DeletePayload(keys) => after.vector == before.vector && fields(
            after.payload@,
        ) == without_keys(fields(before.payload@), texts_of(keys@)),
        PointEdit::ClearPayload => after.vector == before.vector && after.payload@.len() == 0,
        PointEdit::Upsert(point) => after.vector@ == point.vector@ && fields(after.payload@)
            == (match point.payload {
            Some(payload) => merged(fields(before.payload@), fields(payload@)),
            None => fields(before.payload@),
        }),
    }
}

/// True when a segment of the holder takes new points.
pub open spec fn has_appendable(holder: &SegmentHolder) -> bool {
    exists|k: int| 0 <= k < holder.segments@.len() && (#[trigger] holder.segments@[k]).appendable
}

/// Makes `edit` on `point` for operation `op_num`.
fn apply_edit(point: &mut StoredPoint, edit: &PointEdit, op_num: SeqNumberType)
    ensures
        is_edited(*old(point), *final(point), *edit, op_num),
{
    point.version = op_num;
    match edit {
        PointEdit::SetPayload(payload) => {
            merge_payload(&mut point.payload, payload);
        },
        PointEdit::DeletePayload(keys) => {
            delete_keys(&mut point.payload, keys);
        },
        PointEdit::ClearPayload => {
            point.payload = Vec::new();
        },
        PointEdit::Upsert(given) => {
            point.vector = copy_bits(&given.vector);
            match &given.payload {
                Some(payload) => {
                    merge_payload(&mut point.payload, payload);
                },
                None => {},
            }
        },
    }
}

/// With no point in two segments, a point lies in the segment that holds it
/// and in no other.
proof fn lemma_home(segments: Seq<Segment>, home: int, id: PointId)
    requires
        crate::segments::disjoint(segments),
        0 <= home < segments.len(),
        segments[home].points@.dom().contains(id),
    ensures
        forall|k: int|
            0 <= k < segments.len() ==> (#[trigger] segments[k]).points@.dom().contains(id) == (k
                == home),
{
    assert forall|k: int| 0 <= k < segments.len() implies (#[trigger] segments[k]).points@.dom().contains(
        id,
    ) == (k == home) by {
        if k < home {
            assert(segments[k].points@.dom().contains(id) ==> !segments[home].points@.dom().contains(
                id,
            ));
        } else if k > home {
            assert(segments[home].points@.dom().contains(id) ==> !segments[k].points@.dom().contains(
                id,
            ));
        }
    }
}

/// Where every point but `moved` stays, every point but `moved` lies in a
/// segment that takes new points exactly when it did before.
proof fn lemma_all_stay(before: Seq<Segment>, after: Seq<Segment>, moved: PointId)
    requires
        kept_homes(before, after, moved),
        same_shape(before, after),
    ensures
        forall|id: PointId|
            id != moved ==> #[trigger] in_appendable(after, id) == in_appendable(before, id),
{
    assert forall|id: PointId| id != moved implies #[trigger] in_appendable(after, id)
        == in_appendable(before, id) by {
        lemma_stays_in_appendable(before, after, moved, id);
    }
}

/// True when an operation numbered `op_num` writes the point `id` of
/// `before`: the point is new, or no later operation has written it.
pub open spec fn writes(before: Map<PointId, StoredPoint>, id: PointId, op_num: SeqNumberType) -> bool {
    !before.dom().contains(id) || before[id].version <= op_num
}

/// Where every point but one stays twice, it stays.
proof fn lemma_kept_twice(before: Seq<Segment>, bare: Seq<Segment>, after: Seq<Segment>, id: PointId)
    requires
        kept_homes(before, bare, id),
        kept_homes(bare, after, id),
    ensures
        kept_homes(before, after, id),
{
    assert forall|k: int, other: PointId| 0 <= k < after.len() && other != id implies #[trigger] after[k].points@.dom().contains(
        other,
    ) == before[k].points@.dom().contains(other) by {
        assert(bare[k].points@.dom().contains(other) == before[k].points@.dom().contains(other));
    }
}

/// A point that is taken out of its segment and put back lies where it
/// lay, and so does every other point.
proof fn lemma_put_back(
    before: Seq<Segment>,
    bare: Seq<Segment>,
    after: Seq<Segment>,
    home: int,
    id: PointId,
)
    requires
        0 <= home < before.len(),
        forall|k: int|
            0 <= k < before.len() ==> (#[trigger] before[k]).points@.dom().contains(id) == (k
                == home),
        kept_homes(before, bare, id),
        kept_homes(bare, after, id),
        same_shape(before, bare),
        same_shape(bare, after),
        forall|k: int|
            0 <= k < after.len() ==> (#[trigger] after[k]).points@.dom().contains(id) == (k == home),
    ensures
        kept_homes(before, after, id),
        in_appendable(after, id) == in_appendable(before, id),
{
    assert forall|k: int, other: PointId| 0 <= k < after.len() && other != id implies #[trigger] after[k].points@.dom().contains(
        other,
    ) == before[k].points@.dom().contains(other) by {
        assert(bare[k].points@.dom().contains(other) == before[k].points@.dom().contains(other));
    }
    if in_appendable(before, id) {
        let k = choose|k: int|
            0 <= k < before.len() && before[k].appendable && #[trigger] before[k].points@.dom().contains(
                id,
            );
        assert(after[home].points@.dom().contains(id));
        assert(bare[home].appendable == before[home].appendable);
    }
    if in_appendable(after, id) {
        let k = choose|k: int|
            0 <= k < after.len() && after[k].appendable && #[trigger] after[k].points@.dom().contains(
                id,
            );
        assert(before[home].points@.dom().contains(id));
        assert(bare[home].appendable == before[home].appendable);
    }
}

/// The text of the error of a write that finds no segment to append to.
pub open spec fn no_appendable_segment() -> Seq<char> {
    "No appendable segments exists, expected at least one"@
}

/// The text of the error of an upsert that finds no segment to append to.
pub open spec fn no_segment() -> Seq<char> {
    "No segments exists, expected at least one"@
}

/// The text of the error of a synchronisation whose counts do not fit
/// together.
pub open spec fn too_many_points() -> Seq<char> {
    "The number of synchronised points is too large"@
}

/// Writes point `id` for operation `op_num`, if a segment holds it.
///
/// A point that is not stored, or that a later operation has written, is
/// left alone: `Ok(false)`. Otherwise the point is written in its segment,
/// or in the first segment that takes new points if its own is sealed:
/// `Ok(true)`.
///
/// Fails with a service error, and changes nothing, when the point is to be
/// written and no segment takes new points.
pub fn edit_point(holder: &mut SegmentHolder, op_num: SeqNumberType, id: PointId, edit: &PointEdit) -> (r:
    Result<bool, CollectionError>)
    requires
        old(holder).wf(),
    ensures
        final(holder).wf(),
        same_shape(old(holder).segments@, final(holder).segments@),
        kept_homes(old(holder).segments@, final(holder).segments@, id),
        r == Ok::<bool, CollectionError>(true) ==> in_appendable(final(holder).segments@, id),
        r != Ok::<bool, CollectionError>(true) ==> in_appendable(final(holder).segments@, id)
            == in_appendable(old(holder).segments@, id),
        final(holder)@.dom() == old(holder)@.dom(),
        forall|other: PointId|
            other != id && #[trigger] final(holder)@.dom().contains(other) ==> final(holder)@[other]
                == old(holder)@[other],
        if !old(holder)@.dom().contains(id) || old(holder)@[id].version > op_num {
            r == Ok::<bool, CollectionError>(false) && final(holder)@ == old(holder)@
        } else if has_appendable(old(holder)) {
            r == Ok::<bool, CollectionError>(true) && is_edited(
                old(holder)@[id],
                final(holder)@[id],
                *edit,
                op_num,
            )
        } else {
            is_service_error(r, no_appendable_segment()) && final(holder)@ == old(holder)@
        },
{
    proof {
        lemma_points_of(old(holder).segments@, id);
    }
    let taken = holder.take_point(id);
    let ghost bare = holder.segments@;
    match taken {
        None => {
            proof {
                assert(holder@ =~= old(holder)@);
                assert(!in_appendable(old(holder).segments@, id));
                assert(!in_appendable(holder.segments@, id));
            }
            Ok(false)
        },
        Some((home, point)) => {
            let mut point = point;
            proof {
                lemma_home(old(holder).segments@, home as int, id);
            }
            if point.version > op_num {
                holder.put_point(home, id, point);
                proof {
                    assert(holder@ =~= old(holder)@);
                    lemma_put_back(old(holder).segments@, bare, holder.segments@, home as int, id);
                }
                return Ok(false);
            }
            let target = if holder.segments[home].appendable {
                Some(home)
            } else {
                holder.first_appendable()
            };
            match target {
                None => {
                    holder.put_point(home, id, point);
                    proof {
                        assert(holder@ =~= old(holder)@);
                        assert(!has_appendable(old(holder)));
                        lemma_put_back(
                            old(holder).segments@,
                            bare,
                            holder.segments@,
                            home as int,
                            id,
                        );
                    }
                    Err(
                        CollectionError::service_error(
                            "No appendable segments exists, expected at least one".to_string(),
                        ),
                    )
                },
                Some(at) => {
                    apply_edit(&mut point, edit, op_num);
                    holder.put_point(at, id, point);
                    proof {
                        assert(old(holder).segments@[at as int].appendable);
                        assert(holder@.dom() =~= old(holder)@.dom());
                        assert(holder.segments@[at as int].appendable);
                        assert(holder.segments@[at as int].points@.dom().contains(id));
                        lemma_kept_twice(old(holder).segments@, bare, holder.segments@, id);
                    }
                    Ok(true)
                },
            }
        },
    }
}

/// Index of the first of `points` that is not among `processed`, or the
/// number of points when each is.
pub open spec fn first_unprocessed(points: Seq<PointId>, processed: Seq<PointId>) -> int
    decreases points.len(),
{
    if points.len() == 0 {
        0
    } else if !processed.contains(points[0]) {
        0
    } else {
        1 + first_unprocessed(points.skip(1), processed)
    }
}

/// True when `id` is among `ids`.
pub fn contains_id(ids: &Vec<PointId>, id: PointId) -> (b: bool)
    ensures
        b == ids@.contains(id),
{
    let mut i: usize = 0;
    while i < ids.len()
        invariant
            i <= ids.len(),
            forall|k: int| 0 <= k < i ==> ids@[k] != id,
        decreases ids.len() - i,
    {
        if ids[i] == id {
            return true;
        }
        i += 1;
    }
    false
}

/// Checks that every point of an operation was processed.
///
/// Returns the number of processed points. Fails with `PointNotFound` for
/// the first of `points` that is not among `processed`.
pub fn check_unprocessed_points(points: &Vec<PointId>, processed: &Vec<PointId>) -> (r: Result<
    usize,
    CollectionError,
>)
    ensures
        first_unprocessed(points@, processed@) < points@.len() ==> r == Err::<
            usize,
            CollectionError,
        >(
            CollectionError::PointNotFound {
                missed_point_id: points@[first_unprocessed(points@, processed@)],
            },
        ),
        first_unprocessed(points@, processed@) >= points@.len() ==> is_count(
            r,
            processed@.len() as int,
        ),
{
    let mut i: usize = 0;
    assert(points@.skip(0) == points@);
    while i < points.len()
        invariant
            i <= points.len(),
            first_unprocessed(points@, processed@) == i + first_unprocessed(
                points@.skip(i as int),
                processed@,
            ),
        decreases points.len() - i,
    {
        proof {
            assert(points@.skip(i as int).skip(1) == points@.skip(i + 1));
            assert(points@.skip(i as int)[0] == points@[i as int]);
        }
        if !contains_id(processed, points[i]) {
            return Err(CollectionError::PointNotFound { missed_point_id: points[i] });
        }
        i += 1;
    }
    Ok(processed.len())
}

/// True when `r` is the count `n`.
pub open spec fn is_count(r: Result<usize, CollectionError>, n: int) -> bool {
    r matches Ok(count) && count == n
}

/// True when operation `op_num` writes point `id`: the point is stored and
/// no later operation has written it.
pub open spec fn applies(view: Map<PointId, StoredPoint>, id: PointId, op_num: SeqNumberType) -> bool {
    view.dom().contains(id) && view[id].version <= op_num
}

/// The points of `ids` that operation `op_num` writes, each once, in the
/// order in which they first come.
pub open spec fn written(ids: Seq<PointId>, view: Map<PointId, StoredPoint>, op_num: SeqNumberType) -> Seq<
    PointId,
>
    decreases ids.len(),
{
    if ids.len() == 0 {
        Seq::empty()
    } else {
        let before = written(ids.drop_last(), view, op_num);
        if applies(view, ids.last(), op_num) && !before.contains(ids.last()) {
            before.push(ids.last())
        } else {
            before
        }
    }
}

/// The written points are those of `ids` that the operation writes.
pub proof fn lemma_written(ids: Seq<PointId>, view: Map<PointId, StoredPoint>, op_num: SeqNumberType)
    ensures
        forall|id: PointId|
            written(ids, view, op_num).contains(id) <==> ids.contains(id) && applies(
                view,
                id,
                op_num,
            ),
        written(ids, view, op_num).no_duplicates(),
    decreases ids.len(),
{
    if ids.len() > 0 {
        let rest = ids.drop_last();
        let last = ids.last();
        lemma_written(rest, view, op_num);
        let before = written(rest, view, op_num);
        let now = written(ids, view, op_num);
        assert forall|id: PointId| now.contains(id) <==> ids.contains(id) && applies(
            view,
            id,
            op_num,
        ) by {
            if now.contains(id) {
                let k = choose|k: int| 0 <= k < now.len() && now[k] == id;
                if k < before.len() {
                    assert(before[k] == id);
                    assert(before.contains(id));
                    assert(rest.contains(id));
                    let i = choose|i: int| 0 <= i < rest.len() && rest[i] == id;
                    assert(ids[i] == id);
                } else {
                    assert(ids[ids.len() - 1] == id);
                }
            }
            if ids.contains(id) && applies(view, id, op_num) {
                let i = choose|i: int| 0 <= i < ids.len() && ids[i] == id;
                if i < rest.len() {
                    assert(rest[i] == id);
                    assert(rest.contains(id));
                    assert(before.contains(id));
                    let k = choose|k: int| 0 <= k < before.len() && before[k] == id;
                    assert(now[k] == id);
                } else if before.contains(id) {
                    let k = choose|k: int| 0 <= k < before.len() && before[k] == id;
                    assert(now[k] == id);
                } else {
                    assert(now[before.len() as int] == id);
                }
            }
        }
    }
}

/// Two holders of the same shape have the same segments that take new
/// points.
pub proof fn lemma_same_shape(a: &SegmentHolder, b: &SegmentHolder, c: &SegmentHolder)
    requires
        same_shape(a.segments@, b.segments@),
        same_shape(b.segments@, c.segments@),
    ensures
        same_shape(a.segments@, c.segments@),
        has_appendable(a) == has_appendable(b),
{
    if has_appendable(a) {
        let k = choose|k: int| 0 <= k < a.segments@.len() && (#[trigger] a.segments@[k]).appendable;
        assert(b.segments@[k].appendable);
    }
    if has_appendable(b) {
        let k = choose|k: int| 0 <= k < b.segments@.len() && (#[trigger] b.segments@[k]).appendable;
        assert(a.segments@[k].appendable);
    }
}

/// Makes `edit` on each point of `ids` that operation `op_num` writes, each
/// point once.
///
/// Returns the points that were written. Fails with a service error, and
/// changes nothing, when a point is to be written and no segment takes new
/// points.
pub fn apply_points_to_appendable(
    holder: &mut SegmentHolder,
    op_num: SeqNumberType,
    ids: &Vec<PointId>,
    edit: &PointEdit,
) -> (r: Result<Vec<PointId>, CollectionError>)
    requires
        old(holder).wf(),
    ensures
        final(holder).wf(),
        same_shape(old(holder).segments@, final(holder).segments@),
        final(holder)@.dom() == old(holder)@.dom(),
        if has_appendable(old(holder)) || written(ids@, old(holder)@, op_num).len() == 0 {
            &&& r matches Ok(processed)
            &&& processed@ == written(ids@, old(holder)@, op_num)
            &&& forall|id: PointId| #[trigger]
                final(holder)@.dom().contains(id) ==> (if processed@.contains(id) {
                    is_edited(old(holder)@[id], final(holder)@[id], *edit, op_num)
                } else {
                    final(holder)@[id] == old(holder)@[id]
                })
            &&& forall|id: PointId|
                processed@.contains(id) ==> #[trigger] in_appendable(final(holder).segments@, id)
        } else {
            is_service_error(r, no_appendable_segment()) && final(holder)@ == old(holder)@
        },
{
    let mut processed: Vec<PointId> = Vec::new();
    let ghost start = old(holder)@;
    let mut i: usize = 0;
    while i < ids.len()
        invariant
            i <= ids.len(),
            holder.wf(),
            start == old(holder)@,
            same_shape(old(holder).segments@, holder.segments@),
            holder@.dom() == start.dom(),
            processed@ == written(ids@.take(i as int), start, op_num),
            forall|id: PointId| #[trigger]
                holder@.dom().contains(id) ==> (if processed@.contains(id) {
                    is_edited(start[id], holder@[id], *edit, op_num)
                } else {
                    holder@[id] == start[id]
                }),
            forall|id: PointId|
                processed@.contains(id) ==> #[trigger] in_appendable(holder.segments@, id),
            !has_appendable(old(holder)) ==> holder@ == start && processed@.len() == 0,
        decreases ids.len() - i,
    {
        let id = ids[i];
        let ghost before = *holder;
        let ghost done = processed@;
        proof {
            assert(ids@.take(i + 1).drop_last() == ids@.take(i as int));
            assert(ids@.take(i + 1).last() == id);
            lemma_written(ids@.take(i as int), start, op_num);
            lemma_same_shape(old(holder), &before, &before);
        }
        if !contains_id(&processed, id) {
            match edit_point(holder, op_num, id, edit) {
                Err(e) => {
                    proof {
                        assert(applies(start, id, op_num));
                        lemma_written(ids@, start, op_num);
                        assert(ids@[i as int] == id);
                        assert(ids@.contains(id));
                        assert(written(ids@, start, op_num).contains(id));
                    }
                    return Err(e);
                },
                Ok(true) => {
                    processed.push(id);
                    proof {
                        lemma_same_shape(old(holder), &before, holder);
                        lemma_all_stay(before.segments@, holder.segments@, id);
                        assert forall|other: PointId| processed@.contains(other) implies #[trigger] in_appendable(
                            holder.segments@,
                            other,
                        ) by {
                            if other != id {
                                let k = choose|k: int|
                                    0 <= k < processed@.len() && processed@[k] == other;
                                assert(done[k] == other);
                                assert(done.contains(other));
                            }
                        }
                        assert forall|other: PointId| #[trigger]
                            holder@.dom().contains(other) implies (if processed@.contains(other) {
                            is_edited(start[other], holder@[other], *edit, op_num)
                        } else {
                            holder@[other] == start[other]
                        }) by {
                            assert(before@.dom().contains(other));
                            if other != id {
                                assert(holder@[other] == before@[other]);
                                if processed@.contains(other) {
                                    let k = choose|k: int|
                                        0 <= k < processed@.len() && processed@[k] == other;
                                    assert(done[k] == other);
                                    assert(done.contains(other));
                                } else {
                                    if done.contains(other) {
                                        let k = choose|k: int| 0 <= k < done.len() && done[k] == other;
                                        assert(processed@[k] == other);
                                    }
                                }
                            } else {
                                assert(processed@[processed@.len() - 1] == id);
                            }
                        }
                    }
                },
                Ok(false) => {
                    proof {
                        lemma_same_shape(old(holder), &before, holder);
                        lemma_all_stay(before.segments@, holder.segments@, id);
                    }
                },
            }
        }
        i += 1;
    }
    proof {
        assert(ids@.take(i as int) == ids@);
    }
    Ok(processed)
}

/// Sets the fields of `payload` on the points `points`.
///
/// Returns the number of points that were written. Fails with
/// `PointNotFound` for the first of `points` that was not written, because
/// it is not stored or a later operation has written it; the other points
/// are written all the same. Fails with a service error, and changes
/// nothing, when a point is to be written and no segment takes new points.
pub fn set_payload(
    holder: &mut SegmentHolder,
    op_num: SeqNumberType,
    payload: &Payload,
    points: &Vec<PointId>,
) -> (r: Result<usize, CollectionError>)
    requires
        old(holder).wf(),
    ensures
        final(holder).wf(),
        same_shape(old(holder).segments@, final(holder).segments@),
        edited_points(old(holder), final(holder), r, points@, PointEdit::SetPayload(payload), op_num),
{
    let edit = PointEdit::SetPayload(payload);
    conclude_edit(apply_points_to_appendable(holder, op_num, points, &edit), points)
}

/// Takes the fields with the keys `keys` out of the payload of the points
/// `points`. Returns and fails as [`set_payload`] does.
pub fn delete_payload(
    holder: &mut SegmentHolder,
    op_num: SeqNumberType,
    points: &Vec<PointId>,
    keys: &Vec<String>,
) -> (r: Result<usize, CollectionError>)
    requires
        old(holder).wf(),
    ensures
        final(holder).wf(),
        same_shape(old(holder).segments@, final(holder).segments@),
        edited_points(old(holder), final(holder), r, points@, PointEdit::DeletePayload(keys), op_num),
{
    let edit = PointEdit::DeletePayload(keys);
    conclude_edit(apply_points_to_appendable(holder, op_num, points, &edit), points)
}

/// Empties the payload of the points `points`. Returns and fails as
/// [`set_payload`] does.
pub fn clear_payload(holder: &mut SegmentHolder, op_num: SeqNumberType, points: &Vec<PointId>) -> (r:
    Result<usize, CollectionError>)
    requires
        old(holder).wf(),
    ensures
        final(holder).wf(),
        same_shape(old(holder).segments@, final(holder).segments@),
        edited_points(old(holder), final(holder), r, points@, PointEdit::ClearPayload, op_num),
{
    let edit = PointEdit::ClearPayload;
    conclude_edit(apply_points_to_appendable(holder, op_num, points, &edit), points)
}

/// What an edit of the points `points` does and returns.
pub open spec fn edited_points(
    before: &SegmentHolder,
    after: &SegmentHolder,
    r: Result<usize, CollectionError>,
    points: Seq<PointId>,
    edit: PointEdit,
    op_num: SeqNumberType,
) -> bool {
    let touched = written(points, before@, op_num);
    &&& after@.dom() == before@.dom()
    &&& if has_appendable(before) || touched.len() == 0 {
        &&& forall|id: PointId| #[trigger]
            after@.dom().contains(id) ==> (if touched.contains(id) {
                is_edited(before@[id], after@[id], edit, op_num)
            } else {
                after@[id] == before@[id]
            })
        &&& forall|id: PointId|
            touched.contains(id) ==> #[trigger] in_appendable(after.segments@, id)
        &&& if first_unprocessed(points, touched) < points.len() {
            r == Err::<usize, CollectionError>(
                CollectionError::PointNotFound {
                    missed_point_id: points[first_unprocessed(points, touched)],
                },
            )
        } else {
            is_count(r, touched.len() as int)
        }
    } else {
        is_service_error(r, no_appendable_segment()) && after@ == before@
    }
}

/// The result of an edit from the points that were written.
fn conclude_edit(applied: Result<Vec<PointId>, CollectionError>, points: &Vec<PointId>) -> (r: Result<
    usize,
    CollectionError,
>)
    ensures
        match applied {
            Err(e) => r == Err::<usize, CollectionError>(e),
            Ok(processed) => if first_unprocessed(points@, processed@) < points@.len() {
                r == Err::<usize, CollectionError>(
                    CollectionError::PointNotFound {
                        missed_point_id: points@[first_unprocessed(points@, processed@)],
                    },
                )
            } else {
                is_count(r, processed@.len() as int)
            },
        },
{
    match applied {
        Err(e) => Err(e),
        Ok(processed) => match check_unprocessed_points(points, &processed) {
            Err(e) => Err(e),
            Ok(_) => Ok(processed.len()),
        },
    }
}

/// Deletes the points `ids`, as far as they are stored and no later
/// operation has written them. Returns the number of points that were
/// deleted.
pub fn delete_points(holder: &mut SegmentHolder, op_num: SeqNumberType, ids: &Vec<PointId>) -> (r:
    Result<usize, CollectionError>)
    requires
        old(holder).wf(),
    ensures
        final(holder).wf(),
        same_shape(old(holder).segments@, final(holder).segments@),
        is_count(r, written(ids@, old(holder)@, op_num).len() as int),
        forall|id: PointId| #[trigger]
            final(holder)@.dom().contains(id) <==> old(holder)@.dom().contains(id) && !(
            ids@.contains(id) && applies(old(holder)@, id, op_num)),
        forall|id: PointId| #[trigger]
            final(holder)@.dom().contains(id) ==> final(holder)@[id] == old(holder)@[id],
{
    let ghost start = old(holder)@;
    let mut deleted: usize = 0;
    let ghost mut gone: Seq<PointId> = Seq::empty();
    let mut i: usize = 0;
    while i < ids.len()
        invariant
            i <= ids.len(),
            holder.wf(),
            start == old(holder)@,
            same_shape(old(holder).segments@, holder.segments@),
            gone == written(ids@.take(i as int), start, op_num),
            deleted == gone.len(),
            deleted <= i,
            forall|id: PointId| #[trigger]
                holder@.dom().contains(id) <==> start.dom().contains(id) && !gone.contains(id),
            forall|id: PointId| #[trigger]
                holder@.dom().contains(id) ==> holder@[id] == start[id],
        decreases ids.len() - i,
    {
        let id = ids[i];
        let ghost before = *holder;
        let ghost earlier = gone;
        proof {
            assert(ids@.take(i + 1).drop_last() == ids@.take(i as int));
            assert(ids@.take(i + 1).last() == id);
            lemma_written(ids@.take(i as int), start, op_num);
        }
        match holder.take_point(id) {
            None => {
                proof {
                    lemma_same_shape(old(holder), &before, holder);
                    assert(holder@ =~= before@);
                }
            },
            Some((home, point)) => {
                if point.version > op_num {
                    holder.put_point(home, id, point);
                    proof {
                        assert(holder@ =~= before@);
                        assert(same_shape(old(holder).segments@, holder.segments@));
                    }
                } else {
                    deleted += 1;
                    proof {
                        gone = gone.push(id);
                        lemma_same_shape(old(holder), &before, holder);
                        assert forall|other: PointId| #[trigger]
                            holder@.dom().contains(other) <==> start.dom().contains(other)
                                && !gone.contains(other) by {
                            if other != id {
                                assert(holder@.dom().contains(other) == before@.dom().contains(other));
                                if gone.contains(other) {
                                    let k = choose|k: int| 0 <= k < gone.len() && gone[k] == other;
                                    assert(earlier[k] == other);
                                    assert(earlier.contains(other));
                                }
                                if earlier.contains(other) {
                                    let k = choose|k: int|
                                        0 <= k < earlier.len() && earlier[k] == other;
                                    assert(gone[k] == other);
                                }
                            } else {
                                assert(gone[gone.len() - 1] == id);
                            }
                        }
                    }
                }
            },
        }
        i += 1;
    }
    proof {
        assert(ids@.take(i as int) == ids@);
        lemma_written(ids@, start, op_num);
    }
    Ok(deleted)
}

/// The ids of `points`, in order.
pub open spec fn ids_of(points: Seq<PointStruct>) -> Seq<PointId> {
    points.map_values(|p: PointStruct| p.id)
}

/// Index of the last point of `points` with id `id`, or -1 when there is
/// none.
pub open spec fn last_with(points: Seq<PointStruct>, id: PointId) -> int
    decreases points.len(),
{
    if points.len() == 0 {
        -1
    } else if points.last().id == id {
        points.len() - 1
    } else {
        last_with(points.drop_last(), id)
    }
}

/// `last_with` points at a point with the id when there is one.
pub proof fn lemma_last_with(points: Seq<PointStruct>, id: PointId)
    ensures
        -1 <= last_with(points, id) < points.len(),
        last_with(points, id) >= 0 ==> points[last_with(points, id)].id == id,
        last_with(points, id) >= 0 <==> ids_of(points).contains(id),
    decreases points.len(),
{
    if points.len() > 0 {
        let rest = points.drop_last();
        lemma_last_with(rest, id);
        if points.last().id == id {
            assert(ids_of(points)[points.len() - 1] == id);
        } else {
            if ids_of(rest).contains(id) {
                let k = choose|k: int| 0 <= k < ids_of(rest).len() && ids_of(rest)[k] == id;
                assert(ids_of(points)[k] == id);
            }
            if ids_of(points).contains(id) {
                let k = choose|k: int| 0 <= k < ids_of(points).len() && ids_of(points)[k] == id;
                assert(ids_of(rest)[k] == id);
            }
        }
    }
}

/// The last point of `points` with id `id`.
fn last_point<'a>(points: &'a Vec<PointStruct>, id: PointId) -> (r: Option<&'a PointStruct>)
    ensures
        match r {
            Some(point) => last_with(points@, id) >= 0 && *point == points@[last_with(points@, id)],
            None => last_with(points@, id) < 0,
        },
{
    let mut left: usize = points.len();
    assert(points@.take(left as int) == points@);
    while left > 0
        invariant
            left <= points.len(),
            last_with(points@, id) == last_with(points@.take(left as int), id),
        decreases left,
    {
        proof {
            assert(points@.take(left as int).drop_last() == points@.take(left - 1));
        }
        if points[left - 1].id == id {
            return Some(&points[left - 1]);
        }
        left -= 1;
    }
    None
}

/// True when `stored` is `given` as operation `op_num` stores it anew.
pub open spec fn is_fresh(stored: StoredPoint, given: PointStruct, op_num: SeqNumberType) -> bool {
    &&& stored.version == op_num
    &&& stored.vector@ == given.vector@
    &&& fields(stored.payload@) == (match given.payload {
        Some(payload) => merged(Seq::empty(), fields(payload@)),
        None => Seq::empty(),
    })
}

/// Number of ids of `ids` that came before in `ids` and are not stored.
pub open spec fn repeats(ids: Seq<PointId>, view: Map<PointId, StoredPoint>) -> int
    decreases ids.len(),
{
    if ids.len() == 0 {
        0
    } else {
        repeats(ids.drop_last(), view) + (if !view.dom().contains(ids.last())
            && ids.drop_last().contains(ids.last()) {
            1int
        } else {
            0int
        })
    }
}

/// What an upsert of `points` makes of the stored points.
pub open spec fn upserted(
    before: Map<PointId, StoredPoint>,
    after: Map<PointId, StoredPoint>,
    points: Seq<PointStruct>,
    op_num: SeqNumberType,
) -> bool {
    &&& forall|id: PointId| #[trigger]
        after.dom().contains(id) <==> before.dom().contains(id) || ids_of(points).contains(id)
    &&& forall|id: PointId| #[trigger]
        after.dom().contains(id) ==> (if !ids_of(points).contains(id) {
            after[id] == before[id]
        } else if !before.dom().contains(id) {
            is_fresh(after[id], points[last_with(points, id)], op_num)
        } else if before[id].version <= op_num {
            is_edited(before[id], after[id], PointEdit::Upsert(&points[last_with(points, id)]), op_num)
        } else {
            after[id] == before[id]
        })
}

/// Stores the points `points`: a stored point takes over the vector and the
/// payload fields of the point that is given for it, a new point goes into
/// the first segment that takes new points. Of several points with one id
/// the last counts. A point that a later operation has written is left
/// alone.
///
/// Returns the number of stored points that were replaced, counting a new
/// point once for each time that it is given again.
///
/// Fails with a service error, and changes nothing, when no segment takes
/// new points.
pub fn upsert_points(holder: &mut SegmentHolder, op_num: SeqNumberType, points: &Vec<PointStruct>) -> (r:
    Result<usize, CollectionError>)
    requires
        old(holder).wf(),
    ensures
        final(holder).wf(),
        same_shape(old(holder).segments@, final(holder).segments@),
        if has_appendable(old(holder)) {
            &&& is_count(r, (written(ids_of(points@), old(holder)@, op_num).len() + repeats(
                    ids_of(points@),
                    old(holder)@,
                )))
            &&& upserted(old(holder)@, final(holder)@, points@, op_num)
            &&& forall|id: PointId|
                ids_of(points@).contains(id) && writes(old(holder)@, id, op_num)
                    ==> #[trigger] in_appendable(final(holder).segments@, id)
            &&& forall|id: PointId|
                !ids_of(points@).contains(id) ==> #[trigger] in_appendable(
                    final(holder).segments@,
                    id,
                ) == in_appendable(old(holder).segments@, id)
        } else {
            is_service_error(r, no_segment()) && final(holder)@ == old(holder)@
        },
{
    let target = match holder.first_appendable() {
        Some(at) => at,
        None => {
            return Err(
                CollectionError::service_error(
                    "No segments exists, expected at least one".to_string(),
                ),
            );
        },
    };
    let ghost start = old(holder)@;
    let ghost ids = ids_of(points@);
    let mut seen: Vec<PointId> = Vec::new();
    let mut inserted: Vec<PointId> = Vec::new();
    let mut replaced: usize = 0;
    let mut n: usize = 0;
    assert(ids.take(0) =~= Seq::<PointId>::empty());
    while n < points.len()
        invariant
            n <= points.len(),
            holder.wf(),
            start == old(holder)@,
            ids == ids_of(points@),
            same_shape(old(holder).segments@, holder.segments@),
            target < holder.segments@.len(),
            old(holder).segments@[target as int].appendable,
            has_appendable(old(holder)),
            forall|id: PointId|
                seen@.contains(id) && writes(start, id, op_num) ==> #[trigger] in_appendable(
                    holder.segments@,
                    id,
                ),
            forall|id: PointId|
                !seen@.contains(id) ==> #[trigger] in_appendable(holder.segments@, id)
                    == in_appendable(old(holder).segments@, id),
            seen@ == ids.take(n as int),
            forall|id: PointId|
                #[trigger] inserted@.contains(id) <==> seen@.contains(id) && !start.dom().contains(
                    id,
                ),
            replaced == written(seen@, start, op_num).len() + repeats(seen@, start),
            replaced <= n,
            forall|id: PointId| #[trigger]
                holder@.dom().contains(id) <==> start.dom().contains(id) || seen@.contains(id),
            forall|id: PointId| #[trigger]
                holder@.dom().contains(id) ==> (if !seen@.contains(id) {
                    holder@[id] == start[id]
                } else if !start.dom().contains(id) {
                    is_fresh(holder@[id], points@[last_with(points@, id)], op_num)
                } else if start[id].version <= op_num {
                    is_edited(
                        start[id],
                        holder@[id],
                        PointEdit::Upsert(&points@[last_with(points@, id)]),
                        op_num,
                    )
                } else {
                    holder@[id] == start[id]
                }),
        decreases points.len() - n,
    {
        let id = points[n].id;
        let ghost before = *holder;
        let ghost seen_before = seen@;
        let ghost inserted_before = inserted@;
        proof {
            assert(ids[n as int] == id);
            assert(ids.take(n + 1) == ids.take(n as int).push(id));
            assert(ids.take(n + 1).drop_last() == ids.take(n as int));
            assert(ids.take(n + 1).last() == id);
            lemma_written(seen@, start, op_num);
            lemma_last_with(points@, id);
            assert(ids.contains(id));
        }
        if contains_id(&seen, id) {
            if contains_id(&inserted, id) {
                replaced += 1;
            }
            seen.push(id);
            proof {
                assert forall|other: PointId| seen@.contains(other) == seen_before.contains(
                    other,
                ) by {
                    if seen@.contains(other) {
                        let k = choose|k: int| 0 <= k < seen@.len() && seen@[k] == other;
                        if k < seen_before.len() {
                            assert(seen_before[k] == other);
                        }
                    }
                    if seen_before.contains(other) {
                        let k = choose|k: int|
                            0 <= k < seen_before.len() && seen_before[k] == other;
                        assert(seen@[k] == other);
                    }
                }
            }
        } else {
            let given = match last_point(points, id) {
                Some(point) => point,
                None => {
                    proof {
                        assert(false);
                    }
                    &points[n]
                },
            };
            let edit = PointEdit::Upsert(given);
            let edited = edit_point(holder, op_num, id, &edit);
            let ghost between = holder.segments@;
            match edited {
                Err(e) => {
                    proof {
                        lemma_same_shape(old(holder), &before, &before);
                        assert(false);
                    }
                    return Err(e);
                },
                Ok(true) => {
                    replaced += 1;
                },
                Ok(false) => {
                    if !holder.segment_of(id).is_some() {
                        let mut payload: Payload = Vec::new();
                        match &given.payload {
                            Some(more) => {
                                merge_payload(&mut payload, more);
                            },
                            None => {},
                        }
                        let fresh = StoredPoint {
                            version: op_num,
                            vector: copy_bits(&given.vector),
                            payload,
                        };
                        proof {
                            assert(fields(Seq::<PayloadField>::empty()) =~= Seq::<
                                (Seq<char>, Seq<u8>),
                            >::empty());
                        }
                        holder.put_point(target, id, fresh);
                        inserted.push(id);
                        proof {
                            assert(holder.segments@[target as int].appendable);
                            assert(holder.segments@[target as int].points@.dom().contains(id));
                        }
                    }
                },
            }
            proof {
                if holder.segments@ != between {
                    lemma_kept_twice(before.segments@, between, holder.segments@, id);
                }
                lemma_same_shape(old(holder), &before, holder);
                lemma_same_shape(&before, &before, holder);
                lemma_all_stay(before.segments@, holder.segments@, id);
            }
            seen.push(id);
            proof {
                lemma_same_shape(old(holder), &before, holder);
                assert forall|other: PointId| seen@.contains(other) == (seen_before.contains(other)
                    || other == id) by {
                    if seen@.contains(other) {
                        let k = choose|k: int| 0 <= k < seen@.len() && seen@[k] == other;
                        if k < seen_before.len() {
                            assert(seen_before[k] == other);
                        }
                    }
                    if seen_before.contains(other) {
                        let k = choose|k: int|
                            0 <= k < seen_before.len() && seen_before[k] == other;
                        assert(seen@[k] == other);
                    }
                    if other == id {
                        assert(seen@[seen@.len() - 1] == id);
                    }
                }
                assert forall|other: PointId|
                    #[trigger] inserted@.contains(other) <==> seen@.contains(other)
                        && !start.dom().contains(other) by {
                    if inserted@.contains(other) {
                        let k = choose|k: int| 0 <= k < inserted@.len() && inserted@[k] == other;
                        if k < inserted_before.len() {
                            assert(inserted_before[k] == other);
                            assert(inserted_before.contains(other));
                        }
                    }
                    if inserted_before.contains(other) {
                        let k = choose|k: int|
                            0 <= k < inserted_before.len() && inserted_before[k] == other;
                        assert(inserted@[k] == other);
                    }
                    if other == id && !start.dom().contains(id) {
                        assert(inserted@[inserted@.len() - 1] == id);
                    }
                }
            }
        }
        n += 1;
    }
    proof {
        assert(ids.take(n as int) == ids);
    }
    Ok(replaced)
}

/// Picks the stored points that `pick` says yes to.
pub fn select_points<F: Fn(&PointId, &StoredPoint) -> bool>(holder: &SegmentHolder, pick: F) -> (picked:
    Vec<PointId>)
    requires
        holder.wf(),
        forall|id: &PointId, point: &StoredPoint| call_requires(pick, (id, point)),
    ensures
        picked@.no_duplicates(),
        forall|id: PointId| #[trigger]
            picked@.contains(id) ==> holder@.dom().contains(id) && call_ensures(pick,
                (&id, &holder@[id]),
                true,
            ),
        forall|id: PointId|
            holder@.dom().contains(id) && !(#[trigger] picked@.contains(id)) ==> call_ensures(pick,
                (&id, &holder@[id]),
                false,
            ),
{
    let mut picked: Vec<PointId> = Vec::new();
    let mut i: usize = 0;
    while i < holder.segments.len()
        invariant
            i <= holder.segments.len(),
            holder.wf(),
            forall|id: &PointId, point: &StoredPoint| call_requires(pick, (id, point)),
            picked@.no_duplicates(),
            forall|id: PointId| #[trigger]
                picked@.contains(id) ==> holder@.dom().contains(id) && call_ensures(pick,
                    (&id, &holder@[id]),
                    true,
                ) && exists|k: int|
                    0 <= k < i && (#[trigger] holder.segments@[k]).points@.dom().contains(id),
            forall|id: PointId, k: int|
                0 <= k < i && #[trigger] holder.segments@[k].points@.dom().contains(id) && !(
                #[trigger] picked@.contains(id)) ==> call_ensures(pick,
                    (&id, &holder@[id]),
                    false,
                ),
        decreases holder.segments.len() - i,
    {
        let segment = &holder.segments[i];
        let ghost entries = segment.points.entries();
        let mut j: usize = 0;
        while j < segment.points.len()
            invariant
                j <= entries.len(),
                i < holder.segments.len(),
                *segment == holder.segments@[i as int],
                entries == segment.points.entries(),
                holder.wf(),
                forall|id: &PointId, point: &StoredPoint| call_requires(pick, (id, point)),
                picked@.no_duplicates(),
                forall|id: PointId| #[trigger]
                    picked@.contains(id) ==> holder@.dom().contains(id) && call_ensures(pick,
                        (&id, &holder@[id]),
                        true,
                    ) && ((exists|k: int|
                        0 <= k < i && (#[trigger] holder.segments@[k]).points@.dom().contains(id))
                        || (exists|m: int| 0 <= m < j && (#[trigger] entries[m]).0 == id)),
                forall|id: PointId, k: int|
                    0 <= k < i && #[trigger] holder.segments@[k].points@.dom().contains(id) && !(
                    #[trigger] picked@.contains(id)) ==> call_ensures(pick,
                        (&id, &holder@[id]),
                        false,
                    ),
                forall|m: int|
                    0 <= m < j && !picked@.contains((#[trigger] entries[m]).0) ==> call_ensures(pick,
                        (&entries[m].0, &holder@[entries[m].0]),
                        false,
                    ),
            decreases entries.len() - j,
        {
            let id = segment.points.id_at(j);
            let point = segment.points.value_at(j);
            let ghost before = picked@;
            proof {
                crate::id_map::lemma_position_of_entry(entries, j as int);
                assert(segment.points@.dom().contains(id));
                assert(segment.points@[id] == *point);
                crate::segments::lemma_points_of(holder.segments@, id);
                assert(holder.segments@[i as int].points@.dom().contains(id));
                assert(holder@[id] == *point);
                if before.contains(id) {
                    if exists|k: int|
                        0 <= k < i && (#[trigger] holder.segments@[k]).points@.dom().contains(id) {
                        let k = choose|k: int|
                            0 <= k < i && (#[trigger] holder.segments@[k]).points@.dom().contains(
                                id,
                            );
                        assert(holder.segments@[k].points@.dom().contains(id));
                        assert(false);
                    } else {
                        let m = choose|m: int| 0 <= m < j && (#[trigger] entries[m]).0 == id;
                        assert(false);
                    }
                }
            }
            if pick(&id, point) {
                picked.push(id);
                proof {
                    assert forall|other: PointId| #[trigger] picked@.contains(other) implies (
                    before.contains(other) || other == id) by {
                        let k = choose|k: int| 0 <= k < picked@.len() && picked@[k] == other;
                        if k < before.len() {
                            assert(before[k] == other);
                        }
                    }
                    assert forall|other: PointId| before.contains(other) implies picked@.contains(
                        other,
                    ) by {
                        let k = choose|k: int| 0 <= k < before.len() && before[k] == other;
                        assert(picked@[k] == other);
                    }
                    assert(picked@[picked@.len() - 1] == id);
                    assert(entries[j as int].0 == id);
                    assert forall|other: PointId, k: int|
                        0 <= k < i && #[trigger] holder.segments@[k].points@.dom().contains(other)
                            && !(#[trigger] picked@.contains(other)) implies call_ensures(
                        pick,
                        (&other, &holder@[other]),
                        false,
                    ) by {
                        if before.contains(other) {
                            assert(picked@.contains(other));
                        }
                    }
                    assert forall|m: int|
                        0 <= m < j + 1 && !picked@.contains((#[trigger] entries[m]).0) implies call_ensures(
                        pick,
                        (&entries[m].0, &holder@[entries[m].0]),
                        false,
                    ) by {
                        if before.contains(entries[m].0) {
                            assert(picked@.contains(entries[m].0));
                        }
                    }
                }
            }
            j += 1;
        }
        proof {
            assert forall|id: PointId| #[trigger] picked@.contains(id) implies exists|k: int|
                0 <= k < i + 1 && (#[trigger] holder.segments@[k]).points@.dom().contains(id) by {
                if exists|k: int|
                    0 <= k < i && (#[trigger] holder.segments@[k]).points@.dom().contains(id) {
                    let k = choose|k: int|
                        0 <= k < i && (#[trigger] holder.segments@[k]).points@.dom().contains(id);
                    assert(holder.segments@[k].points@.dom().contains(id));
                } else {
                    let m = choose|m: int| 0 <= m < j && (#[trigger] entries[m]).0 == id;
                    crate::id_map::lemma_position_of_entry(entries, m);
                    assert(holder.segments@[i as int].points@.dom().contains(id));
                }
            }
            assert forall|id: PointId, k: int|
                0 <= k < i + 1 && #[trigger] holder.segments@[k].points@.dom().contains(id) && !(
                #[trigger] picked@.contains(id)) implies call_ensures(pick,
                (&id, &holder@[id]),
                false,
            ) by {
                if k == i {
                    crate::id_map::lemma_position_of(entries, id);
                    let m = position_of_id(entries, id);
                    assert(entries[m].0 == id);
                }
            }
        }
        i += 1;
    }
    proof {
        assert forall|id: PointId|
            holder@.dom().contains(id) && !(#[trigger] picked@.contains(id)) implies call_ensures(pick,
            (&id, &holder@[id]),
            false,
        ) by {
            crate::segments::lemma_points_of(holder.segments@, id);
            let k = choose|k: int|
                0 <= k < holder.segments@.len() && (#[trigger] holder.segments@[k]).points@.dom().contains(
                    id,
                );
            assert(holder.segments@[k].points@.dom().contains(id));
        }
    }
    picked
}

/// The position of `id` among `entries`.
pub open spec fn position_of_id(entries: Seq<(PointId, StoredPoint)>, id: PointId) -> int {
    crate::id_map::position_of(entries, id)
}

/// Deletes the stored points that `matches` says yes to, as far as no later
/// operation has written them. Returns the number of points that were
/// deleted.
pub fn delete_points_by_filter<F: Fn(&PointId, &StoredPoint) -> bool>(
    holder: &mut SegmentHolder,
    op_num: SeqNumberType,
    matches: F,
) -> (r: Result<usize, CollectionError>)
    requires
        old(holder).wf(),
        forall|id: &PointId, point: &StoredPoint| call_requires(matches, (id, point)),
    ensures
        final(holder).wf(),
        same_shape(old(holder).segments@, final(holder).segments@),
        exists|picked: Seq<PointId>|
            {
                &&& #[trigger] picked.no_duplicates()
                &&& forall|id: PointId| #[trigger]
                    picked.contains(id) ==> old(holder)@.dom().contains(id) && call_ensures(
                        matches,
                        (&id, &old(holder)@[id]),
                        true,
                    )
                &&& forall|id: PointId|
                    old(holder)@.dom().contains(id) && !(#[trigger] picked.contains(id))
                        ==> call_ensures(matches, (&id, &old(holder)@[id]), false)
                &&& is_count(r, written(picked, old(holder)@, op_num).len() as int)
                &&& forall|id: PointId| #[trigger]
                    final(holder)@.dom().contains(id) <==> old(holder)@.dom().contains(id) && !(
                    picked.contains(id) && applies(old(holder)@, id, op_num))
            },
        forall|id: PointId| #[trigger]
            final(holder)@.dom().contains(id) ==> final(holder)@[id] == old(holder)@[id],
{
    let picked = select_points(holder, matches);
    delete_points(holder, op_num, &picked)
}

/// Empties the payload of the stored points that `matches` says yes to, as
/// far as no later operation has written them. Returns the number of points
/// that were written.
///
/// Fails with a service error, and changes nothing, when a point is to be
/// written and no segment takes new points.
pub fn clear_payload_by_filter<F: Fn(&PointId, &StoredPoint) -> bool>(
    holder: &mut SegmentHolder,
    op_num: SeqNumberType,
    matches: F,
) -> (r: Result<usize, CollectionError>)
    requires
        old(holder).wf(),
        forall|id: &PointId, point: &StoredPoint| call_requires(matches, (id, point)),
    ensures
        final(holder).wf(),
        same_shape(old(holder).segments@, final(holder).segments@),
        final(holder)@.dom() == old(holder)@.dom(),
        exists|picked: Seq<PointId>|
            {
                &&& #[trigger] picked.no_duplicates()
                &&& forall|id: PointId| #[trigger]
                    picked.contains(id) ==> old(holder)@.dom().contains(id) && call_ensures(
                        matches,
                        (&id, &old(holder)@[id]),
                        true,
                    )
                &&& forall|id: PointId|
                    old(holder)@.dom().contains(id) && !(#[trigger] picked.contains(id))
                        ==> call_ensures(matches, (&id, &old(holder)@[id]), false)
                &&& if has_appendable(old(holder)) || written(picked, old(holder)@, op_num).len()
                    == 0 {
                    &&& is_count(r, written(picked, old(holder)@, op_num).len() as int)
                    &&& forall|id: PointId| #[trigger]
                        final(holder)@.dom().contains(id) ==> (if written(
                            picked,
                            old(holder)@,
                            op_num,
                        ).contains(id) {
                            is_edited(
                                old(holder)@[id],
                                final(holder)@[id],
                                PointEdit::ClearPayload,
                                op_num,
                            )
                        } else {
                            final(holder)@[id] == old(holder)@[id]
                        })
                    &&& forall|id: PointId|
                        written(picked, old(holder)@, op_num).contains(id) ==> #[trigger] in_appendable(
                            final(holder).segments@,
                            id,
                        )
                } else {
                    is_service_error(r, no_appendable_segment()) && final(holder)@ == old(
                        holder)@
                }
            },
{
    let picked = select_points(holder, matches);
    let edit = PointEdit::ClearPayload;
    match apply_points_to_appendable(holder, op_num, &picked, &edit) {
        Ok(updated) => Ok(updated.len()),
        Err(e) => Err(e),
    }
}

/// True when `name` is among `names`.
fn has_field(names: &Vec<String>, name: &String) -> (r: Option<usize>)
    ensures
        match r {
            Some(i) => i < names@.len() && names@[i as int]@ == name@,
            None => !texts_of(names@).contains(name@),
        },
{
    let mut i: usize = 0;
    while i < names.len()
        invariant
            i <= names.len(),
            forall|k: int| 0 <= k < i ==> texts_of(names@)[k] != name@,
        decreases names.len() - i,
    {
        if names[i] == *name {
            return Some(i);
        }
        i += 1;
    }
    None
}

/// Gives every segment an index on the payload field `field_name`. Returns
/// the number of segments that had none.
pub fn create_field_index(holder: &mut SegmentHolder, op_num: SeqNumberType, field_name: &String) -> (r:
    Result<usize, CollectionError>)
    requires
        old(holder).wf(),
    ensures
        final(holder).wf(),
        final(holder)@ == old(holder)@,
        final(holder).segments@.len() == old(holder).segments@.len(),
        r is Ok,
        r->Ok_0 <= old(holder).segments@.len(),
        forall|i: int|
            0 <= i < final(holder).segments@.len() ==> {
                let before = old(holder).segments@[i];
                let after = #[trigger] final(holder).segments@[i];
                &&& after.appendable == before.appendable
                &&& after.points == before.points
                &&& texts_of(after.indexed_fields@) == (if texts_of(before.indexed_fields@).contains(
                    field_name@,
                ) {
                    texts_of(before.indexed_fields@)
                } else {
                    texts_of(before.indexed_fields@).push(field_name@)
                })
            },
{
    let mut created: usize = 0;
    let mut i: usize = 0;
    while i < holder.segments.len()
        invariant
            i <= holder.segments.len(),
            created <= i,
            holder.segments@.len() == old(holder).segments@.len(),
            forall|k: int|
                i <= k < holder.segments@.len() ==> #[trigger] holder.segments@[k] == old(
                    holder).segments@[k],
            forall|k: int|
                0 <= k < i ==> {
                    let before = old(holder).segments@[k];
                    let after = #[trigger] holder.segments@[k];
                    &&& after.appendable == before.appendable
                    &&& after.points == before.points
                    &&& texts_of(after.indexed_fields@) == (if texts_of(
                        before.indexed_fields@,
                    ).contains(field_name@) {
                        texts_of(before.indexed_fields@)
                    } else {
                        texts_of(before.indexed_fields@).push(field_name@)
                    })
                },
        decreases holder.segments.len() - i,
    {
        let ghost before = holder.segments@[i as int].indexed_fields@;
        match has_field(&holder.segments[i].indexed_fields, field_name) {
            None => {
                holder.segments[i].indexed_fields.push(field_name.clone());
                created += 1;
                proof {
                    assert(texts_of(holder.segments@[i as int].indexed_fields@) =~= texts_of(
                        before,
                    ).push(field_name@));
                }
            },
            Some(k) => {
                proof {
                    assert(texts_of(before)[k as int] == field_name@);
                }
            },
        }
        i += 1;
    }
    proof {
        lemma_same_points(old(holder).segments@, holder.segments@);
    }
    Ok(created)
}

/// Segments with the same points, one by one, hold the same points
/// together.
pub proof fn lemma_same_points(before: Seq<crate::segments::Segment>, after: Seq<crate::segments::Segment>)
    requires
        before.len() == after.len(),
        forall|i: int| 0 <= i < before.len() ==> (#[trigger] after[i]).points == before[i].points,
        crate::segments::disjoint(before),
    ensures
        crate::segments::disjoint(after),
        crate::segments::points_of(after) == crate::segments::points_of(before),
    decreases before.len(),
{
    assert forall|i: int, j: int, id: PointId|
        0 <= i < j < after.len() && #[trigger] after[i].points@.dom().contains(id) implies !#[trigger] after[j].points@.dom().contains(
        id,
    ) by {
        assert(before[i].points@.dom().contains(id));
        assert(!before[j].points@.dom().contains(id));
    }
    assert forall|i: int| 0 <= i < after.len() implies (#[trigger] after[i]).points.wf() by {
        assert(before[i].points.wf());
    }
    if before.len() > 0 {
        let b = before.drop_last();
        let a = after.drop_last();
        assert(crate::segments::disjoint(b)) by {
            assert forall|i: int, j: int, id: PointId|
                0 <= i < j < b.len() && #[trigger] b[i].points@.dom().contains(id) implies !#[trigger] b[j].points@.dom().contains(
                id,
            ) by {
                assert(before[i].points@.dom().contains(id));
                assert(!before[j].points@.dom().contains(id));
            }
            assert forall|i: int| 0 <= i < b.len() implies (#[trigger] b[i]).points.wf() by {
                assert(before[i].points.wf());
            }
        }
        assert forall|i: int| 0 <= i < b.len() implies (#[trigger] a[i]).points == b[i].points by {
            assert(after[i].points == before[i].points);
        }
        lemma_same_points(b, a);
        assert(after.last().points == before.last().points);
    }
}

/// Takes the index on the payload field `field_name` from every segment.
/// Returns the number of segments that had one.
pub fn delete_field_index(holder: &mut SegmentHolder, op_num: SeqNumberType, field_name: &String) -> (r:
    Result<usize, CollectionError>)
    requires
        old(holder).wf(),
    ensures
        final(holder).wf(),
        final(holder)@ == old(holder)@,
        final(holder).segments@.len() == old(holder).segments@.len(),
        r is Ok,
        r->Ok_0 <= old(holder).segments@.len(),
        forall|i: int|
            0 <= i < final(holder).segments@.len() ==> {
                let before = old(holder).segments@[i];
                let after = #[trigger] final(holder).segments@[i];
                &&& after.appendable == before.appendable
                &&& after.points == before.points
                &&& texts_of(after.indexed_fields@) == texts_of(before.indexed_fields@).filter(
                    |name: Seq<char>| name != field_name@,
                )
            },
{
    let mut deleted: usize = 0;
    let mut i: usize = 0;
    let ghost pred = |name: Seq<char>| name != field_name@;
    while i < holder.segments.len()
        invariant
            i <= holder.segments.len(),
            deleted <= i,
            pred == (|name: Seq<char>| name != field_name@),
            holder.segments@.len() == old(holder).segments@.len(),
            forall|k: int|
                i <= k < holder.segments@.len() ==> #[trigger] holder.segments@[k] == old(
                    holder).segments@[k],
            forall|k: int|
                0 <= k < i ==> {
                    let before = old(holder).segments@[k];
                    let after = #[trigger] holder.segments@[k];
                    &&& after.appendable == before.appendable
                    &&& after.points == before.points
                    &&& texts_of(after.indexed_fields@) == texts_of(before.indexed_fields@).filter(
                        pred,
                    )
                },
        decreases holder.segments.len() - i,
    {
        let ghost names = texts_of(holder.segments@[i as int].indexed_fields@);
        let mut kept: Vec<String> = Vec::new();
        let mut all: Vec<String> = Vec::new();
        core::mem::swap(&mut holder.segments[i].indexed_fields, &mut all);
        let total = all.len();
        let ghost given = all@;
        let mut rest = crate::operations::reverse(all);
        let ghost mut done: int = 0;
        assert(names.take(0) =~= Seq::<Seq<char>>::empty());
        while rest.len() > 0
            invariant
                0 <= done <= given.len(),
                names == texts_of(given),
                pred == (|name: Seq<char>| name != field_name@),
                rest@.len() == given.len() - done,
                forall|k: int| 0 <= k < rest@.len() ==> #[trigger] rest@[k] == given[given.len() - 1 - k],
                texts_of(kept@) == names.take(done).filter(pred),
            decreases rest@.len(),
        {
            let name = rest.pop().unwrap();
            proof {
                assert(name == given[done]);
                assert(names.take(done + 1) == names.take(done).push(name@));
                names.take(done).lemma_filter_push(name@, pred);
            }
            if name != *field_name {
                proof {
                    assert(texts_of(kept@.push(name)) =~= texts_of(kept@).push(name@));
                }
                kept.push(name);
            }
            proof {
                done = done + 1;
            }
        }
        proof {
            assert(names.take(done) == names);
        }
        if kept.len() < total {
            deleted += 1;
        }
        holder.segments[i].indexed_fields = kept;
        i += 1;
    }
    proof {
        lemma_same_points(old(holder).segments@, holder.segments@);
    }
    Ok(deleted)
}

/// True when `id` is between `from_id` and `to_id`, both included; a bound
/// that is `None` is no bound.
pub open spec fn in_range(id: PointId, from_id: Option<PointId>, to_id: Option<PointId>) -> bool {
    (match from_id {
        Some(from) => from.rank() <= id.rank(),
        None => true,
    }) && (match to_id {
        Some(to) => id.rank() <= to.rank(),
        None => true,
    })
}

/// Decides whether `id` is in the range.
pub fn is_in_range(id: &PointId, from_id: &Option<PointId>, to_id: &Option<PointId>) -> (b: bool)
    ensures
        b == in_range(*id, *from_id, *to_id),
{
    let above = match from_id {
        Some(from) => !id.precedes(from),
        None => true,
    };
    let below = match to_id {
        Some(to) => !to.precedes(id),
        None => true,
    };
    above && below
}

/// The stored points with an id in the range.
pub fn read_range(holder: &SegmentHolder, from_id: Option<PointId>, to_id: Option<PointId>) -> (ids:
    Vec<PointId>)
    requires
        holder.wf(),
    ensures
        ids@.no_duplicates(),
        forall|id: PointId| #[trigger]
            ids@.contains(id) <==> holder@.dom().contains(id) && in_range(id, from_id, to_id),
{
    let pick = |id: &PointId, point: &StoredPoint| -> (b: bool)
        ensures
            b == in_range(*id, from_id, to_id),
        { is_in_range(id, &from_id, &to_id) };
    select_points(holder, pick)
}

/// True when the stored point and the given point differ in their vector
/// or in the fields of their payload; a point that is given without payload
/// has none.
pub open spec fn differs(stored: StoredPoint, given: PointStruct) -> bool {
    stored.vector@ != given.vector@ || fields(stored.payload@) != (match given.payload {
        Some(payload) => fields(payload@),
        None => Seq::empty(),
    })
}

/// Decides whether two payloads have the same fields.
fn same_fields(a: &Payload, b: &Payload) -> (same: bool)
    ensures
        same == (fields(a@) == fields(b@)),
{
    if a.len() != b.len() {
        assert(fields(a@).len() != fields(b@).len());
        return false;
    }
    let mut i: usize = 0;
    while i < a.len()
        invariant
            i <= a.len(),
            a.len() == b.len(),
            forall|k: int| 0 <= k < i ==> fields(a@)[k] == fields(b@)[k],
        decreases a.len() - i,
    {
        let equal = a[i].key == b[i].key && bytes_equal(&a[i].value, &b[i].value);
        if !equal {
            assert(fields(a@)[i as int] != fields(b@)[i as int]);
            return false;
        }
        i += 1;
    }
    assert(fields(a@) =~= fields(b@));
    true
}

/// Decides whether two sequences of bytes are equal.
fn bytes_equal(a: &Vec<u8>, b: &Vec<u8>) -> (same: bool)
    ensures
        same == (a@ == b@),
{
    if a.len() != b.len() {
        return false;
    }
    let mut i: usize = 0;
    while i < a.len()
        invariant
            i <= a.len(),
            a.len() == b.len(),
            forall|k: int| 0 <= k < i ==> a@[k] == b@[k],
        decreases a.len() - i,
    {
        if a[i] != b[i] {
            return false;
        }
        i += 1;
    }
    assert(a@ =~= b@);
    true
}

/// Decides whether two vectors are equal.
fn bits_equal(a: &Vec<u32>, b: &Vec<u32>) -> (same: bool)
    ensures
        same == (a@ == b@),
{
    if a.len() != b.len() {
        return false;
    }
    let mut i: usize = 0;
    while i < a.len()
        invariant
            i <= a.len(),
            a.len() == b.len(),
            forall|k: int| 0 <= k < i ==> a@[k] == b@[k],
        decreases a.len() - i,
    {
        if a[i] != b[i] {
            return false;
        }
        i += 1;
    }
    assert(a@ =~= b@);
    true
}

/// Decides whether the stored point and the given point differ.
pub fn point_differs(stored: &StoredPoint, given: &PointStruct) -> (b: bool)
    ensures
        b == differs(*stored, *given),
{
    if !bits_equal(&stored.vector, &given.vector) {
        return true;
    }
    match &given.payload {
        Some(payload) => !same_fields(&stored.payload, payload),
        None => {
            proof {
                assert(fields(stored.payload@).len() == stored.payload@.len());
                if stored.payload@.len() == 0 {
                    assert(fields(stored.payload@) =~= Seq::<(Seq<char>, Seq<u8>)>::empty());
                }
            }
            stored.payload.len() != 0
        },
    }
}

/// Points that are the same carry the same vector and the same payload
/// fields: what is stored for the one is what is stored for the other.
pub proof fn lemma_same_point(
    copy: PointStruct,
    given: PointStruct,
    before: StoredPoint,
    after: StoredPoint,
    op_num: SeqNumberType,
)
    requires
        copy.same(&given),
    ensures
        is_fresh(after, copy, op_num) == is_fresh(after, given, op_num),
        is_edited(before, after, PointEdit::Upsert(&copy), op_num) == is_edited(
            before,
            after,
            PointEdit::Upsert(&given),
            op_num,
        ),
        differs(before, copy) == differs(before, given),
{
    match (copy.payload, given.payload) {
        (Some(a), Some(b)) => {
            assert(fields(a@) =~= fields(b@));
        },
        _ => {},
    }
}

/// What a synchronisation of the range with `points` makes of the stored
/// points that `points` does not name: those in the range are deleted,
/// unless a later operation has written them.
pub open spec fn range_emptied(
    before: Map<PointId, StoredPoint>,
    after: Map<PointId, StoredPoint>,
    points: Seq<PointStruct>,
    from_id: Option<PointId>,
    to_id: Option<PointId>,
    op_num: SeqNumberType,
) -> bool {
    forall|id: PointId|
        !ids_of(points).contains(id) ==> (#[trigger] after.dom().contains(id) <==> before.dom().contains(
            id,
        ) && !(in_range(id, from_id, to_id) && applies(before, id, op_num))) && (after.dom().contains(
            id,
        ) ==> after[id] == before[id])
}

/// What a synchronisation makes of the points that `points` names: a point
/// that is stored in the range as it is given stays; every other point is
/// stored as an upsert stores it.
pub open spec fn range_filled(
    before: Map<PointId, StoredPoint>,
    after: Map<PointId, StoredPoint>,
    points: Seq<PointStruct>,
    from_id: Option<PointId>,
    to_id: Option<PointId>,
    op_num: SeqNumberType,
) -> bool {
    forall|id: PointId|
        ids_of(points).contains(id) ==> #[trigger] after.dom().contains(id) && ({
            let given = points[last_with(points, id)];
            if !before.dom().contains(id) {
                is_fresh(after[id], given, op_num)
            } else if in_range(id, from_id, to_id) && !differs(before[id], given) {
                after[id] == before[id]
            } else if before[id].version <= op_num {
                is_edited(before[id], after[id], PointEdit::Upsert(&given), op_num)
            } else {
                after[id] == before[id]
            }
        })
}

/// True when `doomed` holds, each once, the stored points of the range that
/// `points` does not name and the operation may write; `fresh` the points of
/// `points` that the range does not hold; and `changed` the stored points of
/// the range that differ from the point given for them.
pub open spec fn counted(
    doomed: Seq<PointId>,
    fresh: Seq<PointId>,
    changed: Seq<PointId>,
    before: Map<PointId, StoredPoint>,
    points: Seq<PointStruct>,
    from_id: Option<PointId>,
    to_id: Option<PointId>,
    op_num: SeqNumberType,
) -> bool {
    &&& doomed.no_duplicates()
    &&& fresh.no_duplicates()
    &&& changed.no_duplicates()
    &&& forall|id: PointId| #[trigger]
        doomed.contains(id) <==> before.dom().contains(id) && in_range(id, from_id, to_id)
            && !ids_of(points).contains(id) && applies(before, id, op_num)
    &&& forall|id: PointId| #[trigger]
        fresh.contains(id) <==> ids_of(points).contains(id) && !(before.dom().contains(id)
            && in_range(id, from_id, to_id))
    &&& forall|id: PointId| #[trigger]
        changed.contains(id) <==> before.dom().contains(id) && in_range(id, from_id, to_id)
            && ids_of(points).contains(id) && differs(before[id], points[last_with(points, id)])
}

/// Brings the stored points of the range from `from_id` to `to_id` in line
/// with `points`: stored points of the range that `points` does not name
/// are deleted, stored points that differ from the point given for them are
/// replaced, and points that the range does not hold are stored. Of several
/// points with one id the last counts. A point that a later operation has
/// written is left alone.
///
/// Returns the number of deleted points, the number of points that the
/// range did not hold, and the number of stored points that differed.
///
/// Fails with a service error when no segment takes new points; the points
/// to delete are deleted then all the same.
pub fn sync_points(
    holder: &mut SegmentHolder,
    op_num: SeqNumberType,
    from_id: Option<PointId>,
    to_id: Option<PointId>,
    points: &Vec<PointStruct>,
) -> (r: Result<(usize, usize, usize), CollectionError>)
    requires
        old(holder).wf(),
    ensures
        final(holder).wf(),
        same_shape(old(holder).segments@, final(holder).segments@),
        range_emptied(old(holder)@, final(holder)@, points@, from_id, to_id, op_num),
        if has_appendable(old(holder)) {
            &&& r is Ok
            &&& range_filled(old(holder)@, final(holder)@, points@, from_id, to_id, op_num)
            &&& exists|doomed: Seq<PointId>, fresh: Seq<PointId>, changed: Seq<PointId>|
                #[trigger] counted(
                    doomed,
                    fresh,
                    changed,
                    old(holder)@,
                    points@,
                    from_id,
                    to_id,
                    op_num,
                ) && r->Ok_0.0 == doomed.len() && r->Ok_0.1 == fresh.len() && r->Ok_0.2
                    == changed.len()
            &&& forall|id: PointId|
                ids_of(points@).contains(id) && writes(old(holder)@, id, op_num) && !(old(
                    holder)@.dom().contains(id) && in_range(id, from_id, to_id) && !differs(
                    old(holder)@[id],
                    points@[last_with(points@, id)],
                )) ==> #[trigger] in_appendable(final(holder).segments@, id)
        } else {
            &&& is_service_error(r, no_segment())
            &&& forall|id: PointId|
                ids_of(points@).contains(id) ==> (#[trigger] final(holder)@.dom().contains(id)
                    == old(holder)@.dom().contains(id)) && (final(holder)@.dom().contains(id)
                    ==> final(holder)@[id] == old(holder)@[id])
        },
{
    let ghost start = old(holder)@;
    let ghost sync = ids_of(points@);
    let stored = read_range(holder, from_id, to_id);
    // The points of the range that are not named.
    let mut to_remove: Vec<PointId> = Vec::new();
    let mut i: usize = 0;
    while i < stored.len()
        invariant
            i <= stored.len(),
            sync == ids_of(points@),
            stored@.no_duplicates(),
            to_remove@.no_duplicates(),
            forall|id: PointId| #[trigger]
                to_remove@.contains(id) <==> (exists|k: int| 0 <= k < i && stored@[k] == id)
                    && !sync.contains(id),
        decreases stored.len() - i,
    {
        let id = stored[i];
        let ghost before = to_remove@;
        proof {
            lemma_last_with(points@, id);
        }
        if last_point(points, id).is_none() {
            to_remove.push(id);
            proof {
                assert(to_remove@[to_remove@.len() - 1] == id);
                assert forall|other: PointId| #[trigger]
                    to_remove@.contains(other) <==> (exists|k: int|
                        0 <= k < i + 1 && stored@[k] == other) && !sync.contains(other) by {
                    if to_remove@.contains(other) {
                        let k = choose|k: int| 0 <= k < to_remove@.len() && to_remove@[k] == other;
                        if k < before.len() {
                            assert(before[k] == other);
                            assert(before.contains(other));
                        } else {
                            assert(stored@[i as int] == other);
                        }
                    }
                    if (exists|k: int| 0 <= k < i + 1 && stored@[k] == other) && !sync.contains(
                        other,
                    ) {
                        let k = choose|k: int| 0 <= k < i + 1 && stored@[k] == other;
                        if k < i {
                            assert(before.contains(other));
                            let m = choose|m: int| 0 <= m < before.len() && before[m] == other;
                            assert(to_remove@[m] == other);
                        }
                    }
                }
                assert forall|a: int, b: int|
                    0 <= a < b < to_remove@.len() implies to_remove@[a] != to_remove@[b] by {
                    if b == before.len() {
                        assert(before[a] == to_remove@[a]);
                        if before[a] == id {
                            assert(before.contains(id));
                            let k = choose|k: int| 0 <= k < i && stored@[k] == id;
                            assert(false);
                        }
                    } else {
                        assert(before[a] == to_remove@[a] && before[b] == to_remove@[b]);
                    }
                }
            }
        } else {
            proof {
                assert forall|other: PointId| #[trigger]
                    to_remove@.contains(other) <==> (exists|k: int|
                        0 <= k < i + 1 && stored@[k] == other) && !sync.contains(other) by {
                    if (exists|k: int| 0 <= k < i + 1 && stored@[k] == other) && !sync.contains(
                        other,
                    ) {
                        let k = choose|k: int| 0 <= k < i + 1 && stored@[k] == other;
                        assert(k < i);
                    }
                }
            }
        }
        i += 1;
    }
    let deleted = match delete_points(holder, op_num, &to_remove) {
        Ok(n) => n,
        Err(e) => {
            return Err(e);
        },
    };
    let ghost emptied = *holder;
    let ghost doomed = written(to_remove@, start, op_num);
    proof {
        lemma_written(to_remove@, start, op_num);
        assert forall|id: PointId|
            !sync.contains(id) implies (#[trigger] emptied@.dom().contains(id)
                <==> start.dom().contains(id) && !(in_range(id, from_id, to_id) && applies(
                start,
                id,
                op_num,
            ))) && (emptied@.dom().contains(id) ==> emptied@[id] == start[id]) by {
            if stored@.contains(id) {
                let k = choose|k: int| 0 <= k < stored@.len() && stored@[k] == id;
                assert(to_remove@.contains(id));
            }
            if to_remove@.contains(id) {
                let k = choose|k: int| 0 <= k < stored@.len() && stored@[k] == id;
                assert(stored@.contains(id));
            }
        }
        assert forall|id: PointId| sync.contains(id) implies (#[trigger] emptied@.dom().contains(
            id,
        ) == start.dom().contains(id)) && (emptied@.dom().contains(id) ==> emptied@[id]
            == start[id]) by {}
        assert forall|id: PointId| #[trigger]
            doomed.contains(id) <==> start.dom().contains(id) && in_range(id, from_id, to_id)
                && !sync.contains(id) && applies(start, id, op_num) by {
            if to_remove@.contains(id) {
                let k = choose|k: int| 0 <= k < stored@.len() && stored@[k] == id;
                assert(stored@.contains(id));
            }
            if stored@.contains(id) && !sync.contains(id) {
                let k = choose|k: int| 0 <= k < stored@.len() && stored@[k] == id;
                assert(to_remove@.contains(id));
            }
        }
    }
    // The stored points that differ from the point given for them.
    let mut to_update: Vec<PointStruct> = Vec::new();
    let mut num_updated: usize = 0;
    let ghost mut changed: Seq<PointId> = Seq::empty();
    let mut n: usize = 0;
    while n < stored.len()
        invariant
            n <= stored.len(),
            holder.wf(),
            *holder == emptied,
            sync == ids_of(points@),
            stored@.no_duplicates(),
            forall|id: PointId| #[trigger]
                stored@.contains(id) <==> start.dom().contains(id) && in_range(id, from_id, to_id),
            forall|id: PointId|
                sync.contains(id) ==> (#[trigger] emptied@.dom().contains(id)
                    == start.dom().contains(id)) && (emptied@.dom().contains(id) ==> emptied@[id]
                    == start[id]),
            num_updated == changed.len(),
            num_updated <= n,
            changed == ids_of(to_update@),
            changed.no_duplicates(),
            forall|id: PointId| #[trigger]
                changed.contains(id) <==> (exists|k: int| 0 <= k < n && stored@[k] == id)
                    && sync.contains(id) && differs(start[id], points@[last_with(points@, id)]),
            forall|k: int|
                0 <= k < to_update@.len() ==> last_with(points@, (#[trigger] to_update@[k]).id)
                    >= 0 && to_update@[k].same(&points@[last_with(points@, to_update@[k].id)]),
        decreases stored.len() - n,
    {
        let id = stored[n];
        let ghost before = changed;
        proof {
            lemma_last_with(points@, id);
            assert(stored@.contains(id));
        }
        let mut pushed = false;
        match last_point(points, id) {
            None => {},
            Some(given) => {
                match holder.segment_of(id) {
                    None => {
                        proof {
                            assert(false);
                        }
                    },
                    Some(at) => {
                        match holder.segments[at].points.get(id) {
                            None => {},
                            Some(point) => {
                                if point_differs(point, given) {
                                    to_update.push(given.duplicate());
                                    num_updated += 1;
                                    pushed = true;
                                    proof {
                                        changed = changed.push(id);
                                        assert(ids_of(to_update@) =~= changed);
                                    }
                                }
                            },
                        }
                    },
                }
            },
        }
        proof {
            assert forall|other: PointId| #[trigger]
                changed.contains(other) <==> (exists|k: int| 0 <= k < n + 1 && stored@[k] == other)
                    && sync.contains(other) && differs(
                    start[other],
                    points@[last_with(points@, other)],
                ) by {
                if changed.contains(other) {
                    let k = choose|k: int| 0 <= k < changed.len() && changed[k] == other;
                    if k < before.len() {
                        assert(before[k] == other);
                        assert(before.contains(other));
                        let m = choose|m: int| 0 <= m < n && stored@[m] == other;
                        assert(stored@[m] == other);
                    } else {
                        assert(stored@[n as int] == other);
                    }
                }
                if (exists|k: int| 0 <= k < n + 1 && stored@[k] == other) && sync.contains(other)
                    && differs(start[other], points@[last_with(points@, other)]) {
                    let k = choose|k: int| 0 <= k < n + 1 && stored@[k] == other;
                    if k < n {
                        assert(before.contains(other));
                        let m = choose|m: int| 0 <= m < before.len() && before[m] == other;
                        assert(changed[m] == other);
                    } else {
                        assert(pushed);
                        assert(changed[changed.len() - 1] == other);
                    }
                }
            }
            assert forall|a: int, b: int| 0 <= a < b < changed.len() implies changed[a]
                != changed[b] by {
                if b == before.len() && pushed {
                    assert(before[a] == changed[a]);
                    if before[a] == id {
                        assert(before.contains(id));
                        let k = choose|k: int| 0 <= k < n && stored@[k] == id;
                        assert(false);
                    }
                } else {
                    assert(before[a] == changed[a] && before[b] == changed[b]);
                }
            }
        }
        n += 1;
    }
    // The points that the range does not hold.
    let mut num_new: usize = 0;
    let ghost mut fresh: Seq<PointId> = Seq::empty();
    let mut seen: Vec<PointId> = Vec::new();
    let mut m: usize = 0;
    proof {
        assert(sync.take(0) =~= Seq::<PointId>::empty());
        assert(changed + fresh =~= changed);
    }
    while m < points.len()
        invariant
            m <= points.len(),
            sync == ids_of(points@),
            seen@ == sync.take(m as int),
            num_new == fresh.len(),
            num_new <= m,
            fresh.no_duplicates(),
            ids_of(to_update@) == changed + fresh,
            forall|id: PointId| #[trigger]
                fresh.contains(id) <==> seen@.contains(id) && !stored@.contains(id),
            forall|k: int|
                0 <= k < to_update@.len() ==> last_with(points@, (#[trigger] to_update@[k]).id)
                    >= 0 && to_update@[k].same(&points@[last_with(points@, to_update@[k].id)]),
        decreases points.len() - m,
    {
        let id = points[m].id;
        let ghost before = fresh;
        let ghost seen_before = seen@;
        proof {
            assert(sync[m as int] == id);
            assert(sync.take(m + 1) == sync.take(m as int).push(id));
            lemma_last_with(points@, id);
            assert(sync.contains(id));
        }
        let mut pushed = false;
        if !contains_id(&seen, id) && !contains_id(&stored, id) {
            match last_point(points, id) {
                Some(given) => {
                    let ghost listed = to_update@;
                    let copy = given.duplicate();
                    assert(copy.id == id);
                    to_update.push(copy);
                    num_new += 1;
                    pushed = true;
                    proof {
                        fresh = fresh.push(id);
                        assert(ids_of(to_update@) =~= ids_of(listed).push(id));
                        assert(changed + fresh =~= (changed + before).push(id));
                    }
                },
                None => {
                    proof {
                        assert(false);
                    }
                },
            }
        }
        seen.push(id);
        proof {
            assert forall|other: PointId| seen@.contains(other) == (seen_before.contains(other)
                || other == id) by {
                if seen@.contains(other) {
                    let k = choose|k: int| 0 <= k < seen@.len() && seen@[k] == other;
                    if k < seen_before.len() {
                        assert(seen_before[k] == other);
                    }
                }
                if seen_before.contains(other) {
                    let k = choose|k: int| 0 <= k < seen_before.len() && seen_before[k] == other;
                    assert(seen@[k] == other);
                }
                if other == id {
                    assert(seen@[seen@.len() - 1] == id);
                }
            }
            assert forall|other: PointId| #[trigger]
                fresh.contains(other) <==> seen@.contains(other) && !stored@.contains(other) by {
                if fresh.contains(other) {
                    let k = choose|k: int| 0 <= k < fresh.len() && fresh[k] == other;
                    if k < before.len() {
                        assert(before[k] == other);
                        assert(before.contains(other));
                    }
                }
                if before.contains(other) {
                    let k = choose|k: int| 0 <= k < before.len() && before[k] == other;
                    assert(fresh[k] == other);
                }
                if pushed {
                    assert(fresh[fresh.len() - 1] == id);
                }
            }
            assert forall|a: int, b: int| 0 <= a < b < fresh.len() implies fresh[a] != fresh[b] by {
                if b == before.len() && pushed {
                    assert(before[a] == fresh[a]);
                    if before[a] == id {
                        assert(before.contains(id));
                        assert(false);
                    }
                } else {
                    assert(before[a] == fresh[a] && before[b] == fresh[b]);
                }
            }
        }
        m += 1;
    }
    proof {
        assert(sync.take(m as int) == sync);
    }
    let upserted_now = upsert_points(holder, op_num, &to_update);
    proof {
        lemma_same_shape(old(holder), &emptied, holder);
        let named = ids_of(to_update@);
        assert forall|id: PointId| #[trigger] named.contains(id) implies sync.contains(id) by {
            let k = choose|k: int| 0 <= k < named.len() && named[k] == id;
            assert(to_update@[k].id == id);
            lemma_last_with(points@, id);
        }
    }
    match upserted_now {
        Err(e) => Err(e),
        Ok(_) => {
            proof {
                let named = ids_of(to_update@);
                let after = holder@;
                assert forall|id: PointId| !sync.contains(id) implies (
                #[trigger] after.dom().contains(id) <==> start.dom().contains(id) && !(in_range(
                    id,
                    from_id,
                    to_id,
                ) && applies(start, id, op_num))) && (after.dom().contains(id) ==> after[id]
                    == start[id]) by {
                    assert(!named.contains(id));
                    assert(after.dom().contains(id) <==> emptied@.dom().contains(id));
                }
                assert forall|id: PointId| sync.contains(id) implies #[trigger] after.dom().contains(
                    id,
                ) && ({
                    let given = points@[last_with(points@, id)];
                    if !start.dom().contains(id) {
                        is_fresh(after[id], given, op_num)
                    } else if in_range(id, from_id, to_id) && !differs(start[id], given) {
                        after[id] == start[id]
                    } else if start[id].version <= op_num {
                        is_edited(start[id], after[id], PointEdit::Upsert(&given), op_num)
                    } else {
                        after[id] == start[id]
                    }
                }) by {
                    lemma_last_with(points@, id);
                    lemma_last_with(to_update@, id);
                    let given = points@[last_with(points@, id)];
                    assert(emptied@.dom().contains(id) == start.dom().contains(id));
                    assert(seen@.contains(id));
                    assert(fresh.contains(id) <==> !stored@.contains(id));
                    assert(stored@.contains(id) <==> start.dom().contains(id) && in_range(
                        id,
                        from_id,
                        to_id,
                    ));
                    if named.contains(id) {
                        let copy = to_update@[last_with(to_update@, id)];
                        assert(copy.id == id);
                        assert(copy.same(&given));
                        assert(after.dom().contains(id));
                        if emptied@.dom().contains(id) {
                            lemma_same_point(copy, given, emptied@[id], after[id], op_num);
                        } else {
                            lemma_same_point(copy, given, after[id], after[id], op_num);
                        }
                        let k = choose|k: int| 0 <= k < named.len() && named[k] == id;
                        if k < changed.len() {
                            assert(changed[k] == id);
                            assert(changed.contains(id));
                        } else {
                            assert(fresh[k - changed.len()] == id);
                            assert(fresh.contains(id));
                        }
                        if start.dom().contains(id) {
                            assert(emptied@[id] == start[id]);
                        }
                    } else {
                        assert(!changed.contains(id) && !fresh.contains(id)) by {
                            if changed.contains(id) {
                                let k = choose|k: int| 0 <= k < changed.len() && changed[k] == id;
                                assert(named[k] == id);
                            }
                            if fresh.contains(id) {
                                let k = choose|k: int| 0 <= k < fresh.len() && fresh[k] == id;
                                assert(named[changed.len() + k] == id);
                            }
                        }
                        assert(stored@.contains(id));
                        let k = choose|k: int| 0 <= k < stored@.len() && stored@[k] == id;
                        assert(!differs(start[id], given));
                    }
                }
                assert forall|id: PointId| #[trigger]
                    changed.contains(id) <==> start.dom().contains(id) && in_range(
                        id,
                        from_id,
                        to_id,
                    ) && sync.contains(id) && differs(
                        start[id],
                        points@[last_with(points@, id)],
                    ) by {
                    if changed.contains(id) {
                        let k = choose|k: int| 0 <= k < stored@.len() && stored@[k] == id;
                        assert(stored@.contains(id));
                    }
                    if stored@.contains(id) {
                        let k = choose|k: int| 0 <= k < stored@.len() && stored@[k] == id;
                    }
                }
                assert(counted(doomed, fresh, changed, start, points@, from_id, to_id, op_num));
                assert forall|id: PointId|
                    sync.contains(id) && writes(start, id, op_num) && !(start.dom().contains(id)
                        && in_range(id, from_id, to_id) && !differs(
                        start[id],
                        points@[last_with(points@, id)],
                    )) implies #[trigger] in_appendable(holder.segments@, id) by {
                    assert(seen@.contains(id));
                    assert(fresh.contains(id) <==> !stored@.contains(id));
                    assert(stored@.contains(id) <==> start.dom().contains(id) && in_range(
                        id,
                        from_id,
                        to_id,
                    ));
                    if stored@.contains(id) {
                        assert(changed.contains(id));
                        let k = choose|k: int| 0 <= k < changed.len() && changed[k] == id;
                        assert(named[k] == id);
                    } else {
                        let k = choose|k: int| 0 <= k < fresh.len() && fresh[k] == id;
                        assert(named[changed.len() + k] == id);
                    }
                    assert(named.contains(id));
                    assert(emptied@.dom().contains(id) == start.dom().contains(id));
                    if emptied@.dom().contains(id) {
                        assert(emptied@[id] == start[id]);
                    }
                    assert(writes(emptied@, id, op_num));
                }
            }
            Ok((deleted, num_new, num_updated))
        },
    }
}

/// Applies an operation on points to the segments. `matches` says whether a
/// stored point passes an encoded filter.
///
/// Returns the number of points that the operation touched: for a
/// synchronisation the deleted, the new and the replaced points together.
/// Fails as the operation does, and with `BadRequest` when a batch of points
/// is not well formed.
pub fn process_point_operation<F: Fn(&Vec<u8>, &PointId, &StoredPoint) -> bool>(
    holder: &mut SegmentHolder,
    op_num: SeqNumberType,
    point_operation: crate::operations::PointOperations,
    matches: F,
) -> (r: Result<usize, CollectionError>)
    requires
        old(holder).wf(),
        forall|filter: &Vec<u8>, id: &PointId, point: &StoredPoint|
            call_requires(matches, (filter, id, point)),
    ensures
        final(holder).wf(),
        same_shape(old(holder).segments@, final(holder).segments@),
        match point_operation {
            crate::operations::PointOperations::DeletePoints { ids } => {
                &&& is_count(r, written(ids@, old(holder)@, op_num).len() as int)
                &&& forall|id: PointId| #[trigger]
                    final(holder)@.dom().contains(id) <==> old(holder)@.dom().contains(id) && !(
                    ids@.contains(id) && applies(old(holder)@, id, op_num))
                &&& forall|id: PointId| #[trigger]
                    final(holder)@.dom().contains(id) ==> final(holder)@[id] == old(holder)@[id]
            },
            crate::operations::PointOperations::UpsertPoints(insert) => if !insert.is_valid() {
                crate::types::is_bad_request(r, insert.fault()) && final(holder)@ == old(
                    holder)@
            } else if has_appendable(old(holder)) {
                &&& is_count(r, (written(ids_of(insert.spec_points()), old(holder)@, op_num).len() + repeats(
                        ids_of(insert.spec_points()),
                        old(holder)@,
                    )))
                &&& upserted(old(holder)@, final(holder)@, insert.spec_points(), op_num)
                &&& forall|id: PointId|
                    ids_of(insert.spec_points()).contains(id) && writes(old(holder)@, id, op_num)
                        ==> #[trigger] in_appendable(final(holder).segments@, id)
            } else {
                is_service_error(r, no_segment()) && final(holder)@ == old(
                    holder)@
            },
            crate::operations::PointOperations::DeletePointsByFilter(filter) => {
                &&& r is Ok
                &&& forall|id: PointId| #[trigger]
                    final(holder)@.dom().contains(id) ==> old(holder)@.dom().contains(id) && final(
                        holder)@[id] == old(holder)@[id]
                &&& forall|id: PointId|
                    old(holder)@.dom().contains(id) && !(#[trigger] final(holder)@.dom().contains(
                        id,
                    )) ==> call_ensures(matches, (&filter, &id, &old(holder)@[id]), true) && applies(
                        old(holder)@,
                        id,
                        op_num,
                    )
                &&& forall|id: PointId| #[trigger]
                    final(holder)@.dom().contains(id) ==> call_ensures(
                        matches,
                        (&filter, &id, &old(holder)@[id]),
                        false,
                    ) || !applies(old(holder)@, id, op_num)
            },
            crate::operations::PointOperations::SyncPoints { from_id, to_id, points } => {
                &&& range_emptied(old(holder)@, final(holder)@, points@, from_id, to_id, op_num)
                &&& if has_appendable(old(holder)) {
                    &&& range_filled(old(holder)@, final(holder)@, points@, from_id, to_id, op_num)
                    &&& exists|doomed: Seq<PointId>, fresh: Seq<PointId>, changed: Seq<PointId>|
                        #[trigger] counted(
                            doomed,
                            fresh,
                            changed,
                            old(holder)@,
                            points@,
                            from_id,
                            to_id,
                            op_num,
                        ) && (if doomed.len() + fresh.len() + changed.len() <= usize::MAX {
                            is_count(r, (doomed.len() + fresh.len() + changed.len()) as int)
                        } else {
                            is_service_error(r, too_many_points())
                        })
                    &&& forall|id: PointId|
                        ids_of(points@).contains(id) && writes(old(holder)@, id, op_num) && !(old(
                            holder)@.dom().contains(id) && in_range(id, from_id, to_id) && !differs(
                            old(holder)@[id],
                            points@[last_with(points@, id)],
                        )) ==> #[trigger] in_appendable(final(holder).segments@, id)
                } else {
                    is_service_error(r, no_segment())
                }
            },
        },
{
    match point_operation {
        crate::operations::PointOperations::DeletePoints { ids } => delete_points(
            holder,
            op_num,
            &ids,
        ),
        crate::operations::PointOperations::UpsertPoints(insert) => {
            let valid = match &insert {
                crate::operations::PointInsertOperations::PointsBatch(batch) => batch.validate(),
                crate::operations::PointInsertOperations::PointsList(_) => Ok(()),
            };
            match valid {
                Err(e) => Err(e),
                Ok(()) => {
                    let points = insert.into_points();
                    proof {
                        assert(points@ =~= insert.spec_points());
                    }
                    upsert_points(holder, op_num, &points)
                },
            }
        },
        crate::operations::PointOperations::DeletePointsByFilter(filter) => {
            let decide = &matches;
            let pick = |id: &PointId, point: &StoredPoint| -> (b: bool)
                requires
                    call_requires(decide, (&filter, id, point)),
                ensures
                    call_ensures(decide, (&filter, id, point), b),
                { decide(&filter, id, point) };
            let ghost before = *holder;
            let r = delete_points_by_filter(holder, op_num, pick);
            proof {
                let picked = choose|picked: Seq<PointId>|
                    {
                        &&& #[trigger] picked.no_duplicates()
                        &&& forall|id: PointId| #[trigger]
                            picked.contains(id) ==> before@.dom().contains(id) && call_ensures(
                                pick,
                                (&id, &before@[id]),
                                true,
                            )
                        &&& forall|id: PointId|
                            before@.dom().contains(id) && !(#[trigger] picked.contains(id))
                                ==> call_ensures(pick, (&id, &before@[id]), false)
                        &&& is_count(r, written(picked, before@, op_num).len() as int)
                        &&& forall|id: PointId| #[trigger]
                            holder@.dom().contains(id) <==> before@.dom().contains(id) && !(
                            picked.contains(id) && applies(before@, id, op_num))
                    };
                assert forall|id: PointId|
                    before@.dom().contains(id) && !(#[trigger] holder@.dom().contains(
                        id,
                    )) implies call_ensures(matches, (&filter, &id, &before@[id]), true)
                    && applies(before@, id, op_num) by {
                    assert(picked.contains(id));
                }
                assert forall|id: PointId| #[trigger] holder@.dom().contains(id) implies call_ensures(
                    matches,
                    (&filter, &id, &before@[id]),
                    false,
                ) || !applies(before@, id, op_num) by {
                    if !picked.contains(id) {
                        assert(call_ensures(pick, (&id, &before@[id]), false));
                    }
                }
            }
            r
        },
        crate::operations::PointOperations::SyncPoints { from_id, to_id, points } => {
            let ghost before = *holder;
            match sync_points(holder, op_num, from_id, to_id, &points) {
                Err(e) => Err(e),
                Ok((deleted, new, updated)) => {
                    proof {
                        let (doomed, fresh, changed) = choose|
                            doomed: Seq<PointId>,
                            fresh: Seq<PointId>,
                            changed: Seq<PointId>,
                        | #[trigger]
                            counted(
                                doomed,
                                fresh,
                                changed,
                                before@,
                                points@,
                                from_id,
                                to_id,
                                op_num,
                            ) && deleted == doomed.len() && new == fresh.len() && updated
                                == changed.len();
                        assert(counted(
                            doomed,
                            fresh,
                            changed,
                            before@,
                            points@,
                            from_id,
                            to_id,
                            op_num,
                        ));
                        assert(deleted == doomed.len() && new == fresh.len() && updated
                            == changed.len());
                    }
                    match deleted.checked_add(new) {
                        None => Err(
                            CollectionError::service_error(
                                "The number of synchronised points is too large".to_string(),
                            ),
                        ),
                        Some(sum) => match sum.checked_add(updated) {
                            None => Err(
                                CollectionError::service_error(
                                    "The number of synchronised points is too large".to_string(),
                                ),
                            ),
                            Some(total) => Ok(total),
                        },
                    }
                },
            }
        },
    }
}

/// Applies an operation on payloads to the segments. `matches` says whether
/// a stored point passes an encoded filter.
///
/// Returns the number of points that were written, and fails as
/// [`set_payload`] and [`clear_payload_by_filter`] do.
pub fn process_payload_operation<F: Fn(&Vec<u8>, &PointId, &StoredPoint) -> bool>(
    holder: &mut SegmentHolder,
    op_num: SeqNumberType,
    payload_operation: crate::operations::PayloadOps,
    matches: F,
) -> (r: Result<usize, CollectionError>)
    requires
        old(holder).wf(),
        forall|filter: &Vec<u8>, id: &PointId, point: &StoredPoint|
            call_requires(matches, (filter, id, point)),
    ensures
        final(holder).wf(),
        same_shape(old(holder).segments@, final(holder).segments@),
        final(holder)@.dom() == old(holder)@.dom(),
        match payload_operation {
            crate::operations::PayloadOps::SetPayload { payload, points } => edited_points(
                old(holder),
                final(holder),
                r,
                points@,
                PointEdit::SetPayload(&payload),
                op_num,
            ),
            crate::operations::PayloadOps::DeletePayload { keys, points } => edited_points(
                old(holder),
                final(holder),
                r,
                points@,
                PointEdit::DeletePayload(&keys),
                op_num,
            ),
            crate::operations::PayloadOps::ClearPayload { points } => edited_points(
                old(holder),
                final(holder),
                r,
                points@,
                PointEdit::ClearPayload,
                op_num,
            ),
            crate::operations::PayloadOps::ClearPayloadByFilter(filter) => {
                &&& r is Ok || is_service_error(r, no_appendable_segment())
                &&& r is Err ==> final(holder)@ == old(holder)@ && !has_appendable(old(holder))
                &&& r is Ok ==> forall|id: PointId| #[trigger]
                    final(holder)@.dom().contains(id) ==> (final(holder)@[id] == old(holder)@[id]
                        && (call_ensures(matches, (&filter, &id, &old(holder)@[id]), false)
                        || !applies(old(holder)@, id, op_num))) || (is_edited(
                        old(holder)@[id],
                        final(holder)@[id],
                        PointEdit::ClearPayload,
                        op_num,
                    ) && call_ensures(matches, (&filter, &id, &old(holder)@[id]), true))
            },
        },
{
    match payload_operation {
        crate::operations::PayloadOps::SetPayload { payload, points } => set_payload(
            holder,
            op_num,
            &payload,
            &points,
        ),
        crate::operations::PayloadOps::DeletePayload { keys, points } => delete_payload(
            holder,
            op_num,
            &points,
            &keys,
        ),
        crate::operations::PayloadOps::ClearPayload { points } => clear_payload(
            holder,
            op_num,
            &points,
        ),
        crate::operations::PayloadOps::ClearPayloadByFilter(filter) => {
            let decide = &matches;
            let pick = |id: &PointId, point: &StoredPoint| -> (b: bool)
                requires
                    call_requires(decide, (&filter, id, point)),
                ensures
                    call_ensures(decide, (&filter, id, point), b),
                { decide(&filter, id, point) };
            let ghost before = *holder;
            let r = clear_payload_by_filter(holder, op_num, pick);
            proof {
                let picked = choose|picked: Seq<PointId>|
                    {
                        &&& #[trigger] picked.no_duplicates()
                        &&& forall|id: PointId| #[trigger]
                            picked.contains(id) ==> before@.dom().contains(id) && call_ensures(
                                pick,
                                (&id, &before@[id]),
                                true,
                            )
                        &&& forall|id: PointId|
                            before@.dom().contains(id) && !(#[trigger] picked.contains(id))
                                ==> call_ensures(pick, (&id, &before@[id]), false)
                        &&& if has_appendable(&before) || written(picked, before@, op_num).len()
                            == 0 {
                            &&& is_count(r, written(picked, before@, op_num).len() as int)
                            &&& forall|id: PointId| #[trigger]
                                holder@.dom().contains(id) ==> (if written(
                                    picked,
                                    before@,
                                    op_num,
                                ).contains(id) {
                                    is_edited(
                                        before@[id],
                                        holder@[id],
                                        PointEdit::ClearPayload,
                                        op_num,
                                    )
                                } else {
                                    holder@[id] == before@[id]
                                })
                        } else {
                            is_service_error(r, no_appendable_segment()) && holder@
                                == before@
                        }
                    };
                lemma_written(picked, before@, op_num);
                if r is Ok {
                    assert forall|id: PointId| #[trigger]
                        holder@.dom().contains(id) implies (holder@[id] == before@[id] && (
                    call_ensures(matches, (&filter, &id, &before@[id]), false) || !applies(
                        before@,
                        id,
                        op_num,
                    ))) || (is_edited(before@[id], holder@[id], PointEdit::ClearPayload, op_num)
                        && call_ensures(matches, (&filter, &id, &before@[id]), true)) by {
                        if !picked.contains(id) {
                            assert(call_ensures(pick, (&id, &before@[id]), false));
                        }
                    }
                }
            }
            r
        },
    }
}

/// Applies an operation on field indexes to the segments. Returns the
/// number of segments that changed.
pub fn process_field_index_operation(
    holder: &mut SegmentHolder,
    op_num: SeqNumberType,
    field_index_operation: &crate::operations::FieldIndexOperations,
) -> (r: Result<usize, CollectionError>)
    requires
        old(holder).wf(),
    ensures
        final(holder).wf(),
        final(holder)@ == old(holder)@,
        final(holder).segments@.len() == old(holder).segments@.len(),
        r is Ok,
        forall|i: int|
            0 <= i < final(holder).segments@.len() ==> {
                let before = old(holder).segments@[i];
                let after = #[trigger] final(holder).segments@[i];
                &&& after.appendable == before.appendable
                &&& after.points == before.points
                &&& texts_of(after.indexed_fields@) == (match field_index_operation {
                    crate::operations::FieldIndexOperations::CreateIndex { field_name, .. } => if texts_of(
                        before.indexed_fields@,
                    ).contains(field_name@) {
                        texts_of(before.indexed_fields@)
                    } else {
                        texts_of(before.indexed_fields@).push(field_name@)
                    },
                    crate::operations::FieldIndexOperations::DeleteIndex(field_name) => texts_of(
                        before.indexed_fields@,
                    ).filter(|name: Seq<char>| name != field_name@),
                })
            },
{
    match field_index_operation {
        crate::operations::FieldIndexOperations::CreateIndex { field_name, .. } => {
            create_field_index(holder, op_num, field_name)
        },
        crate::operations::FieldIndexOperations::DeleteIndex(field_name) => delete_field_index(
            holder,
            op_num,
            field_name,
        ),
    }
}

} // verus!
