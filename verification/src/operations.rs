//! The update operations of a collection.
//!
//! The routing and dispatch logic reads the ids of the points that an
//! operation names. What a point carries is held as plain data and handed on
//! untouched: a vector as the bit patterns of its elements, a payload as its
//! fields with their encoded values, a filter or a field schema as their
//! encoded bytes.

use vstd::prelude::*;
use crate::types::{is_bad_request, CollectionError, PointId};

verus! {

/// The bit patterns of the elements of a vector.
pub type VectorBits = Vec<u32>;

/// A field of a payload: its key and its encoded value.
pub struct PayloadField {
    pub key: String,
    pub value: Vec<u8>,
}

/// A payload: its fields, no key twice. The empty payload has no field.
pub type Payload = Vec<PayloadField>;

/// An encoded filter.
pub type Filter = Vec<u8>;

/// A point with all it carries.
pub struct PointStruct {
    pub id: PointId,
    pub vector: VectorBits,
    pub payload: Option<Payload>,
}

/// Points given column by column: the ids, their vectors and, if any, their
/// payloads.
pub struct Batch {
    pub ids: Vec<PointId>,
    pub vectors: Vec<VectorBits>,
    pub payloads: Option<Vec<Option<Payload>>>,
}

/// The two ways to name the points of an upsert.
pub enum PointInsertOperations {
    PointsBatch(Batch),
    PointsList(Vec<PointStruct>),
}

/// Operations on points.
pub enum PointOperations {
    UpsertPoints(PointInsertOperations),
    DeletePoints { ids: Vec<PointId> },
    DeletePointsByFilter(Filter),
    SyncPoints { from_id: Option<PointId>, to_id: Option<PointId>, points: Vec<PointStruct> },
}

/// Operations on payloads.
pub enum PayloadOps {
    SetPayload { payload: Payload, points: Vec<PointId> },
    DeletePayload { keys: Vec<String>, points: Vec<PointId> },
    ClearPayload { points: Vec<PointId> },
    ClearPayloadByFilter(Filter),
}

/// Operations on field indexes.
pub enum FieldIndexOperations {
    CreateIndex { field_name: String, field_schema: Option<Vec<u8>> },
    DeleteIndex(String),
}

/// An update of a collection.
pub enum CollectionUpdateOperations {
    PointOperation(PointOperations),
    PayloadOperation(PayloadOps),
    FieldIndexOperation(FieldIndexOperations),
}

impl Batch {
    /// Every id has a vector and, where payloads are given, a payload entry.
    pub open spec fn is_valid(&self) -> bool {
        self.ids@.len() == self.vectors@.len() && (match self.payloads {
            Some(payloads) => payloads@.len() == self.ids@.len(),
            None => true,
        })
    }

    /// What is wrong with a batch that is not valid: the first column that
    /// is not as long as the ids.
    pub open spec fn fault(&self) -> Seq<char> {
        if self.ids@.len() != self.vectors@.len() {
            "Amount of ids and vectors does not match"@
        } else {
            "Amount of ids and payloads does not match"@
        }
    }

    /// Checks that the columns have one length.
    pub fn validate(&self) -> (r: Result<(), CollectionError>)
        ensures
            self.is_valid() ==> r is Ok,
            !self.is_valid() ==> is_bad_request(r, self.fault()),
    {
        if self.ids.len() != self.vectors.len() {
            return Err(
                CollectionError::BadRequest {
                    description: "Amount of ids and vectors does not match".to_string(),
                },
            );
        }
        match &self.payloads {
            Some(payloads) => {
                if payloads.len() != self.ids.len() {
                    return Err(
                        CollectionError::BadRequest {
                            description: "Amount of ids and payloads does not match".to_string(),
                        },
                    );
                }
            },
            None => {},
        }
        Ok(())
    }

    /// The point at row `i` of a valid batch.
    pub open spec fn row(&self, i: int) -> PointStruct {
        PointStruct {
            id: self.ids@[i],
            vector: self.vectors@[i],
            payload: match self.payloads {
                Some(payloads) => payloads@[i],
                None => None,
            },
        }
    }

    /// The points of the batch, row by row.
    pub fn into_points(self) -> (points: Vec<PointStruct>)
        requires
            self.is_valid(),
        ensures
            points@.len() == self.ids@.len(),
            forall|i: int| 0 <= i < points@.len() ==> #[trigger] points@[i] == self.row(i),
    {
        let Batch { ids, vectors, payloads } = self;
        let ghost all_vectors = vectors@;
        let n = ids.len();
        let mut vectors = vectors;
        let mut reversed: Vec<PointStruct> = Vec::new();
        match payloads {
            Some(payloads) => {
                let ghost all_payloads = payloads@;
                let mut payloads = payloads;
                let mut left: usize = n;
                while left > 0
                    invariant
                        left <= n,
                        n == ids@.len(),
                        vectors@ == all_vectors.take(left as int),
                        payloads@ == all_payloads.take(left as int),
                        all_vectors.len() == n,
                        all_payloads.len() == n,
                        reversed@.len() == n - left,
                        forall|k: int|
                            0 <= k < reversed@.len() ==> #[trigger] reversed@[k] == (PointStruct {
                                id: ids@[n - 1 - k],
                                vector: all_vectors[n - 1 - k],
                                payload: all_payloads[n - 1 - k],
                            }),
                    decreases left,
                {
                    let vector = vectors.pop().unwrap();
                    let payload = payloads.pop().unwrap();
                    left -= 1;
                    reversed.push(PointStruct { id: ids[left], vector, payload });
                }
            },
            None => {
                let mut left: usize = n;
                while left > 0
                    invariant
                        left <= n,
                        n == ids@.len(),
                        vectors@ == all_vectors.take(left as int),
                        all_vectors.len() == n,
                        reversed@.len() == n - left,
                        forall|k: int|
                            0 <= k < reversed@.len() ==> #[trigger] reversed@[k] == (PointStruct {
                                id: ids@[n - 1 - k],
                                vector: all_vectors[n - 1 - k],
                                payload: None,
                            }),
                    decreases left,
                {
                    let vector = vectors.pop().unwrap();
                    left -= 1;
                    reversed.push(PointStruct { id: ids[left], vector, payload: None });
                }
            },
        }
        let points = reverse(reversed);
        points
    }
}

/// The elements of `items` in reverse order.
pub fn reverse<T>(items: Vec<T>) -> (reversed: Vec<T>)
    ensures
        reversed@.len() == items@.len(),
        forall|i: int|
            0 <= i < reversed@.len() ==> #[trigger] reversed@[i] == items@[items@.len() - 1 - i],
{
    let ghost all = items@;
    let mut rest = items;
    let mut reversed: Vec<T> = Vec::new();
    while rest.len() > 0
        invariant
            rest@ == all.take(rest@.len() as int),
            rest@.len() <= all.len(),
            reversed@.len() == all.len() - rest@.len(),
            forall|i: int|
                0 <= i < reversed@.len() ==> #[trigger] reversed@[i] == all[all.len() - 1 - i],
        decreases rest@.len(),
    {
        let item = rest.pop().unwrap();
        reversed.push(item);
    }
    reversed
}

impl PointInsertOperations {
    /// The ids of the points, in order.
    pub open spec fn point_ids(&self) -> Seq<PointId> {
        match self {
            PointInsertOperations::PointsBatch(batch) => batch.ids@,
            PointInsertOperations::PointsList(points) => points@.map_values(
                |p: PointStruct| p.id,
            ),
        }
    }

    /// True when the points are well formed.
    pub open spec fn is_valid(&self) -> bool {
        match self {
            PointInsertOperations::PointsBatch(batch) => batch.is_valid(),
            PointInsertOperations::PointsList(_) => true,
        }
    }

    /// What is wrong with points that are not well formed.
    pub open spec fn fault(&self) -> Seq<char> {
        match self {
            PointInsertOperations::PointsBatch(batch) => batch.fault(),
            PointInsertOperations::PointsList(_) => Seq::empty(),
        }
    }

    /// The points as a list.
    pub fn into_points(self) -> (points: Vec<PointStruct>)
        requires
            self.is_valid(),
        ensures
            points@.map_values(|p: PointStruct| p.id) == self.point_ids(),
            match self {
                PointInsertOperations::PointsBatch(batch) => points@.len() == batch.ids@.len()
                    && forall|i: int|
                    0 <= i < points@.len() ==> #[trigger] points@[i] == batch.row(i),
                PointInsertOperations::PointsList(list) => points == list,
            },
    {
        match self {
            PointInsertOperations::PointsBatch(batch) => {
                let ghost ids = batch.ids@;
                let points = batch.into_points();
                assert(points@.map_values(|p: PointStruct| p.id) =~= ids);
                points
            },
            PointInsertOperations::PointsList(list) => list,
        }
    }
}

impl CollectionUpdateOperations {
    /// True when the operation is well formed.
    pub open spec fn is_valid(&self) -> bool {
        match self {
            CollectionUpdateOperations::PointOperation(PointOperations::UpsertPoints(insert)) =>
                insert.is_valid(),
            _ => true,
        }
    }

    /// What is wrong with an operation that is not well formed.
    pub open spec fn fault(&self) -> Seq<char> {
        match self {
            CollectionUpdateOperations::PointOperation(PointOperations::UpsertPoints(insert)) =>
                insert.fault(),
            _ => Seq::empty(),
        }
    }

    /// Checks that the operation is well formed: the columns of a batch have
    /// one length.
    pub fn validate(&self) -> (r: Result<(), CollectionError>)
        ensures
            self.is_valid() ==> r is Ok,
            !self.is_valid() ==> is_bad_request(r, self.fault()),
    {
        match self {
            CollectionUpdateOperations::PointOperation(
                PointOperations::UpsertPoints(PointInsertOperations::PointsBatch(batch)),
            ) => batch.validate(),
            _ => Ok(()),
        }
    }
}

/// A copy of `bytes`.
pub fn copy_bytes(bytes: &Vec<u8>) -> (copy: Vec<u8>)
    ensures
        copy@ == bytes@,
{
    let mut copy: Vec<u8> = Vec::new();
    let mut i: usize = 0;
    while i < bytes.len()
        invariant
            i <= bytes.len(),
            copy@ == bytes@.take(i as int),
        decreases bytes.len() - i,
    {
        copy.push(bytes[i]);
        assert(bytes@.take(i + 1) == bytes@.take(i as int).push(bytes@[i as int]));
        i += 1;
    }
    assert(bytes@.take(i as int) == bytes@);
    copy
}

/// A copy of `bits`.
pub fn copy_bits(bits: &Vec<u32>) -> (copy: Vec<u32>)
    ensures
        copy@ == bits@,
{
    let mut copy: Vec<u32> = Vec::new();
    let mut i: usize = 0;
    while i < bits.len()
        invariant
            i <= bits.len(),
            copy@ == bits@.take(i as int),
        decreases bits.len() - i,
    {
        copy.push(bits[i]);
        assert(bits@.take(i + 1) == bits@.take(i as int).push(bits@[i as int]));
        i += 1;
    }
    assert(bits@.take(i as int) == bits@);
    copy
}

/// A copy of `ids`.
pub fn copy_ids(ids: &Vec<PointId>) -> (copy: Vec<PointId>)
    ensures
        copy@ == ids@,
{
    let mut copy: Vec<PointId> = Vec::new();
    let mut i: usize = 0;
    while i < ids.len()
        invariant
            i <= ids.len(),
            copy@ == ids@.take(i as int),
        decreases ids.len() - i,
    {
        copy.push(ids[i]);
        assert(ids@.take(i + 1) == ids@.take(i as int).push(ids@[i as int]));
        i += 1;
    }
    assert(ids@.take(i as int) == ids@);
    copy
}

/// Two lists of texts with the same texts.
pub open spec fn same_texts(a: Seq<String>, b: Seq<String>) -> bool {
    a.len() == b.len() && forall|i: int| 0 <= i < a.len() ==> (#[trigger] a[i])@ == b[i]@
}

/// A copy of `texts`.
pub fn copy_texts(texts: &Vec<String>) -> (copy: Vec<String>)
    ensures
        same_texts(copy@, texts@),
{
    let mut copy: Vec<String> = Vec::new();
    let mut i: usize = 0;
    while i < texts.len()
        invariant
            i <= texts.len(),
            copy@.len() == i,
            forall|j: int| 0 <= j < i ==> (#[trigger] copy@[j])@ == texts@[j]@,
        decreases texts.len() - i,
    {
        copy.push(texts[i].clone());
        i += 1;
    }
    copy
}

/// Two payloads with the same fields: the same keys with the same values, in
/// the same order.
pub open spec fn same_payload(a: Seq<PayloadField>, b: Seq<PayloadField>) -> bool {
    a.len() == b.len() && forall|i: int|
        0 <= i < a.len() ==> (#[trigger] a[i]).key@ == b[i].key@ && a[i].value@ == b[i].value@
}

/// Two optional payloads with the same fields.
pub open spec fn same_optional_payload(a: Option<Payload>, b: Option<Payload>) -> bool {
    match (a, b) {
        (Some(x), Some(y)) => same_payload(x@, y@),
        (None, None) => true,
        _ => false,
    }
}

/// A copy of `payload`.
pub fn copy_payload(payload: &Payload) -> (copy: Payload)
    ensures
        same_payload(copy@, payload@),
{
    let mut copy: Payload = Vec::new();
    let mut i: usize = 0;
    while i < payload.len()
        invariant
            i <= payload.len(),
            copy@.len() == i,
            forall|j: int|
                0 <= j < i ==> (#[trigger] copy@[j]).key@ == payload@[j].key@ && copy@[j].value@
                    == payload@[j].value@,
        decreases payload.len() - i,
    {
        copy.push(
            PayloadField { key: payload[i].key.clone(), value: copy_bytes(&payload[i].value) },
        );
        i += 1;
    }
    copy
}

/// A copy of an optional payload.
pub fn copy_optional_payload(payload: &Option<Payload>) -> (copy: Option<Payload>)
    ensures
        same_optional_payload(copy, *payload),
{
    match payload {
        Some(p) => Some(copy_payload(p)),
        None => None,
    }
}

/// Two optional sequences of bytes with the same bytes.
pub open spec fn same_bytes(a: Option<Vec<u8>>, b: Option<Vec<u8>>) -> bool {
    match (a, b) {
        (Some(x), Some(y)) => x@ == y@,
        (None, None) => true,
        _ => false,
    }
}

/// A copy of optional bytes.
pub fn copy_optional_bytes(bytes: &Option<Vec<u8>>) -> (copy: Option<Vec<u8>>)
    ensures
        same_bytes(copy, *bytes),
{
    match bytes {
        Some(b) => Some(copy_bytes(b)),
        None => None,
    }
}

impl PointStruct {
    /// True when `other` has the same id and carries the same data.
    pub open spec fn same(&self, other: &PointStruct) -> bool {
        self.id == other.id && self.vector@ == other.vector@ && same_optional_payload(
            self.payload,
            other.payload,
        )
    }

    /// A copy of the point.
    pub fn duplicate(&self) -> (copy: PointStruct)
        ensures
            copy.same(self),
    {
        PointStruct {
            id: self.id,
            vector: copy_bits(&self.vector),
            payload: copy_optional_payload(&self.payload),
        }
    }
}

/// Two lists of points that agree point by point.
pub open spec fn same_points(a: Seq<PointStruct>, b: Seq<PointStruct>) -> bool {
    a.len() == b.len() && forall|i: int| 0 <= i < a.len() ==> (#[trigger] a[i]).same(&b[i])
}

/// A copy of `points`.
pub fn copy_points(points: &Vec<PointStruct>) -> (copy: Vec<PointStruct>)
    ensures
        same_points(copy@, points@),
{
    let mut copy: Vec<PointStruct> = Vec::new();
    let mut i: usize = 0;
    while i < points.len()
        invariant
            i <= points.len(),
            copy@.len() == i,
            forall|j: int| 0 <= j < i ==> (#[trigger] copy@[j]).same(&points@[j]),
        decreases points.len() - i,
    {
        copy.push(points[i].duplicate());
        i += 1;
    }
    copy
}

impl CollectionUpdateOperations {
    /// True when `other` is the same operation: the same kind, the same
    /// points in the same order, the same data.
    pub open spec fn same(&self, other: &CollectionUpdateOperations) -> bool {
        match (*self, *other) {
            (
                CollectionUpdateOperations::PointOperation(a),
                CollectionUpdateOperations::PointOperation(b),
            ) => match (a, b) {
                (
                    PointOperations::UpsertPoints(PointInsertOperations::PointsList(x)),
                    PointOperations::UpsertPoints(PointInsertOperations::PointsList(y)),
                ) => same_points(x@, y@),
                (
                    PointOperations::UpsertPoints(PointInsertOperations::PointsBatch(x)),
                    PointOperations::UpsertPoints(PointInsertOperations::PointsBatch(y)),
                ) => {
                    &&& x.ids@ == y.ids@
                    &&& x.vectors@.len() == y.vectors@.len()
                    &&& forall|i: int|
                        0 <= i < x.vectors@.len() ==> (#[trigger] x.vectors@[i])@ == y.vectors@[i]@
                    &&& match (x.payloads, y.payloads) {
                        (Some(p), Some(q)) => p@.len() == q@.len() && forall|i: int|
                            0 <= i < p@.len() ==> same_optional_payload(#[trigger] p@[i], q@[i]),
                        (None, None) => true,
                        _ => false,
                    }
                },
                (
                    PointOperations::DeletePoints { ids: x },
                    PointOperations::DeletePoints { ids: y },
                ) => x@ == y@,
                (
                    PointOperations::DeletePointsByFilter(x),
                    PointOperations::DeletePointsByFilter(y),
                ) => x@ == y@,
                (
                    PointOperations::SyncPoints { from_id: f1, to_id: t1, points: x },
                    PointOperations::SyncPoints { from_id: f2, to_id: t2, points: y },
                ) => f1 == f2 && t1 == t2 && same_points(x@, y@),
                _ => false,
            },
            (
                CollectionUpdateOperations::PayloadOperation(a),
                CollectionUpdateOperations::PayloadOperation(b),
            ) => match (a, b) {
                (
                    PayloadOps::SetPayload { payload: pa, points: x },
                    PayloadOps::SetPayload { payload: pb, points: y },
                ) => same_payload(pa@, pb@) && x@ == y@,
                (
                    PayloadOps::DeletePayload { keys: k1, points: x },
                    PayloadOps::DeletePayload { keys: k2, points: y },
                ) => same_texts(k1@, k2@) && x@ == y@,
                (
                    PayloadOps::ClearPayload { points: x },
                    PayloadOps::ClearPayload { points: y },
                ) => x@ == y@,
                (PayloadOps::ClearPayloadByFilter(x), PayloadOps::ClearPayloadByFilter(y)) => x@
                    == y@,
                _ => false,
            },
            (
                CollectionUpdateOperations::FieldIndexOperation(a),
                CollectionUpdateOperations::FieldIndexOperation(b),
            ) => match (a, b) {
                (
                    FieldIndexOperations::CreateIndex { field_name: n1, field_schema: sa },
                    FieldIndexOperations::CreateIndex { field_name: n2, field_schema: sb },
                ) => n1@ == n2@ && same_bytes(sa, sb),
                (FieldIndexOperations::DeleteIndex(n1), FieldIndexOperations::DeleteIndex(n2)) =>
                    n1@ == n2@,
                _ => false,
            },
            _ => false,
        }
    }

    /// A copy of the operation.
    pub fn duplicate(&self) -> (copy: CollectionUpdateOperations)
        ensures
            copy.same(self),
    {
        match self {
            CollectionUpdateOperations::PointOperation(op) => {
                CollectionUpdateOperations::PointOperation(
                    match op {
                        PointOperations::UpsertPoints(PointInsertOperations::PointsList(points)) => {
                            PointOperations::UpsertPoints(
                                PointInsertOperations::PointsList(copy_points(points)),
                            )
                        },
                        PointOperations::UpsertPoints(PointInsertOperations::PointsBatch(batch)) => {
                            let mut vectors: Vec<VectorBits> = Vec::new();
                            let mut i: usize = 0;
                            while i < batch.vectors.len()
                                invariant
                                    i <= batch.vectors.len(),
                                    vectors@.len() == i,
                                    forall|j: int|
                                        0 <= j < i ==> (#[trigger] vectors@[j])@
                                            == batch.vectors@[j]@,
                                decreases batch.vectors.len() - i,
                            {
                                vectors.push(copy_bits(&batch.vectors[i]));
                                i += 1;
                            }
                            let payloads = match &batch.payloads {
                                Some(all) => {
                                    let mut payloads: Vec<Option<Payload>> = Vec::new();
                                    let mut k: usize = 0;
                                    while k < all.len()
                                        invariant
                                            k <= all.len(),
                                            payloads@.len() == k,
                                            forall|j: int|
                                                0 <= j < k ==> same_optional_payload(
                                                    #[trigger] payloads@[j],
                                                    all@[j],
                                                ),
                                        decreases all.len() - k,
                                    {
                                        payloads.push(copy_optional_payload(&all[k]));
                                        k += 1;
                                    }
                                    Some(payloads)
                                },
                                None => None,
                            };
                            PointOperations::UpsertPoints(
                                PointInsertOperations::PointsBatch(
                                    Batch { ids: copy_ids(&batch.ids), vectors, payloads },
                                ),
                            )
                        },
                        PointOperations::DeletePoints { ids } => PointOperations::DeletePoints {
                            ids: copy_ids(ids),
                        },
                        PointOperations::DeletePointsByFilter(filter) => {
                            PointOperations::DeletePointsByFilter(copy_bytes(filter))
                        },
                        PointOperations::SyncPoints { from_id, to_id, points } => {
                            PointOperations::SyncPoints {
                                from_id: *from_id,
                                to_id: *to_id,
                                points: copy_points(points),
                            }
                        },
                    },
                )
            },
            CollectionUpdateOperations::PayloadOperation(op) => {
                CollectionUpdateOperations::PayloadOperation(
                    match op {
                        PayloadOps::SetPayload { payload, points } => PayloadOps::SetPayload {
                            payload: copy_payload(payload),
                            points: copy_ids(points),
                        },
                        PayloadOps::DeletePayload { keys, points } => PayloadOps::DeletePayload {
                            keys: copy_texts(keys),
                            points: copy_ids(points),
                        },
                        PayloadOps::ClearPayload { points } => PayloadOps::ClearPayload {
                            points: copy_ids(points),
                        },
                        PayloadOps::ClearPayloadByFilter(filter) => {
                            PayloadOps::ClearPayloadByFilter(copy_bytes(filter))
                        },
                    },
                )
            },
            CollectionUpdateOperations::FieldIndexOperation(op) => {
                CollectionUpdateOperations::FieldIndexOperation(
                    match op {
                        FieldIndexOperations::CreateIndex { field_name, field_schema } => {
                            FieldIndexOperations::CreateIndex {
                                field_name: field_name.clone(),
                                field_schema: copy_optional_bytes(field_schema),
                            }
                        },
                        FieldIndexOperations::DeleteIndex(field_name) => {
                            FieldIndexOperations::DeleteIndex(field_name.clone())
                        },
                    },
                )
            },
        }
    }
}

} // verus!
