//! Recommendation: a search around the average of vectors that are already
//! stored.
//!
//! The reference points are read first. The search then runs on a target
//! vector that the caller computes from the vectors of the reference points,
//! and leaves the reference points themselves out of the result.

use vstd::prelude::*;
use crate::operations::{copy_bits, copy_bytes, copy_ids, Filter, VectorBits};
use crate::search::{Score, SearchFilter, SearchRequest, WithPayloadInterface, WithVector};
use crate::types::{is_bad_request, CollectionError, PointId};

verus! {

/// The name of the vector that is used when none is named.
pub open spec fn default_vector_name() -> Seq<char> {
    ""@
}

/// A request for the points nearest to some stored points and farthest from
/// others.
pub struct RecommendRequest {
    pub positive: Vec<PointId>,
    pub negative: Vec<PointId>,
    pub filter: Option<Filter>,
    /// Encoded search parameters.
    pub params: Option<Vec<u8>>,
    pub limit: usize,
    pub offset: usize,
    pub with_payload: Option<WithPayloadInterface>,
    pub with_vector: Option<WithVector>,
    pub score_threshold: Option<Score>,
    /// The name of the vector to use; the default vector when `None`.
    pub using: Option<String>,
}

/// A vector with its name.
pub struct NamedVector {
    pub name: String,
    pub vector: VectorBits,
}

/// A stored point with its vectors.
pub struct VectorRecord {
    pub id: PointId,
    pub vectors: Vec<NamedVector>,
}

/// The vectors of the reference points of one request.
pub struct ReferenceVectors {
    /// The name of the vector that the request uses.
    pub vector_name: String,
    /// The vectors of the positive points, in the order of the request.
    pub positive: Vec<VectorBits>,
    /// The vectors of the negative points, in the order of the request.
    pub negative: Vec<VectorBits>,
}

impl RecommendRequest {
    /// The reference points: the positive ones, then the negative ones.
    pub open spec fn reference(&self) -> Seq<PointId> {
        self.positive@ + self.negative@
    }

    /// The name of the vector that the request uses.
    pub open spec fn vector_name(&self) -> Seq<char> {
        match self.using {
            Some(name) => name@,
            None => default_vector_name(),
        }
    }
}

/// Index of the first request without a positive point, or the number of
/// requests when each has one.
pub open spec fn first_without_positive(requests: Seq<RecommendRequest>) -> int
    decreases requests.len(),
{
    if requests.len() == 0 {
        0
    } else if requests[0].positive@.len() == 0 {
        0
    } else {
        1 + first_without_positive(requests.skip(1))
    }
}

/// All reference points of `requests`, request by request.
pub open spec fn all_reference(requests: Seq<RecommendRequest>) -> Seq<PointId>
    decreases requests.len(),
{
    if requests.len() == 0 {
        Seq::empty()
    } else {
        all_reference(requests.drop_last()) + requests.last().reference()
    }
}

/// The ids of `ids`, each once, in the order in which they first come.
pub open spec fn distinct(ids: Seq<PointId>) -> Seq<PointId>
    decreases ids.len(),
{
    if ids.len() == 0 {
        Seq::empty()
    } else {
        let before = distinct(ids.drop_last());
        if before.contains(ids.last()) {
            before
        } else {
            before.push(ids.last())
        }
    }
}

/// `distinct` holds each id of `ids` once, and nothing else.
pub proof fn lemma_distinct(ids: Seq<PointId>)
    ensures
        distinct(ids).no_duplicates(),
        forall|id: PointId| distinct(ids).contains(id) <==> ids.contains(id),
    decreases ids.len(),
{
    if ids.len() > 0 {
        let rest = ids.drop_last();
        let last = ids.last();
        lemma_distinct(rest);
        let before = distinct(rest);
        assert forall|id: PointId| distinct(ids).contains(id) <==> ids.contains(id) by {
            if ids.contains(id) {
                let i = choose|i: int| 0 <= i < ids.len() && ids[i] == id;
                if i < rest.len() {
                    assert(rest[i] == id);
                    assert(rest.contains(id));
                    assert(before.contains(id));
                    let k = choose|k: int| 0 <= k < before.len() && before[k] == id;
                    assert(distinct(ids)[k] == id);
                } else {
                    if !before.contains(last) {
                        assert(distinct(ids)[before.len() as int] == id);
                    }
                }
            }
            if distinct(ids).contains(id) {
                let k = choose|k: int| 0 <= k < distinct(ids).len() && distinct(ids)[k] == id;
                if k < before.len() {
                    assert(before[k] == id);
                    assert(before.contains(id));
                    assert(rest.contains(id));
                    let i = choose|i: int| 0 <= i < rest.len() && rest[i] == id;
                    assert(ids[i] == id);
                } else {
                    assert(ids[ids.len() - 1] == id);
                }
            }
        }
    }
}

/// Adds the ids of `ids` that `seen` does not hold yet.
fn add_distinct(seen: &mut Vec<PointId>, ids: &Vec<PointId>, Ghost(before): Ghost<Seq<PointId>>)
    requires
        old(seen)@ == distinct(before),
    ensures
        final(seen)@ == distinct(before + ids@),
{
    let mut i: usize = 0;
    while i < ids.len()
        invariant
            i <= ids.len(),
            seen@ == distinct(before + ids@.take(i as int)),
        decreases ids.len() - i,
    {
        let id = ids[i];
        proof {
            assert((before + ids@.take(i + 1)).drop_last() == before + ids@.take(i as int));
            assert((before + ids@.take(i + 1)).last() == id);
        }
        let mut found = false;
        let mut k: usize = 0;
        while k < seen.len() && !found
            invariant
                k <= seen.len(),
                found ==> seen@.contains(id),
                !found ==> forall|j: int| 0 <= j < k ==> seen@[j] != id,
            decreases seen.len() - k + (if found { 0int } else { 1int }),
        {
            if seen[k] == id {
                found = true;
            } else {
                k += 1;
            }
        }
        if !found {
            seen.push(id);
        }
        i += 1;
    }
    assert(ids@.take(i as int) == ids@);
}

/// The points whose vectors a batch of recommendations needs: every
/// positive and negative point of every request, each once, in the order
/// in which they first come.
///
/// Fails with `BadRequest` when a request names no positive point.
pub fn reference_ids(requests: &Vec<RecommendRequest>) -> (r: Result<Vec<PointId>, CollectionError>)
    ensures
        first_without_positive(requests@) < requests@.len() ==> is_bad_request(
            r,
            "At least one positive vector ID required"@,
        ),
        first_without_positive(requests@) >= requests@.len() ==> r is Ok && r->Ok_0@ == distinct(
            all_reference(requests@),
        ),
{
    let mut i: usize = 0;
    assert(requests@.skip(0) == requests@);
    while i < requests.len()
        invariant
            i <= requests.len(),
            first_without_positive(requests@) == i + first_without_positive(
                requests@.skip(i as int),
            ),
        decreases requests.len() - i,
    {
        proof {
            assert(requests@.skip(i as int).skip(1) == requests@.skip(i + 1));
        }
        if requests[i].positive.len() == 0 {
            return Err(
                CollectionError::BadRequest {
                    description: "At least one positive vector ID required".to_string(),
                },
            );
        }
        i += 1;
    }
    let mut ids: Vec<PointId> = Vec::new();
    let mut n: usize = 0;
    while n < requests.len()
        invariant
            n <= requests.len(),
            ids@ == distinct(all_reference(requests@.take(n as int))),
        decreases requests.len() - n,
    {
        proof {
            assert(requests@.take(n + 1).drop_last() == requests@.take(n as int));
            assert(requests@.take(n + 1).last() == requests@[n as int]);
        }
        let ghost before = all_reference(requests@.take(n as int));
        add_distinct(&mut ids, &requests[n].positive, Ghost(before));
        add_distinct(&mut ids, &requests[n].negative, Ghost(before + requests@[n as int].positive@));
        proof {
            assert(before + requests@[n as int].positive@ + requests@[n as int].negative@ == before
                + requests@[n as int].reference());
        }
        n += 1;
    }
    assert(requests@.take(n as int) == requests@);
    Ok(ids)
}

/// Index of the first vector of `vectors` named `name`, or their number
/// when none has the name.
pub open spec fn named(vectors: Seq<NamedVector>, name: Seq<char>) -> int
    decreases vectors.len(),
{
    if vectors.len() == 0 {
        0
    } else if vectors[0].name@ == name {
        0
    } else {
        1 + named(vectors.skip(1), name)
    }
}

/// True when the record has a vector named `name`.
pub open spec fn has_vector(record: VectorRecord, name: Seq<char>) -> bool {
    named(record.vectors@, name) < record.vectors@.len()
}

/// The vector of the record that is named `name`.
pub open spec fn vector_of(record: VectorRecord, name: Seq<char>) -> Seq<u32> {
    record.vectors@[named(record.vectors@, name)].vector@
}

/// Index of the last record of `records` for `id`, or -1 when there is none.
pub open spec fn holder_of(records: Seq<VectorRecord>, id: PointId) -> int
    decreases records.len(),
{
    if records.len() == 0 {
        -1
    } else if records.last().id == id {
        records.len() - 1
    } else {
        holder_of(records.drop_last(), id)
    }
}

/// Index of the first id of `ids` without a record, or their number when
/// each has one.
pub open spec fn first_missing(ids: Seq<PointId>, records: Seq<VectorRecord>) -> int
    decreases ids.len(),
{
    if ids.len() == 0 {
        0
    } else if holder_of(records, ids[0]) < 0 {
        0
    } else {
        1 + first_missing(ids.skip(1), records)
    }
}

/// Index of the first record without a vector named `name`, or their number
/// when each has one.
pub open spec fn first_lacking(records: Seq<VectorRecord>, name: Seq<char>) -> int
    decreases records.len(),
{
    if records.len() == 0 {
        0
    } else if !has_vector(records[0], name) {
        0
    } else {
        1 + first_lacking(records.skip(1), name)
    }
}

/// The vectors named `name` of the points `ids`, in order.
pub open spec fn vectors_of(ids: Seq<PointId>, records: Seq<VectorRecord>, name: Seq<char>) -> Seq<
    Seq<u32>,
> {
    Seq::new(ids.len(), |i: int| vector_of(records[holder_of(records, ids[i])], name))
}

/// Finds the vector named `name` in `record`.
fn find_vector<'a>(record: &'a VectorRecord, name: &String) -> (r: Option<&'a VectorBits>)
    ensures
        match r {
            Some(vector) => has_vector(*record, name@) && vector@ == vector_of(*record, name@),
            None => !has_vector(*record, name@),
        },
{
    let mut i: usize = 0;
    assert(record.vectors@.skip(0) == record.vectors@);
    while i < record.vectors.len()
        invariant
            i <= record.vectors.len(),
            named(record.vectors@, name@) == i + named(record.vectors@.skip(i as int), name@),
        decreases record.vectors.len() - i,
    {
        proof {
            assert(record.vectors@.skip(i as int).skip(1) == record.vectors@.skip(i + 1));
        }
        if record.vectors[i].name == *name {
            return Some(&record.vectors[i].vector);
        }
        i += 1;
    }
    None
}

/// Finds the last record for `id`.
fn find_record<'a>(records: &'a Vec<VectorRecord>, id: PointId) -> (r: Option<&'a VectorRecord>)
    ensures
        match r {
            Some(record) => holder_of(records@, id) >= 0 && *record == records@[holder_of(
                records@,
                id,
            )],
            None => holder_of(records@, id) < 0,
        },
{
    let mut left: usize = records.len();
    assert(records@.take(left as int) == records@);
    while left > 0
        invariant
            left <= records.len(),
            holder_of(records@, id) == holder_of(records@.take(left as int), id),
        decreases left,
    {
        proof {
            assert(records@.take(left as int).drop_last() == records@.take(left - 1));
        }
        if records[left - 1].id == id {
            return Some(&records[left - 1]);
        }
        left -= 1;
    }
    None
}

/// Collects the vectors named `name` of the points `ids`. Fails with the
/// first id that has no record.
fn collect_vectors(ids: &Vec<PointId>, records: &Vec<VectorRecord>, name: &String) -> (r: Result<
    Vec<VectorBits>,
    PointId,
>)
    requires
        first_lacking(records@, name@) >= records@.len(),
    ensures
        match r {
            Ok(vectors) => first_missing(ids@, records@) >= ids@.len() && vectors@.len()
                == ids@.len() && forall|i: int|
                0 <= i < ids@.len() ==> (#[trigger] vectors@[i])@ == vectors_of(
                    ids@,
                    records@,
                    name@,
                )[i],
            Err(id) => first_missing(ids@, records@) < ids@.len() && id == ids@[first_missing(
                ids@,
                records@,
            )],
        },
{
    let mut vectors: Vec<VectorBits> = Vec::new();
    let mut i: usize = 0;
    assert(ids@.skip(0) == ids@);
    while i < ids.len()
        invariant
            i <= ids.len(),
            first_lacking(records@, name@) >= records@.len(),
            first_missing(ids@, records@) == i + first_missing(ids@.skip(i as int), records@),
            vectors@.len() == i,
            forall|k: int|
                0 <= k < i ==> (#[trigger] vectors@[k])@ == vectors_of(ids@, records@, name@)[k],
        decreases ids.len() - i,
    {
        proof {
            assert(ids@.skip(i as int).skip(1) == ids@.skip(i + 1));
        }
        match find_record(records, ids[i]) {
            None => {
                return Err(ids[i]);
            },
            Some(record) => {
                proof {
                    lemma_holder_of(records@, ids@[i as int]);
                    lemma_none_lacking(records@, name@, holder_of(records@, ids@[i as int]));
                }
                match find_vector(record, name) {
                    Some(vector) => {
                        vectors.push(copy_bits(vector));
                    },
                    None => {
                        assert(false);
                    },
                }
            },
        }
        i += 1;
    }
    Ok(vectors)
}

/// `holder_of` points at a record for the id.
pub proof fn lemma_holder_of(records: Seq<VectorRecord>, id: PointId)
    ensures
        -1 <= holder_of(records, id) < records.len(),
        holder_of(records, id) >= 0 ==> records[holder_of(records, id)].id == id,
    decreases records.len(),
{
    if records.len() > 0 && records.last().id != id {
        lemma_holder_of(records.drop_last(), id);
    }
}

/// `first_missing` is an index of the ids, or their number.
pub proof fn lemma_first_missing_bounds(ids: Seq<PointId>, records: Seq<VectorRecord>)
    ensures
        0 <= first_missing(ids, records) <= ids.len(),
    decreases ids.len(),
{
    if ids.len() > 0 {
        lemma_first_missing_bounds(ids.skip(1), records);
    }
}

/// Where no record lacks the vector, each record has it.
pub proof fn lemma_none_lacking(records: Seq<VectorRecord>, name: Seq<char>, at: int)
    requires
        first_lacking(records, name) >= records.len(),
        0 <= at < records.len(),
    ensures
        has_vector(records[at], name),
    decreases records.len(),
{
    if at > 0 {
        lemma_none_lacking(records.skip(1), name, at - 1);
        assert(records.skip(1)[at - 1] == records[at]);
    }
}

/// Looks up the vectors of the reference points of `request` among the
/// records that were read for the whole batch.
///
/// Fails with `BadRequest` when one of the records has no vector of the name
/// that the request uses, and else with `PointNotFound` for the first
/// reference point, positive ones first, that has no record.
pub fn reference_vectors(request: &RecommendRequest, records: &Vec<VectorRecord>) -> (r: Result<
    ReferenceVectors,
    CollectionError,
>)
    ensures
        first_lacking(records@, request.vector_name()) < records@.len() ==> is_bad_request(
            r,
            "The vector to use is not among the vectors of a reference point"@,
        ),
        first_lacking(records@, request.vector_name()) >= records@.len() ==> (if first_missing(
            request.reference(),
            records@,
        ) < request.reference().len() {
            r matches Err(CollectionError::PointNotFound { missed_point_id }) && missed_point_id
                == request.reference()[first_missing(request.reference(), records@)]
        } else {
            &&& r is Ok
            &&& r->Ok_0.vector_name@ == request.vector_name()
            &&& r->Ok_0.positive@.len() == request.positive@.len()
            &&& r->Ok_0.negative@.len() == request.negative@.len()
            &&& forall|i: int|
                0 <= i < request.positive@.len() ==> (#[trigger] r->Ok_0.positive@[i])@
                    == vectors_of(request.positive@, records@, request.vector_name())[i]
            &&& forall|i: int|
                0 <= i < request.negative@.len() ==> (#[trigger] r->Ok_0.negative@[i])@
                    == vectors_of(request.negative@, records@, request.vector_name())[i]
        }),
{
    let vector_name = match &request.using {
        Some(name) => name.clone(),
        None => "".to_string(),
    };
    let mut i: usize = 0;
    assert(records@.skip(0) == records@);
    while i < records.len()
        invariant
            i <= records.len(),
            vector_name@ == request.vector_name(),
            first_lacking(records@, vector_name@) == i + first_lacking(
                records@.skip(i as int),
                vector_name@,
            ),
        decreases records.len() - i,
    {
        proof {
            assert(records@.skip(i as int).skip(1) == records@.skip(i + 1));
        }
        if find_vector(&records[i], &vector_name).is_none() {
            return Err(
                CollectionError::BadRequest {
                    description: "The vector to use is not among the vectors of a reference point".to_string(),
                },
            );
        }
        i += 1;
    }
    proof {
        lemma_first_missing_concat(request.positive@, request.negative@, records@);
        lemma_first_missing_bounds(request.negative@, records@);
    }
    let positive = match collect_vectors(&request.positive, records, &vector_name) {
        Ok(vectors) => vectors,
        Err(id) => {
            return Err(CollectionError::PointNotFound { missed_point_id: id });
        },
    };
    let negative = match collect_vectors(&request.negative, records, &vector_name) {
        Ok(vectors) => vectors,
        Err(id) => {
            return Err(CollectionError::PointNotFound { missed_point_id: id });
        },
    };
    Ok(ReferenceVectors { vector_name, positive, negative })
}

/// The first missing id of two lists, one after the other, is that of the
/// first list if it has one, and else that of the second.
pub proof fn lemma_first_missing_concat(
    first: Seq<PointId>,
    second: Seq<PointId>,
    records: Seq<VectorRecord>,
)
    ensures
        first_missing(first + second, records) == (if first_missing(first, records) < first.len() {
            first_missing(first, records)
        } else {
            first.len() + first_missing(second, records)
        }),
        0 <= first_missing(first, records) <= first.len(),
    decreases first.len(),
{
    if first.len() == 0 {
        assert(first + second == second);
    } else {
        assert((first + second)[0] == first[0]);
        assert((first + second).skip(1) == first.skip(1) + second);
        lemma_first_missing_concat(first.skip(1), second, records);
    }
}

/// True when `search` asks for what `request` asks for: the same number
/// of points from the same offset, with the same threshold, parameters,
/// payload and vectors, among the points that the filter of the request lets
/// through, without the reference points.
pub open spec fn is_search_for(search: SearchRequest, request: RecommendRequest) -> bool {
    &&& search.limit == request.limit
    &&& search.offset == request.offset
    &&& search.score_threshold == request.score_threshold
    &&& search.filter matches Some(SearchFilter::Excluding { must, must_not_ids })
        && crate::operations::same_bytes(must, request.filter) && must_not_ids@
        == request.reference()
    &&& crate::operations::same_bytes(search.params, request.params)
    &&& search.with_payload is Some == request.with_payload is Some
    &&& search.with_payload is Some ==> search.with_payload->Some_0.spec_is_required()
        == request.with_payload->Some_0.spec_is_required()
    &&& search.with_vector is Some == request.with_vector is Some
    &&& search.with_vector is Some ==> search.with_vector->Some_0.spec_is_some()
        == request.with_vector->Some_0.spec_is_some()
}

/// The search that a recommendation comes to: a search for the points
/// nearest to `target`, with what the request asks for, that leaves out the
/// reference points and keeps the filter of the request.
pub fn recommend_search_request(request: &RecommendRequest, vector_name: String, target: VectorBits) -> (search:
    SearchRequest)
    ensures
        search.vector_name == vector_name,
        search.vector == target,
        is_search_for(search, *request),
{
    let mut excluded = copy_ids(&request.positive);
    let mut i: usize = 0;
    while i < request.negative.len()
        invariant
            i <= request.negative.len(),
            excluded@ == request.positive@ + request.negative@.take(i as int),
        decreases request.negative.len() - i,
    {
        excluded.push(request.negative[i]);
        assert(request.negative@.take(i + 1) == request.negative@.take(i as int).push(
            request.negative@[i as int],
        ));
        assert(excluded@ =~= request.positive@ + request.negative@.take(i + 1));
        i += 1;
    }
    assert(request.negative@.take(i as int) == request.negative@);
    SearchRequest {
        vector_name,
        vector: target,
        filter: Some(
            SearchFilter::Excluding {
                must: crate::operations::copy_optional_bytes(&request.filter),
                must_not_ids: excluded,
            },
        ),
        params: crate::operations::copy_optional_bytes(&request.params),
        limit: request.limit,
        offset: request.offset,
        with_payload: copy_with_payload(&request.with_payload),
        with_vector: copy_with_vector(&request.with_vector),
        score_threshold: request.score_threshold,
    }
}

/// True when the reference points of `request` are among `records`, and
/// every record has the vector that the request uses.
pub open spec fn can_refer(request: RecommendRequest, records: Seq<VectorRecord>) -> bool {
    first_lacking(records, request.vector_name()) >= records.len() && first_missing(
        request.reference(),
        records,
    ) >= request.reference().len()
}

/// Index of the first request whose reference vectors are not to be had
/// from `records`, or the number of requests when those of each are.
pub open spec fn first_unreferable(requests: Seq<RecommendRequest>, records: Seq<VectorRecord>) -> int
    decreases requests.len(),
{
    if requests.len() == 0 {
        0
    } else if !can_refer(requests[0], records) {
        0
    } else {
        1 + first_unreferable(requests.skip(1), records)
    }
}

/// True when `list` holds the vectors `expected`.
pub open spec fn vectors_are(list: Vec<VectorBits>, expected: Seq<Seq<u32>>) -> bool {
    list@.len() == expected.len() && forall|i: int|
        0 <= i < list@.len() ==> (#[trigger] list@[i])@ == expected[i]
}

/// True when `vector` is what `target` makes of the vectors of the
/// reference points of `request`, as `records` hold them.
pub open spec fn aimed<F: Fn(&Vec<VectorBits>, &Vec<VectorBits>) -> VectorBits>(
    target: F,
    request: RecommendRequest,
    records: Seq<VectorRecord>,
    vector: VectorBits,
) -> bool {
    exists|positive: Vec<VectorBits>, negative: Vec<VectorBits>|
        {
            &&& vectors_are(
                positive,
                vectors_of(request.positive@, records, request.vector_name()),
            )
            &&& vectors_are(
                negative,
                vectors_of(request.negative@, records, request.vector_name()),
            )
            &&& #[trigger] call_ensures(target, (&positive, &negative), vector)
        }
}

/// Turns a batch of recommendations into searches, with the records of the
/// reference points at hand. Each request becomes the search for the points
/// nearest to the vector that `target` makes of the vectors of its positive
/// and its negative points; the search leaves the reference points out and
/// keeps the filter of the request.
///
/// Fails with `BadRequest` when a request names no positive point. Else
/// the first request whose reference vectors are not to be had fails the
/// batch: with `BadRequest` when a record lacks the vector that the request
/// uses, else with `PointNotFound` and the first reference point without a
/// record.
pub fn recommend_searches<F: Fn(&Vec<VectorBits>, &Vec<VectorBits>) -> VectorBits>(
    requests: &Vec<RecommendRequest>,
    records: &Vec<VectorRecord>,
    target: F,
) -> (r: Result<Vec<SearchRequest>, CollectionError>)
    requires
        forall|positive: &Vec<VectorBits>, negative: &Vec<VectorBits>|
            call_requires(target, (positive, negative)),
    ensures
        first_without_positive(requests@) < requests@.len() ==> is_bad_request(
            r,
            "At least one positive vector ID required"@,
        ),
        first_without_positive(requests@) >= requests@.len() ==> ({
            let k = first_unreferable(requests@, records@);
            if k < requests@.len() {
                if first_lacking(records@, requests@[k].vector_name()) < records@.len() {
                    is_bad_request(
                        r,
                        "The vector to use is not among the vectors of a reference point"@,
                    )
                } else {
                    r matches Err(CollectionError::PointNotFound { missed_point_id })
                        && missed_point_id == requests@[k].reference()[first_missing(
                        requests@[k].reference(),
                        records@,
                    )]
                }
            } else {
                &&& r matches Ok(searches)
                &&& searches@.len() == requests@.len()
                &&& forall|q: int|
                    0 <= q < requests@.len() ==> is_search_for(
                        #[trigger] searches@[q],
                        requests@[q],
                    ) && searches@[q].vector_name@ == requests@[q].vector_name() && aimed(
                        target,
                        requests@[q],
                        records@,
                        searches@[q].vector,
                    )
            }
        }),
{
    let mut i: usize = 0;
    assert(requests@.skip(0) == requests@);
    while i < requests.len()
        invariant
            i <= requests.len(),
            first_without_positive(requests@) == i + first_without_positive(
                requests@.skip(i as int),
            ),
        decreases requests.len() - i,
    {
        proof {
            assert(requests@.skip(i as int).skip(1) == requests@.skip(i + 1));
        }
        if requests[i].positive.len() == 0 {
            return Err(
                CollectionError::BadRequest {
                    description: "At least one positive vector ID required".to_string(),
                },
            );
        }
        i += 1;
    }
    let mut searches: Vec<SearchRequest> = Vec::new();
    let mut q: usize = 0;
    while q < requests.len()
        invariant
            q <= requests.len(),
            forall|positive: &Vec<VectorBits>, negative: &Vec<VectorBits>|
                call_requires(target, (positive, negative)),
            first_without_positive(requests@) >= requests@.len(),
            first_unreferable(requests@, records@) == q + first_unreferable(
                requests@.skip(q as int),
                records@,
            ),
            searches@.len() == q,
            forall|k: int|
                0 <= k < q ==> is_search_for(#[trigger] searches@[k], requests@[k])
                    && searches@[k].vector_name@ == requests@[k].vector_name() && aimed(
                    target,
                    requests@[k],
                    records@,
                    searches@[k].vector,
                ),
        decreases requests.len() - q,
    {
        let request = &requests[q];
        proof {
            assert(requests@.skip(q as int).skip(1) == requests@.skip(q + 1));
            assert(requests@.skip(q as int)[0] == requests@[q as int]);
            lemma_first_missing_bounds(request.reference(), records@);
        }
        let reference = match reference_vectors(request, records) {
            Ok(reference) => reference,
            Err(e) => {
                return Err(e);
            },
        };
        let vector = target(&reference.positive, &reference.negative);
        proof {
            assert(vectors_are(
                reference.positive,
                vectors_of(request.positive@, records@, request.vector_name()),
            ));
            assert(vectors_are(
                reference.negative,
                vectors_of(request.negative@, records@, request.vector_name()),
            ));
            assert(aimed(target, *request, records@, vector));
        }
        let search = recommend_search_request(request, reference.vector_name, vector);
        searches.push(search);
        q += 1;
    }
    Ok(searches)
}

/// A copy of a payload selection.
pub fn copy_with_payload(with: &Option<WithPayloadInterface>) -> (copy: Option<WithPayloadInterface>)
    ensures
        copy is Some == with is Some,
        copy is Some ==> copy->Some_0.spec_is_required() == with->Some_0.spec_is_required(),
        match (copy, *with) {
            (Some(WithPayloadInterface::Bool(a)), Some(WithPayloadInterface::Bool(b))) => a == b,
            (Some(WithPayloadInterface::Fields(a)), Some(WithPayloadInterface::Fields(b))) =>
                crate::operations::same_texts(a@, b@),
            (Some(WithPayloadInterface::Selector(a)), Some(WithPayloadInterface::Selector(b))) =>
                a@ == b@,
            (None, None) => true,
            _ => false,
        },
{
    match with {
        Some(WithPayloadInterface::Bool(all)) => Some(WithPayloadInterface::Bool(*all)),
        Some(WithPayloadInterface::Fields(fields)) => Some(
            WithPayloadInterface::Fields(crate::operations::copy_texts(fields)),
        ),
        Some(WithPayloadInterface::Selector(selector)) => Some(
            WithPayloadInterface::Selector(copy_bytes(selector)),
        ),
        None => None,
    }
}

/// A copy of a vector selection.
pub fn copy_with_vector(with: &Option<WithVector>) -> (copy: Option<WithVector>)
    ensures
        copy is Some == with is Some,
        copy is Some ==> copy->Some_0.spec_is_some() == with->Some_0.spec_is_some(),
        match (copy, *with) {
            (Some(WithVector::Bool(a)), Some(WithVector::Bool(b))) => a == b,
            (Some(WithVector::Selector(a)), Some(WithVector::Selector(b))) =>
                crate::operations::same_texts(a@, b@),
            (None, None) => true,
            _ => false,
        },
{
    match with {
        Some(WithVector::Bool(all)) => Some(WithVector::Bool(*all)),
        Some(WithVector::Selector(names)) => Some(
            WithVector::Selector(crate::operations::copy_texts(names)),
        ),
        None => None,
    }
}

} // verus!
