//! Merging the search results of the shards.
//!
//! A score is held as an integer that orders as the score does, so that the
//! best results can be picked without looking at the score itself.

use vstd::prelude::*;
use crate::operations::{Filter, Payload, VectorBits};
use crate::types::{PointId, SeqNumberType, ShardId};

verus! {

/// A score, as an integer that orders as the score does.
pub type Score = i32;

/// Which scores are better.
#[derive(Clone, Copy, Debug, PartialEq, Eq, Structural)]
pub enum Order {
    LargeBetter,
    SmallBetter,
}

/// A point with its score.
pub struct ScoredPoint {
    pub id: PointId,
    pub version: SeqNumberType,
    pub score: Score,
    pub payload: Option<Payload>,
    pub vector: Option<VectorBits>,
}

/// A stored point as a read returns it.
pub struct Record {
    pub id: PointId,
    pub payload: Option<Payload>,
    pub vector: Option<VectorBits>,
}

/// True when score `a` is strictly better than score `b`.
pub open spec fn better(a: Score, b: Score, order: Order) -> bool {
    match order {
        Order::LargeBetter => a > b,
        Order::SmallBetter => a < b,
    }
}

/// True when score `a` is strictly better than score `b`.
pub fn is_better(a: Score, b: Score, order: Order) -> (r: bool)
    ensures
        r == better(a, b, order),
{
    match order {
        Order::LargeBetter => a > b,
        Order::SmallBetter => a < b,
    }
}

/// Where a point with `score` goes into `top`: before the first point that it
/// is strictly better than, so behind the points of equal score.
pub open spec fn place_in(top: Seq<ScoredPoint>, score: Score, order: Order) -> int
    decreases top.len(),
{
    if top.len() == 0 {
        0
    } else if better(score, top[0].score, order) {
        0
    } else {
        1 + place_in(top.skip(1), score, order)
    }
}

/// `place_in` is the first position whose point the score is better than.
pub proof fn lemma_place_in(top: Seq<ScoredPoint>, score: Score, order: Order)
    ensures
        0 <= place_in(top, score, order) <= top.len(),
        place_in(top, score, order) < top.len() ==> better(
            score,
            top[place_in(top, score, order)].score,
            order,
        ),
        forall|i: int|
            0 <= i < place_in(top, score, order) ==> !better(score, (#[trigger] top[i]).score, order),
    decreases top.len(),
{
    if top.len() != 0 && !better(score, top[0].score, order) {
        lemma_place_in(top.skip(1), score, order);
        assert forall|i: int| 0 <= i < place_in(top, score, order) implies !better(
            score,
            (#[trigger] top[i]).score,
            order,
        ) by {
            if i > 0 {
                assert(top.skip(1)[i - 1] == top[i]);
            }
        }
    }
}

/// A position with the two properties of `place_in` is `place_in`.
pub proof fn lemma_place_in_is(top: Seq<ScoredPoint>, score: Score, order: Order, at: int)
    requires
        0 <= at <= top.len(),
        at < top.len() ==> better(score, top[at].score, order),
        forall|i: int| 0 <= i < at ==> !better(score, (#[trigger] top[i]).score, order),
    ensures
        place_in(top, score, order) == at,
{
    lemma_place_in(top, score, order);
    let p = place_in(top, score, order);
    if p < at {
        assert(!better(score, top[p].score, order));
    }
    if at < p {
        assert(!better(score, top[at].score, order));
    }
}

/// The best `n` points of `points`, best first. Points of equal score keep
/// the order in which they came.
pub open spec fn top_of(points: Seq<ScoredPoint>, n: int, order: Order) -> Seq<ScoredPoint>
    decreases points.len(),
{
    if points.len() == 0 {
        Seq::empty()
    } else {
        let top = top_of(points.drop_last(), n, order);
        let grown = top.insert(place_in(top, points.last().score, order), points.last());
        if grown.len() > n {
            grown.take(n)
        } else {
            grown
        }
    }
}

/// No point of `top` is strictly better than a point before it.
pub open spec fn best_first(top: Seq<ScoredPoint>, order: Order) -> bool {
    forall|i: int, j: int|
        0 <= i < j < top.len() ==> !better((#[trigger] top[j]).score, (#[trigger] top[i]).score, order)
}

/// A point that goes into its place among points that come best first
/// leaves them best first.
pub proof fn lemma_placed_best_first(top: Seq<ScoredPoint>, point: ScoredPoint, order: Order)
    requires
        best_first(top, order),
    ensures
        best_first(top.insert(place_in(top, point.score, order), point), order),
{
    let at = place_in(top, point.score, order);
    lemma_place_in(top, point.score, order);
    let grown = top.insert(at, point);
    assert forall|i: int, j: int| 0 <= i < j < grown.len() implies !better(
        (#[trigger] grown[j]).score,
        (#[trigger] grown[i]).score,
        order,
    ) by {
        if j < at {
            assert(grown[i] == top[i] && grown[j] == top[j]);
        } else if j == at {
            assert(grown[i] == top[i]);
        } else if i < at {
            assert(grown[i] == top[i] && grown[j] == top[j - 1]);
        } else if i == at {
            assert(grown[j] == top[j - 1]);
            assert(!better(top[j - 1].score, top[at].score, order)) by {
                if j - 1 > at {
                }
            }
        } else {
            assert(grown[i] == top[i - 1] && grown[j] == top[j - 1]);
        }
    }
}

/// The best `n` points are at most `n`, all of them unless there are more
/// than `n`; they come best first, and each of them is one of the points.
pub proof fn lemma_top_of(points: Seq<ScoredPoint>, n: int, order: Order)
    requires
        n >= 0,
    ensures
        top_of(points, n, order).len() == (if points.len() <= n {
            points.len() as int
        } else {
            n
        }),
        best_first(top_of(points, n, order), order),
        forall|k: int|
            0 <= k < top_of(points, n, order).len() ==> points.contains(
                #[trigger] top_of(points, n, order)[k],
            ),
    decreases points.len(),
{
    if points.len() > 0 {
        let rest = points.drop_last();
        let last = points.last();
        lemma_top_of(rest, n, order);
        let top = top_of(rest, n, order);
        let at = place_in(top, last.score, order);
        lemma_place_in(top, last.score, order);
        let grown = top.insert(at, last);
        lemma_placed_best_first(top, last, order);
        assert forall|k: int| 0 <= k < grown.len() implies points.contains(#[trigger] grown[k]) by {
            if k < at {
                assert(grown[k] == top[k]);
                assert(rest.contains(top[k]));
                let w = choose|w: int| 0 <= w < rest.len() && rest[w] == top[k];
                assert(points[w] == top[k]);
            } else if k == at {
                assert(points[points.len() - 1] == last);
            } else {
                assert(grown[k] == top[k - 1]);
                assert(rest.contains(top[k - 1]));
                let w = choose|w: int| 0 <= w < rest.len() && rest[w] == top[k - 1];
                assert(points[w] == top[k - 1]);
            }
        }
        let result = top_of(points, n, order);
        assert forall|k: int| 0 <= k < result.len() implies points.contains(
            #[trigger] result[k],
        ) by {
            assert(result[k] == grown[k]);
        }
        assert forall|i: int, j: int| 0 <= i < j < result.len() implies !better(
            (#[trigger] result[j]).score,
            (#[trigger] result[i]).score,
            order,
        ) by {
            assert(result[i] == grown[i] && result[j] == grown[j]);
        }
    }
}

/// True when `rest` holds the points of `points` that are not in `top`, each
/// as often as it is left out, and none of them is strictly better than a
/// point of `top`.
pub open spec fn left_out(
    points: Seq<ScoredPoint>,
    top: Seq<ScoredPoint>,
    rest: Seq<ScoredPoint>,
    order: Order,
) -> bool {
    &&& top.to_multiset().add(rest.to_multiset()) == points.to_multiset()
    &&& forall|j: int, k: int|
        0 <= j < rest.len() && 0 <= k < top.len() ==> !better(
            (#[trigger] rest[j]).score,
            (#[trigger] top[k]).score,
            order,
        )
}

/// The best points are the best: the points that are left out, which the
/// lemma hands back, are no better than any of the points that are picked.
pub proof fn lemma_top_of_is_best(points: Seq<ScoredPoint>, n: int, order: Order) -> (rest: Seq<
    ScoredPoint,
>)
    requires
        n >= 0,
    ensures
        left_out(points, top_of(points, n, order), rest, order),
    decreases points.len(),
{
    broadcast use vstd::seq_lib::group_to_multiset_ensures;

    if points.len() == 0 {
        let rest = Seq::<ScoredPoint>::empty();
        assert(top_of(points, n, order).to_multiset().add(rest.to_multiset())
            =~= points.to_multiset());
        rest
    } else {
        let before = points.drop_last();
        let last = points.last();
        let earlier = lemma_top_of_is_best(before, n, order);
        lemma_top_of(before, n, order);
        let top = top_of(before, n, order);
        let at = place_in(top, last.score, order);
        lemma_place_in(top, last.score, order);
        lemma_placed_best_first(top, last, order);
        let grown = top.insert(at, last);
        vstd::seq_lib::to_multiset_insert(top, at, last);
        assert(points == before.push(last));
        assert(grown.to_multiset().add(earlier.to_multiset()) =~= points.to_multiset());
        if grown.len() > n {
            let dropped = grown[n];
            let result = grown.take(n);
            let rest = earlier.push(dropped);
            assert(grown == result.push(dropped));
            assert(result.to_multiset().add(rest.to_multiset()) =~= points.to_multiset());
            assert forall|j: int, k: int|
                0 <= j < rest.len() && 0 <= k < result.len() implies !better(
                (#[trigger] rest[j]).score,
                (#[trigger] result[k]).score,
                order,
            ) by {
                assert(result[k] == grown[k]);
                if j < earlier.len() {
                    assert(rest[j] == earlier[j]);
                    if k < at {
                        assert(grown[k] == top[k]);
                    } else if k == at {
                        assert(!better(earlier[j].score, top[at].score, order));
                    } else {
                        assert(grown[k] == top[k - 1]);
                    }
                } else {
                    assert(rest[j] == grown[n]);
                }
            }
            rest
        } else {
            assert(top.to_multiset().len() + earlier.to_multiset().len()
                == before.to_multiset().len());
            assert(earlier.len() == 0);
            earlier
        }
    }
}

/// Picks the best `n` points of `points`, best first. Points of equal score
/// keep the order in which they came.
pub fn peek_top(points: Vec<ScoredPoint>, n: usize, order: Order) -> (top: Vec<ScoredPoint>)
    ensures
        top@ == top_of(points@, n as int, order),
{
    let ghost all = points@;
    let mut rest = crate::operations::reverse(points);
    let mut top: Vec<ScoredPoint> = Vec::new();
    let ghost mut done: int = 0;
    while rest.len() > 0
        invariant
            0 <= done <= all.len(),
            rest@.len() == all.len() - done,
            forall|i: int| 0 <= i < rest@.len() ==> #[trigger] rest@[i] == all[all.len() - 1 - i],
            top@ == top_of(all.take(done), n as int, order),
        decreases rest@.len(),
    {
        let point = rest.pop().unwrap();
        proof {
            assert(point == all[done]);
            assert(all.take(done + 1).drop_last() == all.take(done));
            assert(all.take(done + 1).last() == point);
            lemma_top_of(all.take(done), n as int, order);
        }
        let mut at: usize = 0;
        while at < top.len() && !is_better(point.score, top[at].score, order)
            invariant
                at <= top.len(),
                forall|i: int| 0 <= i < at ==> !better(point.score, (#[trigger] top@[i]).score, order),
            decreases top.len() - at,
        {
            at += 1;
        }
        proof {
            lemma_place_in_is(top@, point.score, order, at as int);
        }
        if at < n {
            top.insert(at, point);
            if top.len() > n {
                top.truncate(n);
            }
        } else {
            proof {
                let grown = top@.insert(at as int, point);
                assert(top@.len() <= n);
                assert(grown.take(n as int) =~= top@);
            }
        }
        proof {
            done = done + 1;
        }
    }
    assert(all.take(done) == all);
    top
}

/// Which payload a read returns.
pub enum WithPayloadInterface {
    /// All of it, or none.
    Bool(bool),
    /// The named fields.
    Fields(Vec<String>),
    /// What an encoded selector picks.
    Selector(Vec<u8>),
}

impl WithPayloadInterface {
    /// True when any payload is asked for.
    pub open spec fn spec_is_required(&self) -> bool {
        match self {
            WithPayloadInterface::Bool(all) => *all,
            _ => true,
        }
    }

    /// True when any payload is asked for.
    pub fn is_required(&self) -> (b: bool)
        ensures
            b == self.spec_is_required(),
    {
        match self {
            WithPayloadInterface::Bool(all) => *all,
            _ => true,
        }
    }
}

/// Which vectors a read returns.
pub enum WithVector {
    /// All of them, or none.
    Bool(bool),
    /// The named vectors.
    Selector(Vec<String>),
}

impl WithVector {
    /// True when any vector is asked for.
    pub open spec fn spec_is_some(&self) -> bool {
        match self {
            WithVector::Bool(all) => *all,
            WithVector::Selector(names) => names@.len() > 0,
        }
    }

    /// True when any vector is asked for.
    pub fn is_some(&self) -> (b: bool)
        ensures
            b == self.spec_is_some(),
    {
        match self {
            WithVector::Bool(all) => *all,
            WithVector::Selector(names) => names.len() > 0,
        }
    }
}

/// The filter of a search: the caller's own, or the one that a
/// recommendation builds around it.
pub enum SearchFilter {
    /// An encoded filter.
    Encoded(Filter),
    /// The points must pass `must`, if there is one, and must not be among
    /// `must_not_ids`.
    Excluding { must: Option<Filter>, must_not_ids: Vec<PointId> },
}

/// A search for the nearest points.
pub struct SearchRequest {
    /// The name of the vector to search in; empty for the default vector.
    pub vector_name: String,
    pub vector: VectorBits,
    pub filter: Option<SearchFilter>,
    /// Encoded search parameters.
    pub params: Option<Vec<u8>>,
    pub limit: usize,
    pub offset: usize,
    pub with_payload: Option<WithPayloadInterface>,
    pub with_vector: Option<WithVector>,
    pub score_threshold: Option<Score>,
}

impl SearchRequest {
    /// True when the search asks for payload.
    pub open spec fn wants_payload(&self) -> bool {
        match self.with_payload {
            Some(with) => with.spec_is_required(),
            None => false,
        }
    }

    /// True when the search asks for vectors.
    pub open spec fn wants_vector(&self) -> bool {
        match self.with_vector {
            Some(with) => with.spec_is_some(),
            None => false,
        }
    }
}

/// The sum of the limits of `searches`.
pub open spec fn sum_limits(searches: Seq<SearchRequest>) -> int
    decreases searches.len(),
{
    if searches.len() == 0 {
        0
    } else {
        sum_limits(searches.drop_last()) + searches.last().limit
    }
}

/// The sum of the offsets of `searches`.
pub open spec fn sum_offsets(searches: Seq<SearchRequest>) -> int
    decreases searches.len(),
{
    if searches.len() == 0 {
        0
    } else {
        sum_offsets(searches.drop_last()) + searches.last().offset
    }
}

/// The sums are not negative, and grow with the prefix.
pub proof fn lemma_sums_grow(searches: Seq<SearchRequest>, n: int)
    requires
        0 <= n <= searches.len(),
    ensures
        0 <= sum_limits(searches.take(n)) <= sum_limits(searches),
        0 <= sum_offsets(searches.take(n)) <= sum_offsets(searches),
    decreases searches.len() - n,
{
    if n == searches.len() {
        assert(searches.take(n) == searches);
        lemma_sums_nonnegative(searches);
    } else {
        lemma_sums_grow(searches, n + 1);
        assert(searches.take(n + 1).drop_last() == searches.take(n));
        lemma_sums_nonnegative(searches.take(n));
    }
}

/// The sums are not negative.
pub proof fn lemma_sums_nonnegative(searches: Seq<SearchRequest>)
    ensures
        0 <= sum_limits(searches),
        0 <= sum_offsets(searches),
    decreases searches.len(),
{
    if searches.len() > 0 {
        lemma_sums_nonnegative(searches.drop_last());
    }
}

/// How many times more records the shards may send than the result uses
/// before payload and vectors are fetched in a second step.
pub const PAYLOAD_TRANSFERS_FACTOR_THRESHOLD: usize = 10;

/// True when every search asks for payload, or every search asks for
/// vectors.
pub open spec fn metadata_required(searches: Seq<SearchRequest>) -> bool {
    (forall|i: int| 0 <= i < searches.len() ==> (#[trigger] searches[i]).wants_payload()) || (
    forall|i: int| 0 <= i < searches.len() ==> (#[trigger] searches[i]).wants_vector())
}

/// True when a batch of searches over `shards` shards is run in two steps:
/// payload or vectors are asked for, and the shards together may return more
/// than ten times as many records as the results hold.
pub open spec fn two_step(searches: Seq<SearchRequest>, shards: int) -> bool {
    metadata_required(searches) && shards * (sum_limits(searches) + sum_offsets(searches))
        > sum_limits(searches) * PAYLOAD_TRANSFERS_FACTOR_THRESHOLD
}

/// Decides whether a batch of searches over `shards` shards is run in two
/// steps: first without payload and vectors, which are then fetched for the
/// points of the result only.
pub fn is_two_step_search(searches: &Vec<SearchRequest>, shards: usize) -> (b: bool)
    requires
        sum_limits(searches@) + sum_offsets(searches@) <= usize::MAX,
    ensures
        b == two_step(searches@, shards as int),
{
    let mut all_payload = true;
    let mut all_vector = true;
    let mut limits: usize = 0;
    let mut offsets: usize = 0;
    let mut i: usize = 0;
    while i < searches.len()
        invariant
            i <= searches.len(),
            sum_limits(searches@) + sum_offsets(searches@) <= usize::MAX,
            limits == sum_limits(searches@.take(i as int)),
            offsets == sum_offsets(searches@.take(i as int)),
            all_payload == (forall|k: int|
                0 <= k < i ==> (#[trigger] searches@[k]).wants_payload()),
            all_vector == (forall|k: int| 0 <= k < i ==> (#[trigger] searches@[k]).wants_vector()),
        decreases searches.len() - i,
    {
        let search = &searches[i];
        proof {
            assert(searches@.take(i + 1).drop_last() == searches@.take(i as int));
            assert(searches@.take(i + 1).last() == searches@[i as int]);
            lemma_sums_grow(searches@, i + 1);
        }
        let payload = match &search.with_payload {
            Some(with) => with.is_required(),
            None => false,
        };
        let vector = match &search.with_vector {
            Some(with) => with.is_some(),
            None => false,
        };
        all_payload = all_payload && payload;
        all_vector = all_vector && vector;
        limits = limits + search.limit;
        offsets = offsets + search.offset;
        i += 1;
    }
    assert(searches@.take(i as int) == searches@);
    if !(all_payload || all_vector) {
        return false;
    }
    let total: u128 = (limits as u128) + (offsets as u128);
    proof {
        assert((shards as int) * (total as int) <= 0xffff_ffff_ffff_ffff * 0xffff_ffff_ffff_ffff)
            by (nonlinear_arith)
            requires
                0 <= shards <= 0xffff_ffff_ffff_ffff,
                0 <= total <= 0xffff_ffff_ffff_ffff,
        ;
    }
    let required: u128 = (shards as u128) * total;
    let used: u128 = (limits as u128) * 10;
    required > used
}

/// The results of the shards for query `query`, one after the other in the
/// order of the shards.
pub open spec fn merged_for(shards: Seq<Vec<Vec<ScoredPoint>>>, query: int) -> Seq<ScoredPoint>
    decreases shards.len(),
{
    if shards.len() == 0 {
        Seq::empty()
    } else {
        let before = merged_for(shards.drop_last(), query);
        if query < shards.last()@.len() {
            before + shards.last()@[query]@
        } else {
            before
        }
    }
}

/// Puts the results of the shards together, query by query: for each of the
/// `batch_size` queries the results of all shards, in the order of the
/// shards.
pub fn merge_shard_results(shards: Vec<Vec<Vec<ScoredPoint>>>, batch_size: usize) -> (merged: Vec<
    Vec<ScoredPoint>,
>)
    requires
        forall|s: int| 0 <= s < shards@.len() ==> (#[trigger] shards@[s])@.len() <= batch_size,
    ensures
        merged@.len() == batch_size,
        forall|q: int| 0 <= q < batch_size ==> (#[trigger] merged@[q])@ == merged_for(shards@, q),
{
    let ghost all = shards@;
    let mut merged: Vec<Vec<ScoredPoint>> = Vec::new();
    let mut q: usize = 0;
    while q < batch_size
        invariant
            q <= batch_size,
            merged@.len() == q,
            forall|k: int| 0 <= k < q ==> (#[trigger] merged@[k])@ == Seq::<ScoredPoint>::empty(),
        decreases batch_size - q,
    {
        merged.push(Vec::new());
        q += 1;
    }
    let mut rest = crate::operations::reverse(shards);
    let ghost mut done: int = 0;
    while rest.len() > 0
        invariant
            0 <= done <= all.len(),
            rest@.len() == all.len() - done,
            forall|i: int| 0 <= i < rest@.len() ==> #[trigger] rest@[i] == all[all.len() - 1 - i],
            forall|s: int| 0 <= s < all.len() ==> (#[trigger] all[s])@.len() <= batch_size,
            merged@.len() == batch_size,
            forall|k: int|
                0 <= k < batch_size ==> (#[trigger] merged@[k])@ == merged_for(all.take(done), k),
        decreases rest@.len(),
    {
        let shard = rest.pop().unwrap();
        proof {
            assert(shard == all[done]);
            assert(all.take(done + 1).drop_last() == all.take(done));
            assert(all.take(done + 1).last() == shard);
        }
        let ghost lists = shard@;
        let n = shard.len();
        let mut queries = crate::operations::reverse(shard);
        let mut index: usize = 0;
        while index < n
            invariant
                index <= n,
                n == lists.len(),
                n <= batch_size,
                queries@.len() == n - index,
                forall|i: int| 0 <= i < queries@.len() ==> #[trigger] queries@[i] == lists[n - 1 - i],
                merged@.len() == batch_size,
                forall|k: int|
                    0 <= k < index ==> (#[trigger] merged@[k])@ == merged_for(all.take(done), k)
                        + lists[k]@,
                forall|k: int|
                    index <= k < batch_size ==> (#[trigger] merged@[k])@ == merged_for(
                        all.take(done),
                        k,
                    ),
            decreases n - index,
        {
            let mut list = queries.pop().unwrap();
            let ghost before = merged@;
            merged[index].append(&mut list);
            proof {
                assert forall|k: int| 0 <= k < batch_size && k != index implies merged@[k]
                    == before[k] by {}
            }
            index += 1;
        }
        proof {
            done = done + 1;
        }
    }
    assert(all.take(done) == all);
    merged
}

/// What a search returns from the best points `top` of a query: for a call
/// of a client, which names no shard, the points behind the first `offset`;
/// for a call from a peer, which names the shard, all of them, since the
/// offset is taken off once, where the client called.
pub open spec fn without_offset(
    top: Seq<ScoredPoint>,
    offset: int,
    shard_selection: Option<ShardId>,
) -> Seq<ScoredPoint> {
    if shard_selection.is_none() && offset > 0 {
        if top.len() >= offset {
            top.skip(offset)
        } else {
            Seq::empty()
        }
    } else {
        top
    }
}

/// Takes the offset off the best points of a query, for a call of a client.
pub fn drop_offset(top: Vec<ScoredPoint>, offset: usize, shard_selection: Option<ShardId>) -> (rest:
    Vec<ScoredPoint>)
    ensures
        rest@ == without_offset(top@, offset as int, shard_selection),
{
    let mut head = top;
    if shard_selection.is_none() && offset > 0 {
        if head.len() >= offset {
            let rest = head.split_off(offset);
            assert(rest@ =~= top@.skip(offset as int));
            rest
        } else {
            Vec::new()
        }
    } else {
        head
    }
}

/// The result of one query: the best `limit + offset` of the merged points,
/// without the offset where a client called.
pub open spec fn query_result(
    merged: Seq<ScoredPoint>,
    limit: int,
    offset: int,
    order: Order,
    shard_selection: Option<ShardId>,
) -> Seq<ScoredPoint> {
    without_offset(top_of(merged, limit + offset, order), offset, shard_selection)
}

/// Computes the result of one query from the points that the shards
/// returned for it.
pub fn top_result(
    merged: Vec<ScoredPoint>,
    limit: usize,
    offset: usize,
    order: Order,
    shard_selection: Option<ShardId>,
) -> (result: Vec<ScoredPoint>)
    requires
        limit + offset <= usize::MAX,
    ensures
        result@ == query_result(merged@, limit as int, offset as int, order, shard_selection),
{
    let top = peek_top(merged, limit + offset, order);
    drop_offset(top, offset, shard_selection)
}

/// A search of a client skips exactly `offset` of the best points: it
/// returns the best `limit + offset` points from position `offset` on. A
/// search from a peer returns all of the best `limit + offset` points.
pub proof fn lemma_offset_semantics(
    merged: Seq<ScoredPoint>,
    limit: int,
    offset: int,
    order: Order,
    shard_selection: Option<ShardId>,
)
    requires
        limit >= 0,
        offset >= 0,
    ensures
        ({
            let top = top_of(merged, limit + offset, order);
            let result = query_result(merged, limit, offset, order, shard_selection);
            &&& shard_selection.is_some() ==> result == top
            &&& shard_selection.is_none() ==> {
                &&& result.len() == (if top.len() >= offset {
                    top.len() - offset
                } else {
                    0
                })
                &&& result.len() <= limit
                &&& forall|i: int| 0 <= i < result.len() ==> result[i] == top[offset + i]
            }
        }),
{
    lemma_top_of(merged, limit + offset, order);
}

/// Index of the last record of `records` for `id`, or -1 when there is none.
pub open spec fn record_of(records: Seq<Record>, id: PointId) -> int
    decreases records.len(),
{
    if records.len() == 0 {
        -1
    } else if records.last().id == id {
        records.len() - 1
    } else {
        record_of(records.drop_last(), id)
    }
}

/// `record_of` points at a record for the id, the last one.
pub proof fn lemma_record_of(records: Seq<Record>, id: PointId)
    ensures
        -1 <= record_of(records, id) < records.len(),
        record_of(records, id) >= 0 ==> records[record_of(records, id)].id == id,
        forall|i: int| record_of(records, id) < i < records.len() ==> (#[trigger] records[i]).id != id,
    decreases records.len(),
{
    if records.len() > 0 && records.last().id != id {
        lemma_record_of(records.drop_last(), id);
        assert forall|i: int| record_of(records, id) < i < records.len() implies (
        #[trigger] records[i]).id != id by {
            if i < records.len() - 1 {
                assert(records.drop_last()[i] == records[i]);
            }
        }
    }
}

/// True when the point at `at` is the first of `points` with its id.
pub open spec fn first_with_id(points: Seq<ScoredPoint>, at: int) -> bool {
    forall|j: int| 0 <= j < at ==> (#[trigger] points[j]).id != points[at].id
}

/// The point with the payload and the vector of the record.
pub open spec fn enriched(point: ScoredPoint, record: Record) -> ScoredPoint {
    ScoredPoint {
        id: point.id,
        version: point.version,
        score: point.score,
        payload: record.payload,
        vector: record.vector,
    }
}

/// The first `n` points of `points` with payload and vectors from
/// `records`. A point without a record is left out, and so is a point whose
/// id came before.
pub open spec fn filled(points: Seq<ScoredPoint>, records: Seq<Record>, n: int) -> Seq<ScoredPoint>
    decreases n,
{
    if n <= 0 {
        Seq::empty()
    } else {
        let before = filled(points, records, n - 1);
        let point = points[n - 1];
        if record_of(records, point.id) >= 0 && first_with_id(points, n - 1) {
            before.push(enriched(point, records[record_of(records, point.id)]))
        } else {
            before
        }
    }
}

/// Gives the points of a search result the payload and the vectors of the
/// records that were read for them. A point for which no record came back
/// was deleted in between and is left out. Of several records for one
/// point the last counts; of several points with one id the first.
pub fn fill_search_result_with_payload(search_result: Vec<ScoredPoint>, records: Vec<Record>) -> (result:
    Vec<ScoredPoint>)
    ensures
        result@ == filled(search_result@, records@, search_result@.len() as int),
{
    let ghost points = search_result@;
    let ghost all_records = records@;
    let mut by_id: crate::id_map::IdMap<PointId, Record> = crate::id_map::IdMap::new();
    let mut pending = crate::operations::reverse(records);
    let ghost mut read: int = 0;
    proof {
        assert forall|id: PointId| !by_id@.dom().contains(id) by {
            crate::id_map::lemma_position_of(by_id.entries(), id);
        }
    }
    while pending.len() > 0
        invariant
            0 <= read <= all_records.len(),
            pending@.len() == all_records.len() - read,
            forall|i: int|
                0 <= i < pending@.len() ==> #[trigger] pending@[i] == all_records[all_records.len()
                    - 1 - i],
            by_id.wf(),
            forall|id: PointId|
                #[trigger] by_id@.dom().contains(id) <==> record_of(all_records.take(read), id) >= 0,
            forall|id: PointId|
                #[trigger] by_id@.dom().contains(id) ==> by_id@[id] == all_records[record_of(
                    all_records.take(read),
                    id,
                )],
        decreases pending@.len(),
    {
        let record = pending.pop().unwrap();
        let ghost earlier = by_id@;
        proof {
            assert(record == all_records[read]);
            assert(all_records.take(read + 1).drop_last() == all_records.take(read));
            assert(all_records.take(read + 1).last() == record);
        }
        let id = record.id;
        by_id.insert(id, record);
        proof {
            assert forall|other: PointId| #[trigger]
                by_id@.dom().contains(other) <==> record_of(all_records.take(read + 1), other)
                    >= 0 by {
                if other != id {
                    assert(earlier.dom().contains(other) <==> record_of(
                        all_records.take(read),
                        other,
                    ) >= 0);
                }
            }
            assert forall|other: PointId| #[trigger]
                by_id@.dom().contains(other) implies by_id@[other] == all_records[record_of(
                all_records.take(read + 1),
                other,
            )] by {
                if other != id {
                    assert(earlier.dom().contains(other));
                    lemma_record_of(all_records.take(read), other);
                }
            }
            read = read + 1;
        }
    }
    assert(all_records.take(read) == all_records);
    let mut rest = crate::operations::reverse(search_result);
    let mut result: Vec<ScoredPoint> = Vec::new();
    let ghost mut done: int = 0;
    while rest.len() > 0
        invariant
            0 <= done <= points.len(),
            rest@.len() == points.len() - done,
            forall|i: int| 0 <= i < rest@.len() ==> #[trigger] rest@[i] == points[points.len() - 1 - i],
            by_id.wf(),
            forall|id: PointId|
                #[trigger] by_id@.dom().contains(id) <==> (record_of(all_records, id) >= 0
                    && forall|j: int| 0 <= j < done ==> (#[trigger] points[j]).id != id),
            forall|id: PointId|
                #[trigger] by_id@.dom().contains(id) ==> by_id@[id] == all_records[record_of(
                    all_records,
                    id,
                )],
            result@ == filled(points, all_records, done),
        decreases rest@.len(),
    {
        let point = rest.pop().unwrap();
        let ghost earlier = by_id@;
        proof {
            assert(point == points[done]);
        }
        let found = by_id.remove(point.id);
        proof {
            assert(found.is_some() == earlier.dom().contains(point.id));
            assert(found.is_some() == (record_of(all_records, point.id) >= 0 && first_with_id(
                points,
                done,
            )));
            assert forall|id: PointId| #[trigger]
                by_id@.dom().contains(id) <==> (record_of(all_records, id) >= 0 && forall|j: int|
                    0 <= j < done + 1 ==> (#[trigger] points[j]).id != id) by {
                if id != point.id {
                    assert(earlier.dom().contains(id) <==> by_id@.dom().contains(id));
                    if earlier.dom().contains(id) {
                        assert forall|j: int| 0 <= j < done + 1 implies (#[trigger] points[j]).id
                            != id by {}
                    }
                } else {
                    assert(points[done].id == id);
                }
            }
            assert forall|id: PointId| #[trigger]
                by_id@.dom().contains(id) implies by_id@[id] == all_records[record_of(
                all_records,
                id,
            )] by {
                assert(earlier.dom().contains(id));
            }
        }
        match found {
            Some(record) => {
                result.push(
                    ScoredPoint {
                        id: point.id,
                        version: point.version,
                        score: point.score,
                        payload: record.payload,
                        vector: record.vector,
                    },
                );
            },
            None => {},
        }
        proof {
            done = done + 1;
        }
    }
    result
}

/// What identifies a result of a search: the point and its score.
pub open spec fn id_and_score(points: Seq<ScoredPoint>) -> Seq<(PointId, Score)> {
    points.map_values(|p: ScoredPoint| (p.id, p.score))
}

/// Where a score goes among points depends on their scores alone.
pub proof fn lemma_place_in_alike(a: Seq<ScoredPoint>, b: Seq<ScoredPoint>, score: Score, order: Order)
    requires
        id_and_score(a) == id_and_score(b),
    ensures
        place_in(a, score, order) == place_in(b, score, order),
    decreases a.len(),
{
    assert(a.len() == id_and_score(a).len());
    assert(b.len() == id_and_score(b).len());
    if a.len() > 0 {
        assert(id_and_score(a)[0] == (a[0].id, a[0].score));
        assert(id_and_score(b)[0] == (b[0].id, b[0].score));
        assert(id_and_score(a.skip(1)) =~= id_and_score(a).skip(1));
        assert(id_and_score(b.skip(1)) =~= id_and_score(b).skip(1));
        lemma_place_in_alike(a.skip(1), b.skip(1), score, order);
    }
}

/// Picking the best points looks at the scores alone: hits with the same
/// ids and scores give best points with the same ids and scores, whatever
/// else the hits carry.
pub proof fn lemma_top_of_alike(a: Seq<ScoredPoint>, b: Seq<ScoredPoint>, n: int, order: Order)
    requires
        n >= 0,
        id_and_score(a) == id_and_score(b),
    ensures
        id_and_score(top_of(a, n, order)) == id_and_score(top_of(b, n, order)),
    decreases a.len(),
{
    assert(a.len() == id_and_score(a).len());
    assert(b.len() == id_and_score(b).len());
    if a.len() > 0 {
        let m = a.len() - 1;
        assert(id_and_score(a)[m] == (a[m].id, a[m].score));
        assert(id_and_score(b)[m] == (b[m].id, b[m].score));
        assert(id_and_score(a.drop_last()) =~= id_and_score(a).drop_last());
        assert(id_and_score(b.drop_last()) =~= id_and_score(b).drop_last());
        lemma_top_of_alike(a.drop_last(), b.drop_last(), n, order);
        let top_a = top_of(a.drop_last(), n, order);
        let top_b = top_of(b.drop_last(), n, order);
        lemma_place_in_alike(top_a, top_b, a.last().score, order);
        lemma_place_in(top_a, a.last().score, order);
        let at = place_in(top_a, a.last().score, order);
        let grown_a = top_a.insert(at, a.last());
        let grown_b = top_b.insert(at, b.last());
        assert(top_a.len() == id_and_score(top_a).len());
        assert(top_b.len() == id_and_score(top_b).len());
        assert(id_and_score(grown_a) =~= id_and_score(top_a).insert(at, (a[m].id, a[m].score)));
        assert(id_and_score(grown_b) =~= id_and_score(top_b).insert(at, (b[m].id, b[m].score)));
        if grown_a.len() > n {
            assert(id_and_score(grown_a.take(n)) =~= id_and_score(grown_a).take(n));
            assert(id_and_score(grown_b.take(n)) =~= id_and_score(grown_b).take(n));
        }
    }
}

/// A search in two steps gives what a search in one step gives. Where the
/// shards find the same points with the same scores whether or not payload
/// and vectors are asked for, and every point that was found still has its
/// record, the results of the search without payload and vectors, filled
/// from the records, have the same ids and scores, in the same order, as the
/// results of the search as it was asked.
pub proof fn lemma_two_steps_give_the_same(
    stripped: Seq<ScoredPoint>,
    full: Seq<ScoredPoint>,
    records: Seq<Record>,
    limit: int,
    offset: int,
    order: Order,
    shard_selection: Option<ShardId>,
)
    requires
        limit >= 0,
        offset >= 0,
        id_and_score(stripped) == id_and_score(full),
        forall|i: int|
            0 <= i < query_result(stripped, limit, offset, order, shard_selection).len()
                ==> record_of(
                records,
                (#[trigger] query_result(stripped, limit, offset, order, shard_selection)[i]).id,
            ) >= 0,
        forall|i: int, j: int|
            0 <= i < j < query_result(stripped, limit, offset, order, shard_selection).len() ==> (
            #[trigger] query_result(stripped, limit, offset, order, shard_selection)[i]).id != (
            #[trigger] query_result(stripped, limit, offset, order, shard_selection)[j]).id,
    ensures
        ({
            let found = query_result(stripped, limit, offset, order, shard_selection);
            id_and_score(filled(found, records, found.len() as int)) == id_and_score(
                query_result(full, limit, offset, order, shard_selection),
            )
        }),
{
    let found = query_result(stripped, limit, offset, order, shard_selection);
    let asked = query_result(full, limit, offset, order, shard_selection);
    let top_s = top_of(stripped, limit + offset, order);
    let top_f = top_of(full, limit + offset, order);
    lemma_top_of_alike(stripped, full, limit + offset, order);
    assert(top_s.len() == id_and_score(top_s).len());
    assert(top_f.len() == id_and_score(top_f).len());
    assert(id_and_score(found) =~= id_and_score(asked)) by {
        if shard_selection.is_none() && offset > 0 && top_s.len() >= offset {
            assert(id_and_score(top_s.skip(offset)) =~= id_and_score(top_s).skip(offset));
            assert(id_and_score(top_f.skip(offset)) =~= id_and_score(top_f).skip(offset));
        }
    }
    lemma_fill_keeps_results(found, records, found.len() as int);
    assert(found.take(found.len() as int) == found);
}

/// Filling in payload and vectors keeps the results of the search: where a
/// record came back for every point and no point is there twice, the points
/// and their scores are the same as before, in the same order.
pub proof fn lemma_fill_keeps_results(points: Seq<ScoredPoint>, records: Seq<Record>, n: int)
    requires
        0 <= n <= points.len(),
        forall|i: int| 0 <= i < points.len() ==> record_of(records, (#[trigger] points[i]).id) >= 0,
        forall|i: int, j: int|
            0 <= i < j < points.len() ==> (#[trigger] points[i]).id != (#[trigger] points[j]).id,
    ensures
        id_and_score(filled(points, records, n)) == id_and_score(points.take(n)),
    decreases n,
{
    if n > 0 {
        lemma_fill_keeps_results(points, records, n - 1);
        assert(first_with_id(points, n - 1));
        let before = filled(points, records, n - 1);
        let point = points[n - 1];
        let record = records[record_of(records, point.id)];
        assert(record_of(records, point.id) >= 0);
        assert(filled(points, records, n) == before.push(enriched(point, record)));
        assert(points.take(n) =~= points.take(n - 1).push(point));
        assert(id_and_score(before.push(enriched(point, record))) =~= id_and_score(before).push(
            (point.id, point.score),
        ));
        assert(id_and_score(points.take(n - 1).push(point)) =~= id_and_score(
            points.take(n - 1),
        ).push((point.id, point.score)));
    } else {
        assert(id_and_score(filled(points, records, n)) =~= id_and_score(points.take(n)));
    }
}

/// Filling in payload and vectors adds no result and changes no score:
/// every point that comes out went in with the same score, and points come
/// out in the order in which they went in.
pub proof fn lemma_fill_is_part(points: Seq<ScoredPoint>, records: Seq<Record>, n: int)
    requires
        0 <= n <= points.len(),
    ensures
        filled(points, records, n).len() <= n,
        forall|k: int|
            0 <= k < filled(points, records, n).len() ==> exists|i: int|
                0 <= i < n && (#[trigger] points[i]).id == (#[trigger] filled(
                    points,
                    records,
                    n,
                )[k]).id && points[i].score == filled(points, records, n)[k].score,
    decreases n,
{
    if n > 0 {
        lemma_fill_is_part(points, records, n - 1);
        let before = filled(points, records, n - 1);
        let now = filled(points, records, n);
        assert forall|k: int| 0 <= k < now.len() implies exists|i: int|
            0 <= i < n && (#[trigger] points[i]).id == (#[trigger] now[k]).id && points[i].score
                == now[k].score by {
            if k < before.len() {
                assert(now[k] == before[k]);
                let i = choose|i: int|
                    0 <= i < n - 1 && (#[trigger] points[i]).id == before[k].id && points[i].score
                        == before[k].score;
                assert(points[i].id == now[k].id);
            } else {
                assert(points[n - 1].id == now[k].id);
            }
        }
    }
}

} // verus!
