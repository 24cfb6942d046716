//! Putting the answers of the shards together: the results of an update, the
//! pages of a scroll, counts and collection infos.

use vstd::prelude::*;
use crate::search::Record;
use crate::types::{
    is_bad_request,
    is_service_error,
    CollectionError,
    PointId,
    SeqNumberType,
};

verus! {

/// How far an update has got.
#[derive(Clone, Copy, Debug, PartialEq, Eq, Structural)]
pub enum UpdateStatus {
    Acknowledged,
    Completed,
}

/// The answer of a shard to an update.
#[derive(Clone, Copy, Debug, PartialEq, Eq, Structural)]
pub struct UpdateResult {
    pub operation_id: SeqNumberType,
    pub status: UpdateStatus,
}

/// Number of failed results among `results`.
pub open spec fn failures<T>(results: Seq<Result<T, CollectionError>>) -> int
    decreases results.len(),
{
    if results.len() == 0 {
        0
    } else {
        failures(results.drop_last()) + (if results.last() is Err {
            1int
        } else {
            0int
        })
    }
}

/// Index of the first failed result, or the number of results when none
/// failed.
pub open spec fn first_failure<T>(results: Seq<Result<T, CollectionError>>) -> int
    decreases results.len(),
{
    if results.len() == 0 {
        0
    } else if results[0] is Err {
        0
    } else {
        1 + first_failure(results.skip(1))
    }
}

/// The failures are between none and all, and the first one is among the
/// results when there is one.
pub proof fn lemma_failures<T>(results: Seq<Result<T, CollectionError>>)
    ensures
        0 <= failures(results) <= results.len(),
        0 <= first_failure(results) <= results.len(),
        failures(results) > 0 <==> first_failure(results) < results.len(),
        first_failure(results) < results.len() ==> results[first_failure(results)] is Err,
    decreases results.len(),
{
    if results.len() > 0 {
        lemma_failures(results.drop_last());
        lemma_failures(results.skip(1));
        lemma_first_failure_prefix(results);
    }
}

/// The first failure of a list is that of the list without its last
/// result, unless that list has none.
pub proof fn lemma_first_failure_prefix<T>(results: Seq<Result<T, CollectionError>>)
    requires
        results.len() > 0,
    ensures
        first_failure(results) == (if first_failure(results.drop_last()) < results.len() - 1 {
            first_failure(results.drop_last())
        } else if results.last() is Err {
            results.len() - 1
        } else {
            results.len() as int
        }),
        0 <= first_failure(results.drop_last()) <= results.len() - 1,
    decreases results.len(),
{
    if results.len() == 1 {
        assert(results.drop_last().len() == 0);
        assert(results.skip(1).len() == 0);
        assert(results.last() == results[0]);
        assert(first_failure(results.skip(1)) == 0);
        assert(first_failure(results.drop_last()) == 0);
    } else {
        assert(results.drop_last()[0] == results[0]);
        assert(results.drop_last().len() > 0);
        if !(results[0] is Err) {
            assert(results.skip(1).drop_last() =~= results.drop_last().skip(1));
            assert(results.skip(1).last() == results.last());
            lemma_first_failure_prefix(results.skip(1));
            assert(first_failure(results) == 1 + first_failure(results.skip(1)));
            assert(first_failure(results.drop_last()) == 1 + first_failure(
                results.drop_last().skip(1),
            ));
        } else {
            assert(first_failure(results) == 0);
            assert(first_failure(results.drop_last()) == 0);
        }
    }
}

/// What an update of a client returns from the answers of the shards, one
/// for each shard that took part.
///
/// When no shard failed, it is an answer of a shard: the last one. When
/// every shard failed, it is the first error. When some shards failed and
/// others did not, the data of the shards has come apart: the error says
/// how many shards took part, how many failed, and what the first error
/// was.
pub fn conclude_client_update(results: Vec<Result<UpdateResult, CollectionError>>) -> (r: Result<
    UpdateResult,
    CollectionError,
>)
    requires
        results@.len() > 0,
        results@.len() <= u32::MAX,
    ensures
        failures(results@) == 0 ==> r == results@[results@.len() - 1],
        failures(results@) == results@.len() ==> r == results@[first_failure(results@)],
        0 < failures(results@) < results@.len() ==> (match r {
            Err(CollectionError::InconsistentShardFailure { shards_total, shards_failed, first_err }) =>
                shards_total == results@.len() && shards_failed == failures(results@)
                    && Err::<UpdateResult, CollectionError>(*first_err) == results@[first_failure(
                    results@,
                )],
            _ => false,
        }),
{
    let ghost all = results@;
    let mut pending = results;
    let total = pending.len();
    let mut failed: usize = 0;
    let mut first: usize = total;
    let mut i: usize = 0;
    while i < total
        invariant
            i <= total,
            total == all.len(),
            pending@ == all,
            all == results@,
            failed == failures(all.take(i as int)),
            failed <= i,
            first == (if first_failure(all.take(i as int)) < i {
                first_failure(all.take(i as int))
            } else {
                total as int
            }),
        decreases total - i,
    {
        proof {
            assert(all.take(i + 1).drop_last() == all.take(i as int));
            assert(all.take(i + 1).last() == all[i as int]);
            lemma_first_failure_prefix(all.take(i + 1));
        }
        if pending[i].is_err() {
            failed += 1;
            if first == total {
                first = i;
            }
        }
        i += 1;
    }
    proof {
        assert(all.take(total as int) == all);
        lemma_failures(all);
    }
    if failed == 0 {
        let last = pending.pop().unwrap();
        return last;
    }
    let first_err = pending.swap_remove(first);
    if failed < total {
        match first_err {
            Err(err) => Err(
                CollectionError::InconsistentShardFailure {
                    shards_total: total as u32,
                    shards_failed: failed as u32,
                    first_err: Box::new(err),
                },
            ),
            Ok(result) => Ok(result),
        }
    } else {
        first_err
    }
}

/// What an update from a peer returns from the answers of the shards that
/// it went to, one after the other: the first error, else the last answer.
/// `None` when the update went to no shard.
pub fn conclude_peer_update(results: Vec<Result<UpdateResult, CollectionError>>) -> (r: Option<
    Result<UpdateResult, CollectionError>,
>)
    ensures
        results@.len() == 0 ==> r.is_none(),
        results@.len() > 0 ==> r == Some(
            if first_failure(results@) < results@.len() {
                results@[first_failure(results@)]
            } else {
                results@[results@.len() - 1]
            },
        ),
{
    let ghost all = results@;
    let mut pending = results;
    if pending.len() == 0 {
        return None;
    }
    let mut i: usize = 0;
    assert(all.skip(0) == all);
    while i < pending.len()
        invariant
            i <= all.len(),
            pending@ == all,
            all == results@,
            first_failure(all) == i + first_failure(all.skip(i as int)),
        decreases all.len() - i,
    {
        proof {
            assert(all.skip(i as int).skip(1) == all.skip(i + 1));
        }
        if pending[i].is_err() {
            let found = pending.swap_remove(i);
            return Some(found);
        }
        i += 1;
    }
    pending.pop()
}

/// One page of a scroll.
pub struct ScrollResult {
    pub points: Vec<Record>,
    /// The id to go on from; `None` on the last page.
    pub next_page_offset: Option<PointId>,
}

/// The records are in the order of their ids.
pub open spec fn by_id(records: Seq<Record>) -> bool {
    forall|i: int, j: int|
        0 <= i < j < records.len() ==> (#[trigger] records[i]).id.rank() <= (
        #[trigger] records[j]).id.rank()
}

/// Where a record with `id` goes into `sorted`: behind every record whose
/// id is not larger.
pub open spec fn place_of(sorted: Seq<Record>, id: PointId) -> int
    decreases sorted.len(),
{
    if sorted.len() == 0 {
        0
    } else if id.rank() < sorted[0].id.rank() {
        0
    } else {
        1 + place_of(sorted.skip(1), id)
    }
}

/// The first `n` records of `records` in the order of their ids; records
/// with one id keep the order in which they came.
pub open spec fn first_by_id(records: Seq<Record>, n: int) -> Seq<Record>
    decreases records.len(),
{
    if records.len() == 0 {
        Seq::empty()
    } else {
        let before = first_by_id(records.drop_last(), n);
        let grown = before.insert(place_of(before, records.last().id), records.last());
        if grown.len() > n {
            grown.take(n)
        } else {
            grown
        }
    }
}

/// `place_of` is the first position whose record has a larger id.
pub proof fn lemma_place_of(sorted: Seq<Record>, id: PointId)
    ensures
        0 <= place_of(sorted, id) <= sorted.len(),
        place_of(sorted, id) < sorted.len() ==> id.rank() < sorted[place_of(sorted, id)].id.rank(),
        forall|i: int|
            0 <= i < place_of(sorted, id) ==> (#[trigger] sorted[i]).id.rank() <= id.rank(),
    decreases sorted.len(),
{
    if sorted.len() != 0 && !(id.rank() < sorted[0].id.rank()) {
        lemma_place_of(sorted.skip(1), id);
        assert forall|i: int| 0 <= i < place_of(sorted, id) implies (
        #[trigger] sorted[i]).id.rank() <= id.rank() by {
            if i > 0 {
                assert(sorted.skip(1)[i - 1] == sorted[i]);
            }
        }
    }
}

/// A position with the two properties of `place_of` is `place_of`.
pub proof fn lemma_place_of_is(sorted: Seq<Record>, id: PointId, at: int)
    requires
        0 <= at <= sorted.len(),
        at < sorted.len() ==> id.rank() < sorted[at].id.rank(),
        forall|i: int| 0 <= i < at ==> (#[trigger] sorted[i]).id.rank() <= id.rank(),
    ensures
        place_of(sorted, id) == at,
{
    lemma_place_of(sorted, id);
    let p = place_of(sorted, id);
    if p < at {
        assert(sorted[p].id.rank() <= id.rank());
    }
    if at < p {
        assert(sorted[at].id.rank() <= id.rank());
    }
}

/// A record that goes into its place among records in the order of their
/// ids leaves them in that order.
pub proof fn lemma_placed_by_id(sorted: Seq<Record>, record: Record)
    requires
        by_id(sorted),
    ensures
        by_id(sorted.insert(place_of(sorted, record.id), record)),
{
    let at = place_of(sorted, record.id);
    lemma_place_of(sorted, record.id);
    let grown = sorted.insert(at, record);
    assert forall|i: int, j: int| 0 <= i < j < grown.len() implies (
    #[trigger] grown[i]).id.rank() <= (#[trigger] grown[j]).id.rank() by {
        if j < at {
            assert(grown[i] == sorted[i] && grown[j] == sorted[j]);
        } else if j == at {
            assert(grown[i] == sorted[i]);
        } else if i < at {
            assert(grown[i] == sorted[i] && grown[j] == sorted[j - 1]);
        } else if i == at {
            assert(grown[j] == sorted[j - 1]);
            assert(sorted[at].id.rank() <= sorted[j - 1].id.rank()) by {
                if j - 1 > at {
                }
            }
        } else {
            assert(grown[i] == sorted[i - 1] && grown[j] == sorted[j - 1]);
        }
    }
}

/// The first `n` records by id are at most `n`, all of them unless there
/// are more, in the order of their ids, and each is one of the records.
pub proof fn lemma_first_by_id(records: Seq<Record>, n: int)
    requires
        n >= 0,
    ensures
        first_by_id(records, n).len() == (if records.len() <= n {
            records.len() as int
        } else {
            n
        }),
        by_id(first_by_id(records, n)),
        forall|k: int|
            0 <= k < first_by_id(records, n).len() ==> records.contains(
                #[trigger] first_by_id(records, n)[k],
            ),
    decreases records.len(),
{
    if records.len() > 0 {
        let rest = records.drop_last();
        let last = records.last();
        lemma_first_by_id(rest, n);
        let before = first_by_id(rest, n);
        let at = place_of(before, last.id);
        lemma_place_of(before, last.id);
        let grown = before.insert(at, last);
        lemma_placed_by_id(before, last);
        assert forall|k: int| 0 <= k < grown.len() implies records.contains(#[trigger] grown[k]) by {
            if k < at {
                assert(grown[k] == before[k]);
                assert(rest.contains(before[k]));
                let w = choose|w: int| 0 <= w < rest.len() && rest[w] == before[k];
                assert(records[w] == before[k]);
            } else if k == at {
                assert(records[records.len() - 1] == last);
            } else {
                assert(grown[k] == before[k - 1]);
                assert(rest.contains(before[k - 1]));
                let w = choose|w: int| 0 <= w < rest.len() && rest[w] == before[k - 1];
                assert(records[w] == before[k - 1]);
            }
        }
        let result = first_by_id(records, n);
        assert forall|k: int| 0 <= k < result.len() implies records.contains(
            #[trigger] result[k],
        ) by {
            assert(result[k] == grown[k]);
        }
        assert forall|i: int, j: int| 0 <= i < j < result.len() implies (
        #[trigger] result[i]).id.rank() <= (#[trigger] result[j]).id.rank() by {
            assert(result[i] == grown[i] && result[j] == grown[j]);
        }
    }
}

/// True when `rest` holds the records of `records` that are not in
/// `first`, each as often as it is left out, and none of them has a smaller
/// id than a record of `first`.
pub open spec fn come_later(records: Seq<Record>, first: Seq<Record>, rest: Seq<Record>) -> bool {
    &&& first.to_multiset().add(rest.to_multiset()) == records.to_multiset()
    &&& forall|j: int, k: int|
        0 <= j < rest.len() && 0 <= k < first.len() ==> (#[trigger] first[k]).id.rank() <= (
        #[trigger] rest[j]).id.rank()
}

/// The first records by id are the first: the records that are left out,
/// which the lemma hands back, have no smaller id than any record that is
/// picked.
pub proof fn lemma_first_by_id_is_first(records: Seq<Record>, n: int) -> (rest: Seq<Record>)
    requires
        n >= 0,
    ensures
        come_later(records, first_by_id(records, n), rest),
    decreases records.len(),
{
    broadcast use vstd::seq_lib::group_to_multiset_ensures;

    if records.len() == 0 {
        let rest = Seq::<Record>::empty();
        assert(first_by_id(records, n).to_multiset().add(rest.to_multiset())
            =~= records.to_multiset());
        rest
    } else {
        let earlier = records.drop_last();
        let last = records.last();
        let left = lemma_first_by_id_is_first(earlier, n);
        lemma_first_by_id(earlier, n);
        let before = first_by_id(earlier, n);
        let at = place_of(before, last.id);
        lemma_place_of(before, last.id);
        lemma_placed_by_id(before, last);
        let grown = before.insert(at, last);
        vstd::seq_lib::to_multiset_insert(before, at, last);
        assert(records == earlier.push(last));
        assert(grown.to_multiset().add(left.to_multiset()) =~= records.to_multiset());
        if grown.len() > n {
            let dropped = grown[n];
            let result = grown.take(n);
            let rest = left.push(dropped);
            assert(grown == result.push(dropped));
            assert(result.to_multiset().add(rest.to_multiset()) =~= records.to_multiset());
            assert forall|j: int, k: int|
                0 <= j < rest.len() && 0 <= k < result.len() implies (
            #[trigger] result[k]).id.rank() <= (#[trigger] rest[j]).id.rank() by {
                assert(result[k] == grown[k]);
                if j < left.len() {
                    assert(rest[j] == left[j]);
                    if k < at {
                        assert(grown[k] == before[k]);
                    } else if k == at {
                        assert(before[at].id.rank() <= left[j].id.rank());
                    } else {
                        assert(grown[k] == before[k - 1]);
                    }
                } else {
                    assert(rest[j] == grown[n]);
                }
            }
            rest
        } else {
            assert(before.to_multiset().len() + left.to_multiset().len()
                == earlier.to_multiset().len());
            assert(left.len() == 0);
            left
        }
    }
}

/// All records of `pages`, page by page.
pub open spec fn flattened(pages: Seq<Vec<Record>>) -> Seq<Record>
    decreases pages.len(),
{
    if pages.len() == 0 {
        Seq::empty()
    } else {
        flattened(pages.drop_last()) + pages.last()@
    }
}

/// Puts the records of `records` into `sorted` by id, keeping at most `n`.
fn insert_by_id(sorted: &mut Vec<Record>, records: Vec<Record>, n: usize, Ghost(before): Ghost<
    Seq<Record>,
>)
    requires
        old(sorted)@ == first_by_id(before, n as int),
    ensures
        final(sorted)@ == first_by_id(before + records@, n as int),
{
    let ghost all = records@;
    let mut rest = crate::operations::reverse(records);
    let ghost mut done: int = 0;
    assert(before + all.take(0) == before);
    while rest.len() > 0
        invariant
            0 <= done <= all.len(),
            rest@.len() == all.len() - done,
            forall|i: int| 0 <= i < rest@.len() ==> #[trigger] rest@[i] == all[all.len() - 1 - i],
            sorted@ == first_by_id(before + all.take(done), n as int),
        decreases rest@.len(),
    {
        let record = rest.pop().unwrap();
        proof {
            assert(record == all[done]);
            assert((before + all.take(done + 1)).drop_last() == before + all.take(done));
            assert((before + all.take(done + 1)).last() == record);
            lemma_first_by_id(before + all.take(done), n as int);
        }
        let mut at: usize = 0;
        while at < sorted.len() && !record.id.precedes(&sorted[at].id)
            invariant
                at <= sorted.len(),
                forall|i: int|
                    0 <= i < at ==> (#[trigger] sorted@[i]).id.rank() <= record.id.rank(),
            decreases sorted.len() - at,
        {
            at += 1;
        }
        proof {
            lemma_place_of_is(sorted@, record.id, at as int);
        }
        if at < n {
            sorted.insert(at, record);
            if sorted.len() > n {
                sorted.truncate(n);
            }
        } else {
            proof {
                let grown = sorted@.insert(at as int, record);
                assert(grown.take(n as int) =~= sorted@);
            }
        }
        proof {
            done = done + 1;
        }
    }
    assert(before + all.take(done) == before + all);
}

/// Makes one page of a scroll from the records that the shards returned,
/// each of which was asked for `limit + 1` records.
///
/// The page holds the first `limit` records in the order of their ids. When
/// the shards returned more, the id of the record after them is where the
/// next page goes on; otherwise this is the last page.
///
/// Fails with `BadRequest` when `limit` is 0.
pub fn scroll_page(shard_records: Vec<Vec<Record>>, limit: usize) -> (r: Result<
    ScrollResult,
    CollectionError,
>)
    requires
        limit < usize::MAX,
    ensures
        limit == 0 ==> is_bad_request(r, "Limit cannot be 0"@),
        limit > 0 ==> r is Ok && ({
            let first = first_by_id(flattened(shard_records@), limit + 1);
            let page = r->Ok_0;
            if first.len() <= limit {
                page.points@ == first && page.next_page_offset.is_none()
            } else {
                page.points@ == first.take(limit as int) && page.next_page_offset == Some(
                    first[limit as int].id,
                )
            }
        }),
{
    if limit == 0 {
        return Err(CollectionError::BadRequest { description: "Limit cannot be 0".to_string() });
    }
    let wanted = limit + 1;
    let ghost all = shard_records@;
    let mut points: Vec<Record> = Vec::new();
    let mut rest = crate::operations::reverse(shard_records);
    let ghost mut done: int = 0;
    while rest.len() > 0
        invariant
            0 <= done <= all.len(),
            rest@.len() == all.len() - done,
            forall|i: int| 0 <= i < rest@.len() ==> #[trigger] rest@[i] == all[all.len() - 1 - i],
            points@ == first_by_id(flattened(all.take(done)), wanted as int),
        decreases rest@.len(),
    {
        let page = rest.pop().unwrap();
        proof {
            assert(page == all[done]);
            assert(all.take(done + 1).drop_last() == all.take(done));
            assert(all.take(done + 1).last() == page);
        }
        insert_by_id(&mut points, page, wanted, Ghost(flattened(all.take(done))));
        proof {
            done = done + 1;
        }
    }
    proof {
        assert(all.take(done) == all);
        lemma_first_by_id(flattened(all), wanted as int);
    }
    if points.len() < wanted {
        Ok(ScrollResult { points, next_page_offset: None })
    } else {
        let ghost first = points@;
        let next = points.pop().unwrap();
        assert(points@ =~= first.take(limit as int));
        Ok(ScrollResult { points, next_page_offset: Some(next.id) })
    }
}

/// The number of points that a count found.
#[derive(Clone, Copy, Debug, PartialEq, Eq, Structural)]
pub struct CountResult {
    pub count: usize,
}

/// The sum of the counts.
pub open spec fn total_count(counts: Seq<CountResult>) -> int
    decreases counts.len(),
{
    if counts.len() == 0 {
        0
    } else {
        total_count(counts.drop_last()) + counts.last().count
    }
}

/// The sum of a prefix is at most the sum of the whole.
pub proof fn lemma_total_count(counts: Seq<CountResult>, n: int)
    requires
        0 <= n <= counts.len(),
    ensures
        0 <= total_count(counts.take(n)) <= total_count(counts),
    decreases counts.len() - n,
{
    if n == counts.len() {
        assert(counts.take(n) == counts);
        lemma_total_count_nonnegative(counts);
    } else {
        lemma_total_count(counts, n + 1);
        assert(counts.take(n + 1).drop_last() == counts.take(n));
        lemma_total_count_nonnegative(counts.take(n));
    }
}

/// A sum of counts is not negative.
pub proof fn lemma_total_count_nonnegative(counts: Seq<CountResult>)
    ensures
        0 <= total_count(counts),
    decreases counts.len(),
{
    if counts.len() > 0 {
        lemma_total_count_nonnegative(counts.drop_last());
    }
}

/// Adds up the counts of the shards.
pub fn sum_counts(counts: &Vec<CountResult>) -> (total: CountResult)
    requires
        total_count(counts@) <= usize::MAX,
    ensures
        total.count == total_count(counts@),
{
    let mut total: usize = 0;
    let mut i: usize = 0;
    while i < counts.len()
        invariant
            i <= counts.len(),
            total_count(counts@) <= usize::MAX,
            total == total_count(counts@.take(i as int)),
        decreases counts.len() - i,
    {
        proof {
            assert(counts@.take(i + 1).drop_last() == counts@.take(i as int));
            assert(counts@.take(i + 1).last() == counts@[i as int]);
            lemma_total_count(counts@, i + 1);
        }
        total = total + counts[i].count;
        i += 1;
    }
    assert(counts@.take(i as int) == counts@);
    CountResult { count: total }
}

/// Puts the records that the shards returned together, shard by shard.
pub fn flatten_records(shard_records: Vec<Vec<Record>>) -> (records: Vec<Record>)
    ensures
        records@ == flattened(shard_records@),
{
    let ghost all = shard_records@;
    let mut records: Vec<Record> = Vec::new();
    let mut rest = crate::operations::reverse(shard_records);
    let ghost mut done: int = 0;
    while rest.len() > 0
        invariant
            0 <= done <= all.len(),
            rest@.len() == all.len() - done,
            forall|i: int| 0 <= i < rest@.len() ==> #[trigger] rest@[i] == all[all.len() - 1 - i],
            records@ == flattened(all.take(done)),
        decreases rest@.len(),
    {
        let mut page = rest.pop().unwrap();
        proof {
            assert(page == all[done]);
            assert(all.take(done + 1).drop_last() == all.take(done));
            assert(all.take(done + 1).last() == page);
        }
        records.append(&mut page);
        proof {
            done = done + 1;
        }
    }
    assert(all.take(done) == all);
    records
}

/// How a collection is doing; a later variant is worse.
#[derive(Clone, Copy, Debug, PartialEq, Eq, Structural)]
pub enum CollectionStatus {
    Green,
    Yellow,
    Red,
}

impl CollectionStatus {
    /// The place of the status from good to bad.
    pub open spec fn severity(&self) -> int {
        match self {
            CollectionStatus::Green => 0,
            CollectionStatus::Yellow => 1,
            CollectionStatus::Red => 2,
        }
    }

    /// The worse of two statuses.
    pub fn worse(self, other: CollectionStatus) -> (r: CollectionStatus)
        ensures
            r == (if self.severity() > other.severity() {
                self
            } else {
                other
            }),
    {
        match (self, other) {
            (CollectionStatus::Red, _) => CollectionStatus::Red,
            (CollectionStatus::Yellow, CollectionStatus::Green) => CollectionStatus::Yellow,
            (_, other) => other,
        }
    }
}

/// How the optimizers are doing.
pub enum OptimizersStatus {
    Good,
    Error(String),
}

/// True when text `a` does not come after text `b`, character by
/// character; a text comes before the texts that it starts.
pub open spec fn text_le(a: Seq<char>, b: Seq<char>) -> bool
    decreases a.len(),
{
    if a.len() == 0 {
        true
    } else if b.len() == 0 {
        false
    } else if a[0] != b[0] {
        (a[0] as u32) < (b[0] as u32)
    } else {
        text_le(a.skip(1), b.skip(1))
    }
}

/// Compares two texts with the order of `str`: `true` when `a` does not
/// come after `b`. The order of `str` is that of the bytes, which for UTF-8
/// is that of the characters. Not proved: the claim rests on the
/// documentation of `str`.
#[verifier::external_body]
fn text_not_after(a: &String, b: &String) -> (r: bool)
    ensures
        r == text_le(a@, b@),
{
    a.as_str() <= b.as_str()
}

impl OptimizersStatus {
    /// True when `self` is the larger of the two: an error is larger than
    /// no error, and of two errors the one whose text comes later.
    pub open spec fn exceeds(&self, other: &OptimizersStatus) -> bool {
        match (*self, *other) {
            (OptimizersStatus::Good, _) => false,
            (OptimizersStatus::Error(_), OptimizersStatus::Good) => true,
            (OptimizersStatus::Error(a), OptimizersStatus::Error(b)) => !text_le(a@, b@),
        }
    }

    /// The larger of two statuses; the second when neither is larger.
    pub fn larger(self, other: OptimizersStatus) -> (r: OptimizersStatus)
        ensures
            r == (if self.exceeds(&other) {
                self
            } else {
                other
            }),
    {
        let exceeds = match (&self, &other) {
            (OptimizersStatus::Good, _) => false,
            (OptimizersStatus::Error(_), OptimizersStatus::Good) => true,
            (OptimizersStatus::Error(a), OptimizersStatus::Error(b)) => !text_not_after(a, b),
        };
        if exceeds {
            self
        } else {
            other
        }
    }
}

/// The type of the values of an indexed payload field.
#[derive(Clone, Copy, Debug, PartialEq, Eq, Structural)]
pub enum PayloadSchemaType {
    Keyword,
    Integer,
    Float,
    Geo,
}

/// What is known of an indexed payload field.
#[derive(Clone, Copy, Debug, PartialEq, Eq, Structural)]
pub struct PayloadIndexInfo {
    pub data_type: PayloadSchemaType,
}

/// The state of a collection or of one of its shards.
pub struct CollectionInfo {
    pub status: CollectionStatus,
    pub optimizer_status: OptimizersStatus,
    pub vectors_count: usize,
    pub indexed_vectors_count: usize,
    pub points_count: usize,
    pub segments_count: usize,
    /// The indexed payload fields by name; no name is there twice.
    pub payload_schema: Vec<(String, PayloadIndexInfo)>,
}

/// Index of the field named `name`, or the number of fields when there is
/// none.
pub open spec fn field_index(schema: Seq<(String, PayloadIndexInfo)>, name: Seq<char>) -> int
    decreases schema.len(),
{
    if schema.len() == 0 {
        0
    } else if schema[0].0@ == name {
        0
    } else {
        1 + field_index(schema.skip(1), name)
    }
}

/// `field_index` is an index of the fields, or their number.
pub proof fn lemma_field_index(schema: Seq<(String, PayloadIndexInfo)>, name: Seq<char>)
    ensures
        0 <= field_index(schema, name) <= schema.len(),
    decreases schema.len(),
{
    if schema.len() > 0 {
        lemma_field_index(schema.skip(1), name);
    }
}

/// The schema with `field` in it: in the place of a field of the same name
/// if there is one, else at the end.
pub open spec fn with_field(
    schema: Seq<(String, PayloadIndexInfo)>,
    field: (String, PayloadIndexInfo),
) -> Seq<(String, PayloadIndexInfo)> {
    if field_index(schema, field.0@) < schema.len() {
        schema.update(field_index(schema, field.0@), field)
    } else {
        schema.push(field)
    }
}

/// The schema with the fields of `more` in it, one after the other.
pub open spec fn with_fields(
    schema: Seq<(String, PayloadIndexInfo)>,
    more: Seq<(String, PayloadIndexInfo)>,
) -> Seq<(String, PayloadIndexInfo)>
    decreases more.len(),
{
    if more.len() == 0 {
        schema
    } else {
        with_field(with_fields(schema, more.drop_last()), more.last())
    }
}

/// Puts `field` into `schema`.
fn put_field(schema: &mut Vec<(String, PayloadIndexInfo)>, field: (String, PayloadIndexInfo))
    ensures
        final(schema)@ == with_field(old(schema)@, field),
{
    let mut i: usize = 0;
    assert(schema@.skip(0) == schema@);
    while i < schema.len()
        invariant
            i <= schema.len(),
            *schema == *old(schema),
            field_index(schema@, field.0@) == i + field_index(schema@.skip(i as int), field.0@),
        decreases schema.len() - i,
    {
        proof {
            assert(schema@.skip(i as int).skip(1) == schema@.skip(i + 1));
        }
        if schema[i].0 == field.0 {
            schema[i] = field;
            return ;
        }
        i += 1;
    }
    schema.push(field);
}

impl CollectionInfo {
    /// True when the counts of the two infos can be added.
    pub open spec fn fits(&self, other: &CollectionInfo) -> bool {
        &&& self.vectors_count + other.vectors_count <= usize::MAX
        &&& self.indexed_vectors_count + other.indexed_vectors_count <= usize::MAX
        &&& self.points_count + other.points_count <= usize::MAX
        &&& self.segments_count + other.segments_count <= usize::MAX
    }

    /// Takes the info of another shard in: the status is the worse one, the
    /// status of the optimizers the larger one, the counts add up, and the
    /// indexed fields of the shard are added to the schema, replacing fields
    /// of the same name.
    pub fn merge(&mut self, shard_info: CollectionInfo)
        requires
            old(self).fits(&shard_info),
        ensures
            final(self).status == (if old(self).status.severity() > shard_info.status.severity() {
                old(self).status
            } else {
                shard_info.status
            }),
            final(self).optimizer_status == (if old(self).optimizer_status.exceeds(
                &shard_info.optimizer_status,
            ) {
                old(self).optimizer_status
            } else {
                shard_info.optimizer_status
            }),
            final(self).vectors_count == old(self).vectors_count + shard_info.vectors_count,
            final(self).indexed_vectors_count == old(self).indexed_vectors_count
                + shard_info.indexed_vectors_count,
            final(self).points_count == old(self).points_count + shard_info.points_count,
            final(self).segments_count == old(self).segments_count + shard_info.segments_count,
            final(self).payload_schema@ == with_fields(
                old(self).payload_schema@,
                shard_info.payload_schema@,
            ),
    {
        let CollectionInfo {
            status,
            optimizer_status,
            vectors_count,
            indexed_vectors_count,
            points_count,
            segments_count,
            payload_schema,
        } = shard_info;
        self.status = self.status.worse(status);
        let mut mine = OptimizersStatus::Good;
        core::mem::swap(&mut self.optimizer_status, &mut mine);
        self.optimizer_status = mine.larger(optimizer_status);
        self.vectors_count = self.vectors_count + vectors_count;
        self.indexed_vectors_count = self.indexed_vectors_count + indexed_vectors_count;
        self.points_count = self.points_count + points_count;
        self.segments_count = self.segments_count + segments_count;
        let ghost more = payload_schema@;
        let ghost start = self.payload_schema@;
        let mut rest = crate::operations::reverse(payload_schema);
        let ghost mut done: int = 0;
        while rest.len() > 0
            invariant
                0 <= done <= more.len(),
                rest@.len() == more.len() - done,
                forall|i: int| 0 <= i < rest@.len() ==> #[trigger] rest@[i] == more[more.len() - 1 - i],
                self.payload_schema@ == with_fields(start, more.take(done)),
                self.status == (if old(self).status.severity() > shard_info.status.severity() {
                    old(self).status
                } else {
                    shard_info.status
                }),
                self.optimizer_status == (if old(self).optimizer_status.exceeds(
                    &shard_info.optimizer_status,
                ) {
                    old(self).optimizer_status
                } else {
                    shard_info.optimizer_status
                }),
                self.vectors_count == old(self).vectors_count + shard_info.vectors_count,
                self.indexed_vectors_count == old(self).indexed_vectors_count
                    + shard_info.indexed_vectors_count,
                self.points_count == old(self).points_count + shard_info.points_count,
                self.segments_count == old(self).segments_count + shard_info.segments_count,
            decreases rest@.len(),
        {
            let field = rest.pop().unwrap();
            proof {
                assert(field == more[done]);
                assert(more.take(done + 1).drop_last() == more.take(done));
                assert(more.take(done + 1).last() == field);
            }
            put_field(&mut self.payload_schema, field);
            proof {
                done = done + 1;
            }
        }
        assert(more.take(done) == more);
    }
}

/// The info of a collection from the infos of its shards: that of the first
/// shard with those of the others taken in, one after the other.
///
/// Fails with a service error when there is no shard.
pub fn merge_infos(infos: Vec<CollectionInfo>) -> (r: Result<CollectionInfo, CollectionError>)
    requires
        forall|n: int| 0 < n < infos@.len() ==> (#[trigger] merged_info_fits(infos@, n)),
    ensures
        infos@.len() == 0 ==> is_service_error(r, "There are no shards for selected collection"@),
        infos@.len() > 0 ==> r is Ok && is_merged(r->Ok_0, infos@, infos@.len() as int),
{
    let ghost all = infos@;
    let mut rest = crate::operations::reverse(infos);
    let mut info = match rest.pop() {
        Some(first) => first,
        None => {
            return Err(
                CollectionError::service_error(
                    "There are no shards for selected collection".to_string(),
                ),
            );
        },
    };
    let ghost mut done: int = 1;
    proof {
        assert(info == all[0]);
        assert(forall|which: int| count_sum(all, 0, which) == 0);
        assert(forall|which: int| #[trigger]
            count_sum(all, 1, which) == count_sum(all, 0, which) + count_of(all[0], which));
    }
    while rest.len() > 0
        invariant
            1 <= done <= all.len(),
            rest@.len() == all.len() - done,
            forall|i: int| 0 <= i < rest@.len() ==> #[trigger] rest@[i] == all[all.len() - 1 - i],
            forall|n: int| 0 < n < all.len() ==> (#[trigger] merged_info_fits(all, n)),
            is_merged(info, all, done),
        decreases rest@.len(),
    {
        let next = rest.pop().unwrap();
        proof {
            assert(next == all[done]);
            assert(merged_info_fits(all, done));
        }
        info.merge(next);
        proof {
            done = done + 1;
        }
    }
    Ok(info)
}

/// One of the four counts of an info: the vectors, the indexed vectors, the
/// points or the segments.
pub open spec fn count_of(info: CollectionInfo, which: int) -> int {
    if which == 0 {
        info.vectors_count as int
    } else if which == 1 {
        info.indexed_vectors_count as int
    } else if which == 2 {
        info.points_count as int
    } else {
        info.segments_count as int
    }
}

/// The sum of one of the counts of the first `n` infos.
pub open spec fn count_sum(infos: Seq<CollectionInfo>, n: int, which: int) -> int
    decreases n,
{
    if n <= 0 {
        0
    } else {
        count_sum(infos, n - 1, which) + count_of(infos[n - 1], which)
    }
}

/// True when the counts of the first `n` infos and those of the next one
/// can be added.
pub open spec fn merged_info_fits(infos: Seq<CollectionInfo>, n: int) -> bool {
    &&& count_sum(infos, n + 1, 0) <= usize::MAX
    &&& count_sum(infos, n + 1, 1) <= usize::MAX
    &&& count_sum(infos, n + 1, 2) <= usize::MAX
    &&& count_sum(infos, n + 1, 3) <= usize::MAX
}

/// The worst status of the first `n` infos.
pub open spec fn worst_status(infos: Seq<CollectionInfo>, n: int) -> CollectionStatus
    decreases n,
{
    if n <= 1 {
        infos[0].status
    } else {
        let before = worst_status(infos, n - 1);
        if before.severity() > infos[n - 1].status.severity() {
            before
        } else {
            infos[n - 1].status
        }
    }
}

/// The largest status of the optimizers of the first `n` infos.
pub open spec fn largest_optimizer_status(infos: Seq<CollectionInfo>, n: int) -> OptimizersStatus
    decreases n,
{
    if n <= 1 {
        infos[0].optimizer_status
    } else {
        let before = largest_optimizer_status(infos, n - 1);
        if before.exceeds(&infos[n - 1].optimizer_status) {
            before
        } else {
            infos[n - 1].optimizer_status
        }
    }
}

/// The schema of the first `n` infos.
pub open spec fn merged_schema(infos: Seq<CollectionInfo>, n: int) -> Seq<(String, PayloadIndexInfo)>
    decreases n,
{
    if n <= 1 {
        infos[0].payload_schema@
    } else {
        with_fields(merged_schema(infos, n - 1), infos[n - 1].payload_schema@)
    }
}

/// True when `info` is the first `n` infos put together.
pub open spec fn is_merged(info: CollectionInfo, infos: Seq<CollectionInfo>, n: int) -> bool {
    &&& info.status == worst_status(infos, n)
    &&& info.optimizer_status == largest_optimizer_status(infos, n)
    &&& info.vectors_count == count_sum(infos, n, 0)
    &&& info.indexed_vectors_count == count_sum(infos, n, 1)
    &&& info.points_count == count_sum(infos, n, 2)
    &&& info.segments_count == count_sum(infos, n, 3)
    &&& info.payload_schema@ == merged_schema(infos, n)
}

} // verus!
