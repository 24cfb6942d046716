//! The operations of a collection on its points: updates, searches, scrolls,
//! counts and reads. The collection says where an operation goes and what
//! the answers of the shards come to; the caller talks to the shards.

use vstd::prelude::*;
use crate::collection::Collection;
use crate::config::{vector_index, CollectionParamsDiff};
use crate::id_map::IdMap;
use crate::operations::{CollectionUpdateOperations, VectorBits};
use crate::recommend::{
    aimed, first_lacking, first_missing, first_unreferable, first_without_positive, is_search_for,
    recommend_searches, RecommendRequest, VectorRecord,
};
use crate::replica_changes::{
    apply_replica_changes, asked_by, changes_made, names, ReplicaChanges,
};
use crate::replica_set::{is_state_not_saved, Change, ReplicaState};
use crate::results::{
    conclude_peer_update, first_by_id, first_failure, flattened, scroll_page, ScrollResult,
    UpdateResult,
};
use crate::routing::receivers;
use crate::search::{
    is_two_step_search, merge_shard_results, merged_for, query_result, sum_limits, sum_offsets,
    top_result, two_step, Record, ScoredPoint, SearchRequest, WithPayloadInterface, WithVector,
};
use crate::shard::Shard;
use crate::types::{
    always_saves_shards,
    is_bad_request,
    is_service_error,
    numbered,
    text_with_number,
    CollectionError,
    PointId,
    ShardId,
};

verus! {

/// A batch of searches.
pub struct SearchRequestBatch {
    pub searches: Vec<SearchRequest>,
}

/// A request for one page of the points of a collection.
pub struct ScrollRequest {
    /// The id to start from.
    pub offset: Option<PointId>,
    /// The size of the page; 10 when `None`.
    pub limit: Option<usize>,
    pub filter: Option<Vec<u8>>,
    pub with_payload: Option<WithPayloadInterface>,
    pub with_vector: WithVector,
}

/// The size of a page when the request names none.
pub const DEFAULT_SCROLL_LIMIT: usize = 10;

impl ScrollRequest {
    /// The size of the page.
    pub open spec fn page_size(&self) -> usize {
        match self.limit {
            Some(limit) => limit,
            None => DEFAULT_SCROLL_LIMIT,
        }
    }
}

/// How a batch of searches is run.
pub enum SearchPlan {
    /// As it is.
    Direct,
    /// In two steps: these searches, which ask for no payload and no
    /// vectors, are run first; payload and vectors are then read for the
    /// points of their results.
    TwoStep(Vec<SearchRequest>),
}

/// True when `stripped` is `search` without payload and vectors.
pub open spec fn is_stripped(stripped: SearchRequest, search: SearchRequest) -> bool {
    &&& stripped.with_payload.is_none()
    &&& stripped.with_vector.is_none()
    &&& stripped.vector_name@ == search.vector_name@
    &&& stripped.vector@ == search.vector@
    &&& stripped.limit == search.limit
    &&& stripped.offset == search.offset
    &&& stripped.score_threshold == search.score_threshold
    &&& crate::operations::same_bytes(stripped.params, search.params)
    &&& match (stripped.filter, search.filter) {
        (None, None) => true,
        (
            Some(crate::search::SearchFilter::Encoded(a)),
            Some(crate::search::SearchFilter::Encoded(b)),
        ) => a@ == b@,
        (
            Some(crate::search::SearchFilter::Excluding { must: m1, must_not_ids: x1 }),
            Some(crate::search::SearchFilter::Excluding { must: m2, must_not_ids: x2 }),
        ) => crate::operations::same_bytes(m1, m2) && x1@ == x2@,
        _ => false,
    }
}

/// The search without payload and vectors.
pub fn without_payload(search: &SearchRequest) -> (stripped: SearchRequest)
    ensures
        is_stripped(stripped, *search),
{
    SearchRequest {
        vector_name: search.vector_name.clone(),
        vector: crate::operations::copy_bits(&search.vector),
        filter: match &search.filter {
            None => None,
            Some(crate::search::SearchFilter::Encoded(filter)) => Some(
                crate::search::SearchFilter::Encoded(crate::operations::copy_bytes(filter)),
            ),
            Some(crate::search::SearchFilter::Excluding { must, must_not_ids }) => Some(
                crate::search::SearchFilter::Excluding {
                    must: crate::operations::copy_optional_bytes(must),
                    must_not_ids: crate::operations::copy_ids(must_not_ids),
                },
            ),
        },
        params: crate::operations::copy_optional_bytes(&search.params),
        limit: search.limit,
        offset: search.offset,
        with_payload: None,
        with_vector: None,
        score_threshold: search.score_threshold,
    }
}

/// Index of the first search whose vector the configuration does not know,
/// or the number of searches when it knows them all.
pub open spec fn first_unknown_vector(
    searches: Seq<SearchRequest>,
    vectors: Seq<crate::config::VectorParams>,
) -> int
    decreases searches.len(),
{
    if searches.len() == 0 {
        0
    } else if vector_index(vectors, searches[0].vector_name@) >= vectors.len() {
        0
    } else {
        1 + first_unknown_vector(searches.skip(1), vectors)
    }
}

/// A shard whose optimizers take up a new configuration.
#[derive(Clone, Copy, Debug, PartialEq, Eq, Structural)]
pub enum OptimizerTarget {
    /// The shard in the slot.
    Slot(ShardId),
    /// The temporary shard of the slot.
    Temporary(ShardId),
}

/// The shards among `slots` that run optimizers: all but the remote ones,
/// in order.
pub open spec fn optimized_slots<L>(slots: Seq<(ShardId, Shard<L>)>) -> Seq<OptimizerTarget>
    decreases slots.len(),
{
    if slots.len() == 0 {
        Seq::empty()
    } else if slots.last().1 is Remote {
        optimized_slots(slots.drop_last())
    } else {
        optimized_slots(slots.drop_last()).push(OptimizerTarget::Slot(slots.last().0))
    }
}

impl<L> Collection<L> {
    /// Sets the configuration of the optimizers and names the shards that
    /// have to take it up: every shard but the remote ones, in the order of
    /// the slots, then every temporary shard.
    pub fn update_optimizer_params(&mut self, optimizer_config: Vec<u8>) -> (targets: Vec<
        OptimizerTarget,
    >)
        ensures
            final(self).config.optimizer_config == optimizer_config,
            final(self).config.params == old(self).config.params,
            final(self).config.hnsw_config == old(self).config.hnsw_config,
            final(self).config.wal_config == old(self).config.wal_config,
            final(self).id == old(self).id,
            final(self).shards_holder == old(self).shards_holder,
            final(self).before_drop_called == old(self).before_drop_called,
            targets@ == optimized_slots(old(self).shards_holder.shards.entries()) + old(
                self).shards_holder.temporary_shards.entries().map_values(
                |e: (ShardId, Shard<L>)| OptimizerTarget::Temporary(e.0),
            ),
    {
        self.config.optimizer_config = optimizer_config;
        let slots = &self.shards_holder.shards;
        let mut targets: Vec<OptimizerTarget> = Vec::new();
        let mut i: usize = 0;
        while i < slots.len()
            invariant
                i <= slots.entries().len(),
                targets@ == optimized_slots(slots.entries().take(i as int)),
            decreases slots.entries().len() - i,
        {
            proof {
                assert(slots.entries().take(i + 1).drop_last() == slots.entries().take(i as int));
                assert(slots.entries().take(i + 1).last() == slots.entries()[i as int]);
            }
            match slots.value_at(i) {
                Shard::Remote(_) => {},
                _ => {
                    targets.push(OptimizerTarget::Slot(slots.id_at(i)));
                },
            }
            i += 1;
        }
        assert(slots.entries().take(i as int) == slots.entries());
        let temporaries = &self.shards_holder.temporary_shards;
        let ghost first = targets@;
        let ghost label = |e: (ShardId, Shard<L>)| OptimizerTarget::Temporary(e.0);
        let mut t: usize = 0;
        while t < temporaries.len()
            invariant
                t <= temporaries.entries().len(),
                label == (|e: (ShardId, Shard<L>)| OptimizerTarget::Temporary(e.0)),
                targets@ == first + temporaries.entries().take(t as int).map_values(label),
            decreases temporaries.entries().len() - t,
        {
            targets.push(OptimizerTarget::Temporary(temporaries.id_at(t)));
            assert(targets@ =~= first + temporaries.entries().take(t + 1).map_values(label));
            t += 1;
        }
        assert(temporaries.entries().take(t as int) == temporaries.entries());
        targets
    }

    /// Marks the collection as ready to be dropped: its shards have been
    /// told to finish their work.
    pub fn before_drop(&mut self)
        ensures
            final(self).before_drop_called,
            final(self).id == old(self).id,
            final(self).config == old(self).config,
            final(self).shards_holder == old(self).shards_holder,
    {
        self.before_drop_called = true;
    }

    /// Attaches `temporary_shard` as the temporary shard of `shard_id`, for
    /// a transfer that comes in. A temporary shard that was there is handed
    /// back, for the caller to release what it holds.
    pub fn initiate_temporary_shard(&mut self, shard_id: ShardId, temporary_shard: L) -> (previous:
        Option<Shard<L>>)
        requires
            old(self).wf(),
        ensures
            final(self).wf(),
            final(self).id == old(self).id,
            final(self).config == old(self).config,
            final(self).before_drop_called == old(self).before_drop_called,
            final(self).shards_holder.temporary(shard_id) == Some(Shard::Local(temporary_shard)),
            forall|id: ShardId|
                id != shard_id ==> final(self).shards_holder.temporary(id) == old(
                    self).shards_holder.temporary(id),
            previous == old(self).shards_holder.temporary(shard_id),
            final(self).shards_holder.shards == old(self).shards_holder.shards,
            final(self).shards_holder.shard_transfers == old(self).shards_holder.shard_transfers,
    {
        self.shards_holder.add_temporary_shard(shard_id, temporary_shard)
    }

    /// Makes the changes of the replica sets that a new replication factor
    /// asks for: first every addition, then every removal. The first change
    /// that fails ends the batch; the changes before it stay made. See
    /// [`changes_made`].
    pub fn handle_replica_changes<P: Fn(ShardId, &ReplicaState) -> bool>(
        &mut self,
        replica_changes: &Vec<Change>,
        locals: IdMap<ShardId, L>,
        persist: P,
    ) -> (done: ReplicaChanges<L>)
        requires
            old(self).wf(),
            locals.wf(),
            forall|shard: ShardId, m: &ReplicaState| call_requires(persist, (shard, m)),
        ensures
            always_saves_shards(persist) ==> !is_state_not_saved(done.result),
            final(self).wf(),
            final(self).id == old(self).id,
            final(self).config == old(self).config,
            final(self).before_drop_called == old(self).before_drop_called,
            final(self).shards_holder.temporary_shards == old(self).shards_holder.temporary_shards,
            final(self).shards_holder.shard_transfers == old(self).shards_holder.shard_transfers,
            forall|id: ShardId|
                final(self).shards_holder.shards.has(id) == old(self).shards_holder.shards.has(id),
            forall|id: ShardId|
                !names(replica_changes@, id) ==> final(self).shards_holder.slot(id) == old(
                    self).shards_holder.slot(id),
            forall|k: int|
                0 <= k < done.transfers@.len() ==> asked_by(
                    replica_changes@,
                    #[trigger] done.transfers@[k],
                ),
            done.unused_locals.wf(),
            changes_made(
                &old(self).shards_holder,
                &final(self).shards_holder,
                replica_changes@,
                locals@,
                &done,
            ),
    {
        apply_replica_changes(&mut self.shards_holder, replica_changes, locals, persist)
    }

    /// Changes the parameters of the collection and makes the changes of
    /// the replica sets that come with it.
    ///
    /// Fails with `BadRequest`, and changes nothing, when the new
    /// replication factor is zero. A failure of a change of a replica set is
    /// reported in the result; the parameters are changed then all the
    /// same.
    pub fn update_params_from_diff<P: Fn(ShardId, &ReplicaState) -> bool>(
        &mut self,
        params_diff: &CollectionParamsDiff,
        replica_changes: &Vec<Change>,
        locals: IdMap<ShardId, L>,
        persist: P,
    ) -> (r: Result<ReplicaChanges<L>, CollectionError>)
        requires
            old(self).wf(),
            locals.wf(),
            forall|shard: ShardId, m: &ReplicaState| call_requires(persist, (shard, m)),
        ensures
            final(self).wf(),
            final(self).id == old(self).id,
            final(self).before_drop_called == old(self).before_drop_called,
            final(self).config.params.vectors == old(self).config.params.vectors,
            final(self).config.params.shard_number == old(self).config.params.shard_number,
            params_diff.replication_factor == Some(0u32) ==> is_bad_request(
                r,
                "The replication factor cannot be 0"@,
            ) && final(self).shards_holder == old(self).shards_holder && final(
                self).config.params.replication_factor == old(
                self).config.params.replication_factor,
            params_diff.replication_factor != Some(0u32) ==> r is Ok && final(
                self).config.params.replication_factor == (match params_diff.replication_factor {
                Some(factor) => factor,
                None => old(self).config.params.replication_factor,
            }),
            r matches Ok(done) ==> done.unused_locals.wf() && changes_made(
                &old(self).shards_holder,
                &final(self).shards_holder,
                replica_changes@,
                locals@,
                &done,
            ),
    {
        match self.config.params.update(params_diff) {
            Err(e) => {
                return Err(e);
            },
            Ok(()) => {},
        }
        Ok(apply_replica_changes(&mut self.shards_holder, replica_changes, locals, persist))
    }

    /// The shards that an update from a peer for shard `shard_selection`
    /// goes to, one after the other.
    pub fn update_targets(&self, shard_selection: ShardId) -> (targets: Vec<&Shard<L>>)
        ensures
            match self.shards_holder.temporary(shard_selection) {
                Some(shard) => targets@.len() == 1 && *targets@[0] == shard,
                None => match self.shards_holder.slot(shard_selection) {
                    Some(shard) => targets@.len() == 1 && *targets@[0] == shard,
                    None => targets@.len() == 0,
                },
            },
    {
        self.shards_holder.target_shards(Some(shard_selection))
    }

    /// What an update from a peer returns from the answers of its target
    /// shards: the first error, else the last answer.
    ///
    /// Fails with a service error when the update had no target.
    pub fn update_from_peer(
        results: Vec<Result<UpdateResult, CollectionError>>,
        shard_selection: ShardId,
    ) -> (r: Result<UpdateResult, CollectionError>)
        ensures
            results@.len() == 0 ==> is_service_error(
                r,
                numbered("No target shard "@, shard_selection as nat, " found for update"@),
            ),
            results@.len() > 0 ==> r == (if first_failure(results@) < results@.len() {
                results@[first_failure(results@)]
            } else {
                results@[results@.len() - 1]
            }),
    {
        match conclude_peer_update(results) {
            Some(result) => result,
            None => Err(
                CollectionError::service_error(
                    text_with_number(
                        "No target shard ",
                        shard_selection as u64,
                        " found for update",
                    ),
                ),
            ),
        }
    }

    /// Checks an update of a client and splits it into the parts that the
    /// shards get. See [`crate::shard_holder::ShardHolder::split_by_shard`].
    ///
    /// Fails with `BadRequest` when the update is not well formed.
    pub fn update_from_client(&self, operation: CollectionUpdateOperations) -> (r: Result<
        Vec<(ShardId, CollectionUpdateOperations)>,
        CollectionError,
    >)
        requires
            self.wf(),
        ensures
            !operation.is_valid() ==> is_bad_request(r, operation.fault()),
            operation.is_valid() ==> r is Ok && ({
                let parts = r->Ok_0;
                &&& parts@.map_values(|e: (ShardId, CollectionUpdateOperations)| e.0) == receivers(
                    self.shards_holder.shards.entries(),
                    operation,
                    self.shards_holder.ring.keys(),
                )
                &&& forall|i: int|
                    0 <= i < parts@.len() ==> (#[trigger] parts@[i]).1.is_share_of(
                        &operation,
                        self.shards_holder.ring.keys(),
                        parts@[i].0,
                    )
            }),
    {
        match operation.validate() {
            Err(e) => Err(e),
            Ok(()) => Ok(self.shards_holder.split_by_shard(operation)),
        }
    }

    /// Decides how a batch of searches is run: in two steps when payload or
    /// vectors are asked for and the shards together may return more than ten
    /// times as many records as the results hold.
    pub fn search_batch(&self, request: &SearchRequestBatch) -> (plan: SearchPlan)
        requires
            sum_limits(request.searches@) + sum_offsets(request.searches@) <= usize::MAX,
        ensures
            match plan {
                SearchPlan::Direct => !two_step(
                    request.searches@,
                    self.shards_holder.shards.entries().len() as int,
                ),
                SearchPlan::TwoStep(stripped) => two_step(
                    request.searches@,
                    self.shards_holder.shards.entries().len() as int,
                ) && stripped@.len() == request.searches@.len() && forall|i: int|
                    0 <= i < stripped@.len() ==> is_stripped(
                        #[trigger] stripped@[i],
                        request.searches@[i],
                    ),
            },
    {
        if !is_two_step_search(&request.searches, self.shards_holder.len()) {
            return SearchPlan::Direct;
        }
        let mut stripped: Vec<SearchRequest> = Vec::new();
        let mut i: usize = 0;
        while i < request.searches.len()
            invariant
                i <= request.searches.len(),
                stripped@.len() == i,
                forall|k: int|
                    0 <= k < i ==> is_stripped(#[trigger] stripped@[k], request.searches@[k]),
            decreases request.searches.len() - i,
        {
            stripped.push(without_payload(&request.searches[i]));
            i += 1;
        }
        SearchPlan::TwoStep(stripped)
    }

    /// Computes the results of a batch of searches from the results of the
    /// shards: for each search the best `limit + offset` points of all
    /// shards, best first by the distance of the vector that was searched,
    /// without the first `offset` when a client called. A call from a peer
    /// names the shard in `shard_selection` and keeps the offset, which is
    /// taken off once, where the client called.
    ///
    /// Fails with `BadRequest` when the collection has no vector of the name
    /// that a search uses.
    pub fn _search_batch(
        &self,
        request: &SearchRequestBatch,
        shard_results: Vec<Vec<Vec<ScoredPoint>>>,
        shard_selection: Option<ShardId>,
    ) -> (r: Result<Vec<Vec<ScoredPoint>>, CollectionError>)
        requires
            forall|s: int|
                0 <= s < shard_results@.len() ==> (#[trigger] shard_results@[s])@.len()
                    <= request.searches@.len(),
            forall|q: int|
                0 <= q < request.searches@.len() ==> (#[trigger] request.searches@[q]).limit
                    + request.searches@[q].offset <= usize::MAX,
        ensures
            first_unknown_vector(request.searches@, self.config.params.vectors@)
                < request.searches@.len() ==> is_bad_request(
                r,
                "Vector params for the named vector are not specified in config"@,
            ),
            first_unknown_vector(request.searches@, self.config.params.vectors@)
                >= request.searches@.len() ==> r is Ok && r->Ok_0@.len() == request.searches@.len()
                && forall|q: int|
                0 <= q < request.searches@.len() ==> (#[trigger] r->Ok_0@[q])@ == query_result(
                    merged_for(shard_results@, q),
                    request.searches@[q].limit as int,
                    request.searches@[q].offset as int,
                    self.config.params.vectors@[vector_index(
                        self.config.params.vectors@,
                        request.searches@[q].vector_name@,
                    )].distance.spec_distance_order(),
                    shard_selection,
                ),
    {
        let searches = &request.searches;
        let batch_size = searches.len();
        let merged = merge_shard_results(shard_results, batch_size);
        let ghost lists = merged@;
        let mut rest = crate::operations::reverse(merged);
        let mut results: Vec<Vec<ScoredPoint>> = Vec::new();
        let mut q: usize = 0;
        assert(searches@.skip(0) == searches@);
        while q < batch_size
            invariant
                q <= batch_size,
                batch_size == searches@.len(),
                lists.len() == batch_size,
                searches@ == request.searches@,
                rest@.len() == batch_size - q,
                forall|i: int| 0 <= i < rest@.len() ==> #[trigger] rest@[i] == lists[batch_size - 1 - i],
                forall|k: int| 0 <= k < batch_size ==> (#[trigger] lists[k])@ == merged_for(
                    shard_results@,
                    k,
                ),
                forall|k: int|
                    0 <= k < searches@.len() ==> (#[trigger] searches@[k]).limit
                        + searches@[k].offset <= usize::MAX,
                first_unknown_vector(searches@, self.config.params.vectors@) == q
                    + first_unknown_vector(searches@.skip(q as int), self.config.params.vectors@),
                results@.len() == q,
                forall|k: int|
                    0 <= k < q ==> (#[trigger] results@[k])@ == query_result(
                        merged_for(shard_results@, k),
                        searches@[k].limit as int,
                        searches@[k].offset as int,
                        self.config.params.vectors@[vector_index(
                            self.config.params.vectors@,
                            searches@[k].vector_name@,
                        )].distance.spec_distance_order(),
                        shard_selection,
                    ),
            decreases batch_size - q,
        {
            let search = &searches[q];
            proof {
                assert(searches@.skip(q as int).skip(1) == searches@.skip(q + 1));
                assert(searches@.skip(q as int)[0] == searches@[q as int]);
            }
            let order = match self.config.params.get_vector_params(&search.vector_name) {
                Ok(params) => params.distance.distance_order(),
                Err(e) => {
                    return Err(e);
                },
            };
            let list = rest.pop().unwrap();
            assert(list == lists[q as int]);
            let result = top_result(list, search.limit, search.offset, order, shard_selection);
            results.push(result);
            q += 1;
        }
        Ok(results)
    }

    /// The result of one search from the results of the shards. See
    /// [`Collection::_search_batch`].
    pub fn search(
        &self,
        request: SearchRequest,
        shard_results: Vec<Vec<ScoredPoint>>,
        shard_selection: Option<ShardId>,
    ) -> (r: Result<Vec<ScoredPoint>, CollectionError>)
        requires
            request.limit + request.offset <= usize::MAX,
        ensures
            vector_index(self.config.params.vectors@, request.vector_name@)
                >= self.config.params.vectors@.len() ==> is_bad_request(
                r,
                "Vector params for the named vector are not specified in config"@,
            ),
            vector_index(self.config.params.vectors@, request.vector_name@)
                < self.config.params.vectors@.len() ==> r is Ok && r->Ok_0@ == query_result(
                flattened_points(shard_results@),
                request.limit as int,
                request.offset as int,
                self.config.params.vectors@[vector_index(
                    self.config.params.vectors@,
                    request.vector_name@,
                )].distance.spec_distance_order(),
                shard_selection,
            ),
    {
        let order = match self.config.params.get_vector_params(&request.vector_name) {
            Ok(params) => params.distance.distance_order(),
            Err(e) => {
                return Err(e);
            },
        };
        let ghost all = shard_results@;
        let mut merged: Vec<ScoredPoint> = Vec::new();
        let mut rest = crate::operations::reverse(shard_results);
        let ghost mut done: int = 0;
        while rest.len() > 0
            invariant
                0 <= done <= all.len(),
                rest@.len() == all.len() - done,
                forall|i: int| 0 <= i < rest@.len() ==> #[trigger] rest@[i] == all[all.len() - 1 - i],
                merged@ == flattened_points(all.take(done)),
            decreases rest@.len(),
        {
            let mut list = rest.pop().unwrap();
            proof {
                assert(list == all[done]);
                assert(all.take(done + 1).drop_last() == all.take(done));
                assert(all.take(done + 1).last() == list);
            }
            merged.append(&mut list);
            proof {
                done = done + 1;
            }
        }
        assert(all.take(done) == all);
        Ok(top_result(merged, request.limit, request.offset, order, shard_selection))
    }

    /// Turns a batch of recommendations into a batch of searches, with the
    /// records of the reference points at hand. See [`recommend_searches`].
    pub fn recommend_batch_by<F: Fn(&Vec<VectorBits>, &Vec<VectorBits>) -> VectorBits>(
        requests: &Vec<RecommendRequest>,
        records: &Vec<VectorRecord>,
        target: F,
    ) -> (r: Result<SearchRequestBatch, CollectionError>)
        requires
            forall|positive: &Vec<VectorBits>, negative: &Vec<VectorBits>|
                call_requires(target, (positive, negative)),
        ensures
            first_without_positive(requests@) < requests@.len() ==> is_bad_request(
                r,
                "At least one positive vector ID required"@,
            ),
            first_without_positive(requests@) >= requests@.len() ==> ({
                let k = first_unreferable(requests@, records@);
                if k < requests@.len() {
                    if first_lacking(records@, requests@[k].vector_name()) < records@.len() {
                        is_bad_request(
                            r,
                            "The vector to use is not among the vectors of a reference point"@,
                        )
                    } else {
                        r matches Err(CollectionError::PointNotFound { missed_point_id })
                            && missed_point_id == requests@[k].reference()[first_missing(
                            requests@[k].reference(),
                            records@,
                        )]
                    }
                } else {
                    &&& r matches Ok(batch)
                    &&& batch.searches@.len() == requests@.len()
                    &&& forall|q: int|
                        0 <= q < requests@.len() ==> is_search_for(
                            #[trigger] batch.searches@[q],
                            requests@[q],
                        ) && batch.searches@[q].vector_name@ == requests@[q].vector_name() && aimed(
                            target,
                            requests@[q],
                            records@,
                            batch.searches@[q].vector,
                        )
                }
            }),
    {
        match recommend_searches(requests, records, target) {
            Ok(searches) => Ok(SearchRequestBatch { searches }),
            Err(e) => Err(e),
        }
    }

    /// The number of records to ask each shard for, for a page of
    /// `request`: one more than the size of the page.
    ///
    /// Fails with `BadRequest` when the size of the page is 0.
    pub fn scroll_limit(request: &ScrollRequest) -> (r: Result<usize, CollectionError>)
        requires
            request.page_size() < usize::MAX,
        ensures
            request.page_size() == 0 ==> is_bad_request(r, "Limit cannot be 0"@),
            request.page_size() > 0 ==> r == Ok::<usize, CollectionError>(
                (request.page_size() + 1) as usize,
            ),
    {
        let limit = match request.limit {
            Some(limit) => limit,
            None => DEFAULT_SCROLL_LIMIT,
        };
        if limit == 0 {
            Err(CollectionError::BadRequest { description: "Limit cannot be 0".to_string() })
        } else {
            Ok(limit + 1)
        }
    }

    /// Makes the page of `request` from the records that the shards
    /// returned. See [`scroll_page`].
    pub fn scroll_by(request: &ScrollRequest, shard_records: Vec<Vec<Record>>) -> (r: Result<
        ScrollResult,
        CollectionError,
    >)
        requires
            request.page_size() < usize::MAX,
        ensures
            request.page_size() == 0 ==> is_bad_request(r, "Limit cannot be 0"@),
            request.page_size() > 0 ==> r is Ok && ({
                let first = first_by_id(flattened(shard_records@), request.page_size() + 1);
                let page = r->Ok_0;
                if first.len() <= request.page_size() {
                    page.points@ == first && page.next_page_offset.is_none()
                } else {
                    page.points@ == first.take(request.page_size() as int)
                        && page.next_page_offset == Some(first[request.page_size() as int].id)
                }
            }),
    {
        let limit = match request.limit {
            Some(limit) => limit,
            None => DEFAULT_SCROLL_LIMIT,
        };
        scroll_page(shard_records, limit)
    }
}

/// All points of `lists`, list by list.
pub open spec fn flattened_points(lists: Seq<Vec<ScoredPoint>>) -> Seq<ScoredPoint>
    decreases lists.len(),
{
    if lists.len() == 0 {
        Seq::empty()
    } else {
        flattened_points(lists.drop_last()) + lists.last()@
    }
}

} // verus!
