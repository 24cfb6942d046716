//! The configuration of a collection.

use vstd::prelude::*;
use crate::search::Order;
use crate::types::{is_bad_request, CollectionError};

verus! {

/// How the distance between two vectors is measured.
#[derive(Clone, Copy, Debug, PartialEq, Eq, Structural)]
pub enum Distance {
    Cosine,
    Euclid,
    Dot,
}

impl Distance {
    /// Which scores of the distance are better: a similarity is better when
    /// larger, a distance when smaller.
    pub open spec fn spec_distance_order(&self) -> Order {
        match self {
            Distance::Cosine => Order::LargeBetter,
            Distance::Dot => Order::LargeBetter,
            Distance::Euclid => Order::SmallBetter,
        }
    }

    /// Which scores of the distance are better.
    pub fn distance_order(&self) -> (order: Order)
        ensures
            order == self.spec_distance_order(),
    {
        match self {
            Distance::Cosine => Order::LargeBetter,
            Distance::Dot => Order::LargeBetter,
            Distance::Euclid => Order::SmallBetter,
        }
    }
}

/// The parameters of one named vector.
pub struct VectorParams {
    /// The name of the vector; empty for the default vector.
    pub name: String,
    pub size: u64,
    pub distance: Distance,
}

/// The parameters of a collection.
pub struct CollectionParams {
    pub vectors: Vec<VectorParams>,
    pub shard_number: u32,
    pub replication_factor: u32,
    pub on_disk_payload: bool,
}

/// A change of the parameters of a collection.
pub struct CollectionParamsDiff {
    pub replication_factor: Option<u32>,
}

/// The configuration of a collection. The configurations of the index, the
/// optimizers and the write-ahead log are held encoded.
pub struct CollectionConfig {
    pub params: CollectionParams,
    pub hnsw_config: Vec<u8>,
    pub optimizer_config: Vec<u8>,
    pub wal_config: Vec<u8>,
}

/// Index of the first vector named `name`, or the number of vectors when
/// none has the name.
pub open spec fn vector_index(vectors: Seq<VectorParams>, name: Seq<char>) -> int
    decreases vectors.len(),
{
    if vectors.len() == 0 {
        0
    } else if vectors[0].name@ == name {
        0
    } else {
        1 + vector_index(vectors.skip(1), name)
    }
}

/// `vector_index` is an index of the vectors, or their number.
pub proof fn lemma_vector_index(vectors: Seq<VectorParams>, name: Seq<char>)
    ensures
        0 <= vector_index(vectors, name) <= vectors.len(),
        vector_index(vectors, name) < vectors.len() ==> vectors[vector_index(vectors, name)].name@
            == name,
    decreases vectors.len(),
{
    if vectors.len() > 0 && vectors[0].name@ != name {
        lemma_vector_index(vectors.skip(1), name);
    }
}

impl CollectionParams {
    /// The shard number and the replication factor are not zero.
    pub open spec fn is_valid(&self) -> bool {
        self.shard_number > 0 && self.replication_factor > 0
    }

    /// The parameters of the vector named `vector_name`.
    ///
    /// Fails with `BadRequest` when the collection has no vector of the
    /// name.
    pub fn get_vector_params(&self, vector_name: &String) -> (r: Result<
        &VectorParams,
        CollectionError,
    >)
        ensures
            vector_index(self.vectors@, vector_name@) < self.vectors@.len() ==> r is Ok
                && *r->Ok_0 == self.vectors@[vector_index(self.vectors@, vector_name@)],
            vector_index(self.vectors@, vector_name@) >= self.vectors@.len() ==> is_bad_request(
                r,
                "Vector params for the named vector are not specified in config"@,
            ),
    {
        let mut i: usize = 0;
        assert(self.vectors@.skip(0) == self.vectors@);
        while i < self.vectors.len()
            invariant
                i <= self.vectors.len(),
                vector_index(self.vectors@, vector_name@) == i + vector_index(
                    self.vectors@.skip(i as int),
                    vector_name@,
                ),
            decreases self.vectors.len() - i,
        {
            proof {
                assert(self.vectors@.skip(i as int).skip(1) == self.vectors@.skip(i + 1));
            }
            if self.vectors[i].name == *vector_name {
                return Ok(&self.vectors[i]);
            }
            i += 1;
        }
        Err(
            CollectionError::BadRequest {
                description: "Vector params for the named vector are not specified in config".to_string(),
            },
        )
    }

    /// Applies a change to the parameters: a replication factor that the
    /// change names replaces the present one.
    ///
    /// Fails with `BadRequest` when the change names the replication factor
    /// zero.
    pub fn update(&mut self, diff: &CollectionParamsDiff) -> (r: Result<(), CollectionError>)
        ensures
            final(self).vectors == old(self).vectors,
            final(self).shard_number == old(self).shard_number,
            final(self).on_disk_payload == old(self).on_disk_payload,
            match diff.replication_factor {
                None => r is Ok && final(self).replication_factor == old(self).replication_factor,
                Some(factor) => if factor == 0 {
                    is_bad_request(r, "The replication factor cannot be 0"@) && final(
                        self).replication_factor == old(self).replication_factor
                } else {
                    r is Ok && final(self).replication_factor == factor
                },
            },
    {
        match diff.replication_factor {
            None => Ok(()),
            Some(factor) => {
                if factor == 0 {
                    Err(
                        CollectionError::BadRequest {
                            description: "The replication factor cannot be 0".to_string(),
                        },
                    )
                } else {
                    self.replication_factor = factor;
                    Ok(())
                }
            },
        }
    }
}

} // verus!
