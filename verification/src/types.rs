//! Identifiers and errors shared by the whole crate.

use vstd::prelude::*;
use crate::id_map::Id;

verus! {

/// Identifies a peer of the cluster.
pub type PeerId = u64;

/// Identifies a shard within a collection.
pub type ShardId = u32;

/// Sequence number of a write on a local shard.
pub type SeqNumberType = u64;

/// A text around a number: `prefix`, the number in decimal digits, `suffix`.
pub open spec fn numbered(prefix: Seq<char>, n: nat, suffix: Seq<char>) -> Seq<char> {
    prefix + decimal(n) + suffix
}

/// True when `r` is a service error with the text `text`.
pub open spec fn is_service_error<T>(r: Result<T, CollectionError>, text: Seq<char>) -> bool {
    r matches Err(CollectionError::ServiceError { error }) && error@ == text
}

/// True when `r` is the error `NotFound` for the thing named `what`.
pub open spec fn is_not_found<T>(r: Result<T, CollectionError>, what: Seq<char>) -> bool {
    r matches Err(CollectionError::NotFound { what: named }) && named@ == what
}

/// True when `r` is the error `BadRequest` with the description `text`.
pub open spec fn is_bad_request<T>(r: Result<T, CollectionError>, text: Seq<char>) -> bool {
    r matches Err(CollectionError::BadRequest { description }) && description@ == text
}

/// True when `save` never answers `false`: whatever it is handed is saved.
pub open spec fn always_saves<T, P: Fn(&T) -> bool>(save: P) -> bool {
    forall|value: &T, saved: bool| call_ensures(save, (value,), saved) ==> saved
}

/// True when `save`, which is told the shard that a value belongs to, never
/// answers `false`.
pub open spec fn always_saves_shards<T, P: Fn(ShardId, &T) -> bool>(save: P) -> bool {
    forall|shard: ShardId, value: &T, saved: bool|
        call_ensures(save, (shard, value), saved) ==> saved
}

/// Identifies a point: a number or a UUID, held as its 128-bit value.
#[derive(Clone, Copy, Debug, PartialEq, Eq, Structural, Hash)]
pub enum PointId {
    NumId(u64),
    Uuid(u128),
}

impl PointId {
    /// Place of the id in the order of point ids: every number comes before
    /// every UUID; numbers and UUIDs are ordered by value.
    pub open spec fn rank(self) -> int {
        match self {
            PointId::NumId(n) => n as int,
            PointId::Uuid(u) => 0x1_0000_0000_0000_0000 + u as int,
        }
    }

    /// True when `self` comes strictly before `other`.
    pub fn precedes(&self, other: &PointId) -> (b: bool)
        ensures
            b == (self.rank() < other.rank()),
    {
        match (self, other) {
            (PointId::NumId(a), PointId::NumId(b)) => *a < *b,
            (PointId::NumId(_), PointId::Uuid(_)) => true,
            (PointId::Uuid(_), PointId::NumId(_)) => false,
            (PointId::Uuid(a), PointId::Uuid(b)) => *a < *b,
        }
    }

    /// The pair of integers by which point ids are ordered: the kind, then
    /// the value.
    pub fn order_key(&self) -> (k: (u8, u128))
        ensures
            k == self.spec_order_key(),
    {
        match self {
            PointId::NumId(n) => (0u8, *n as u128),
            PointId::Uuid(u) => (1u8, *u),
        }
    }

    /// See [`PointId::order_key`].
    pub open spec fn spec_order_key(self) -> (u8, u128) {
        match self {
            PointId::NumId(n) => (0u8, n as u128),
            PointId::Uuid(u) => (1u8, u),
        }
    }
}

/// Lexicographic order of key pairs.
pub open spec fn key_le(a: (u8, u128), b: (u8, u128)) -> bool {
    a.0 < b.0 || (a.0 == b.0 && a.1 <= b.1)
}

/// The key pair orders point ids as their rank does.
pub proof fn lemma_order_key_is_rank(a: PointId, b: PointId)
    ensures
        key_le(a.spec_order_key(), b.spec_order_key()) <==> a.rank() <= b.rank(),
        a.spec_order_key() == b.spec_order_key() <==> a == b,
{
}

impl Id for PointId {
    fn same(&self, other: &Self) -> (b: bool) {
        *self == *other
    }
}

/// Errors of collection operations.
#[derive(Debug)]
pub enum CollectionError {
    /// A collection, shard, replica or snapshot is absent.
    NotFound { what: String },
    /// A batch operation named a point that no segment holds.
    PointNotFound { missed_point_id: PointId },
    /// The request itself is wrong.
    BadRequest { description: String },
    /// Some shards applied an update and some did not.
    InconsistentShardFailure { shards_total: u32, shards_failed: u32, first_err: Box<CollectionError> },
    /// Internal or transient failure; the call may be tried again.
    ServiceError { error: String },
    /// The operation was cancelled.
    Cancelled { description: String },
    /// A deadline passed.
    Timeout,
}

/// The words that say on which peer an error came up; they stand in front
/// of what the error says.
pub open spec fn on_peer_prefix(peer: PeerId) -> Seq<char> {
    numbered("Peer "@, peer as nat, ": "@)
}

impl CollectionError {
    /// What the error says, without its kind.
    pub open spec fn text(&self) -> Seq<char> {
        match self {
            CollectionError::NotFound { what } => what@,
            CollectionError::BadRequest { description } => description@,
            CollectionError::ServiceError { error } => error@,
            CollectionError::Cancelled { description } => description@,
            CollectionError::PointNotFound { .. } => "a point was not found"@,
            CollectionError::InconsistentShardFailure { .. } =>
                "some shards failed and some did not"@,
            CollectionError::Timeout => "the deadline has passed"@,
        }
    }

    /// True when `self` is `error` as it came up on `peer`: it says what
    /// `error` says, behind the words that name the peer. It is of the kind
    /// of `error` where that kind holds a text, and a service error else.
    pub open spec fn is_on_peer(&self, error: CollectionError, peer: PeerId) -> bool {
        let said = on_peer_prefix(peer) + error.text();
        match error {
            CollectionError::NotFound { .. } => *self matches CollectionError::NotFound { what }
                && what@ == said,
            CollectionError::BadRequest { .. } => *self matches CollectionError::BadRequest {
                description,
            } && description@ == said,
            CollectionError::Cancelled { .. } => *self matches CollectionError::Cancelled {
                description,
            } && description@ == said,
            _ => *self matches CollectionError::ServiceError { error: text } && text@ == said,
        }
    }

    /// The error as it came up on the peer `peer_id`: with the peer named
    /// in front of what the error says.
    pub fn on_peer(self, peer_id: PeerId) -> (e: CollectionError)
        ensures
            e.is_on_peer(self, peer_id),
    {
        let mut said = text_with_number("Peer ", peer_id, ": ");
        match self {
            CollectionError::NotFound { what } => {
                said.append(what.as_str());
                CollectionError::NotFound { what: said }
            },
            CollectionError::BadRequest { description } => {
                said.append(description.as_str());
                CollectionError::BadRequest { description: said }
            },
            CollectionError::Cancelled { description } => {
                said.append(description.as_str());
                CollectionError::Cancelled { description: said }
            },
            CollectionError::ServiceError { error } => {
                said.append(error.as_str());
                CollectionError::ServiceError { error: said }
            },
            CollectionError::PointNotFound { .. } => {
                said.append("a point was not found");
                CollectionError::ServiceError { error: said }
            },
            CollectionError::InconsistentShardFailure { .. } => {
                said.append("some shards failed and some did not");
                CollectionError::ServiceError { error: said }
            },
            CollectionError::Timeout => {
                said.append("the deadline has passed");
                CollectionError::ServiceError { error: said }
            },
        }
    }

    /// A `ServiceError` with the given text.
    pub fn service_error(error: String) -> (e: CollectionError)
        ensures
            e == (CollectionError::ServiceError { error }),
    {
        CollectionError::ServiceError { error }
    }
}

/// The decimal digits of `n`, most significant first.
pub open spec fn decimal(n: nat) -> Seq<char>
    decreases n,
{
    if n < 10 {
        seq![digit(n)]
    } else {
        decimal(n / 10).push(digit(n % 10))
    }
}

/// The character of a decimal digit.
pub open spec fn digit(d: nat) -> char {
    if d == 0 {
        '0'
    } else if d == 1 {
        '1'
    } else if d == 2 {
        '2'
    } else if d == 3 {
        '3'
    } else if d == 4 {
        '4'
    } else if d == 5 {
        '5'
    } else if d == 6 {
        '6'
    } else if d == 7 {
        '7'
    } else if d == 8 {
        '8'
    } else {
        '9'
    }
}

/// Builds a message around a number. Formats through `std::format!`: the
/// result is `prefix`, then `n` in decimal without sign or padding, then
/// `suffix`. Not proved: the claim rests on the formatting of `&str` and `u64`
/// by std's `Display`.
#[verifier::external_body]
pub(crate) fn text_with_number(prefix: &str, n: u64, suffix: &str) -> (text: String)
    ensures
        text@ == prefix@ + decimal(n as nat) + suffix@,
{
    format!("{}{}{}", prefix, n, suffix)
}

} // verus!
