//! The state of this peer in the consensus of the cluster: the persistent
//! consensus state, the log, and the application of committed entries.
//!
//! The state answers the reads of the consensus engine from its log and its
//! latest snapshot, and decides, entry by entry, how the committed entries
//! are applied. What an entry does to the collections is done by the caller,
//! who reports the result back.

use vstd::prelude::*;
use crate::consensus_wal::{
    entry_at, lemma_limited_range, limited_range, range_of, same_entries, views, ConsensusOpWal,
    EntryApplyProgressQueue, EntryId, EntryType, EntryView, LogError, RaftEntry,
};
use crate::collection_state::State;
use crate::id_map::IdMap;
use crate::types::{always_saves, numbered, text_with_number, PeerId};

verus! {

/// Errors of operations on the storage of a peer.
#[derive(Debug)]
pub enum StorageError {
    /// The request is wrong.
    BadInput { description: String },
    /// What the request names does not exist.
    NotFound { description: String },
    /// Internal or transient failure; the operation may be tried again.
    ServiceError { description: String },
    /// The request cannot be served in the present state.
    BadRequest { description: String },
}

impl StorageError {
    /// A `ServiceError` with the given text.
    pub fn service_error(description: &str) -> (e: StorageError)
        ensures
            e matches StorageError::ServiceError { description: d } && d@ == description@,
    {
        StorageError::ServiceError { description: description.to_string() }
    }

    /// True for a service error. Every other error is an error of the user.
    pub fn is_service_error(&self) -> (b: bool)
        ensures
            b == (*self is ServiceError),
    {
        match self {
            StorageError::ServiceError { .. } => true,
            _ => false,
        }
    }

    /// A copy of the error.
    pub fn duplicate(&self) -> (copy: StorageError)
        ensures
            copy.same(self),
    {
        match self {
            StorageError::BadInput { description } => StorageError::BadInput {
                description: description.clone(),
            },
            StorageError::NotFound { description } => StorageError::NotFound {
                description: description.clone(),
            },
            StorageError::ServiceError { description } => StorageError::ServiceError {
                description: description.clone(),
            },
            StorageError::BadRequest { description } => StorageError::BadRequest {
                description: description.clone(),
            },
        }
    }

    /// True when `other` is the same kind of error with the same text.
    pub open spec fn same(&self, other: &StorageError) -> bool {
        match (*self, *other) {
            (
                StorageError::BadInput { description: a },
                StorageError::BadInput { description: b },
            ) => a@ == b@,
            (
                StorageError::NotFound { description: a },
                StorageError::NotFound { description: b },
            ) => a@ == b@,
            (
                StorageError::ServiceError { description: a },
                StorageError::ServiceError { description: b },
            ) => a@ == b@,
            (
                StorageError::BadRequest { description: a },
                StorageError::BadRequest { description: b },
            ) => a@ == b@,
            _ => false,
        }
    }
}

/// An operation that goes through consensus.
pub enum ConsensusOperations {
    /// An encoded operation on the collections.
    CollectionMeta(Vec<u8>),
    /// A peer with its address joins.
    AddPeer(PeerId, String),
    /// A peer leaves.
    RemovePeer(PeerId),
}

/// The state that the consensus engine wants kept across restarts.
#[derive(Clone, Copy, Debug, PartialEq, Eq, Structural)]
pub struct HardState {
    pub term: u64,
    pub vote: u64,
    pub commit: u64,
}

/// The members of the consensus group.
pub struct ConfState {
    pub voters: Vec<u64>,
    pub learners: Vec<u64>,
    pub voters_outgoing: Vec<u64>,
    pub learners_next: Vec<u64>,
    pub auto_leave: bool,
}

/// The hard state and the members.
pub struct RaftState {
    pub hard_state: HardState,
    pub conf_state: ConfState,
}

/// Index and term of a snapshot.
#[derive(Clone, Copy, Debug, PartialEq, Eq, Structural)]
pub struct SnapshotMetadata {
    pub index: u64,
    pub term: u64,
}

/// The role of a peer in the consensus group.
#[derive(Clone, Copy, Debug, PartialEq, Eq, Structural)]
pub enum StateRole {
    Follower,
    Candidate,
    Leader,
    PreCandidate,
}

/// The volatile state of the consensus engine.
#[derive(Clone, Copy, Debug, PartialEq, Eq, Structural)]
pub struct SoftState {
    pub leader_id: u64,
    pub raft_state: StateRole,
}

/// How the thread that runs consensus is doing.
pub enum ConsensusThreadStatus {
    Working,
    Stopped,
    StoppedWithErr { err: String },
}

/// One change of the members of the consensus group.
#[derive(Clone, Copy, Debug, PartialEq, Eq, Structural)]
pub enum ConfChangeType {
    AddNode,
    RemoveNode,
    AddLearnerNode,
}

/// A change of one member.
#[derive(Clone, Copy, Debug, PartialEq, Eq, Structural)]
pub struct ConfChangeSingle {
    pub change_type: ConfChangeType,
    pub node_id: u64,
}

/// The part of the consensus state that is kept on disk.
pub struct Persistent {
    pub state: RaftState,
    pub latest_snapshot_meta: SnapshotMetadata,
    pub apply_progress_queue: EntryApplyProgressQueue,
    pub peer_address_by_id: IdMap<PeerId, String>,
    pub this_peer_id: PeerId,
    /// True when the queue has changed since it was saved.
    pub dirty: bool,
}

impl Persistent {
    /// The state as it is handed to the function that saves it: without the
    /// mark of a queue that is yet to be saved.
    pub open spec fn clean(self) -> Persistent {
        Persistent {
            state: self.state,
            latest_snapshot_meta: self.latest_snapshot_meta,
            apply_progress_queue: self.apply_progress_queue,
            peer_address_by_id: self.peer_address_by_id,
            this_peer_id: self.this_peer_id,
            dirty: false,
        }
    }

    /// The state with `meta` as its latest snapshot.
    pub open spec fn with_snapshot(self, meta: SnapshotMetadata) -> Persistent {
        Persistent {
            state: self.state,
            latest_snapshot_meta: meta,
            apply_progress_queue: self.apply_progress_queue,
            peer_address_by_id: self.peer_address_by_id,
            this_peer_id: self.this_peer_id,
            dirty: self.dirty,
        }
    }

    /// No peer has two addresses, and the index of the snapshot has a
    /// successor.
    pub open spec fn wf(&self) -> bool {
        self.peer_address_by_id.wf() && self.latest_snapshot_meta.index < u64::MAX
    }

    /// The persistent state of a peer that starts afresh.
    pub fn new(this_peer_id: PeerId) -> (persistent: Self)
        ensures
            persistent.wf(),
            persistent.this_peer_id == this_peer_id,
            persistent.state.hard_state == (HardState { term: 0, vote: 0, commit: 0 }),
            persistent.state.conf_state.voters@.len() == 0,
            persistent.state.conf_state.learners@.len() == 0,
            persistent.latest_snapshot_meta == (SnapshotMetadata { index: 0, term: 0 }),
            persistent.apply_progress_queue.0.is_none(),
            persistent.peer_address_by_id.entries().len() == 0,
            !persistent.dirty,
    {
        Persistent {
            state: RaftState {
                hard_state: HardState { term: 0, vote: 0, commit: 0 },
                conf_state: ConfState {
                    voters: Vec::new(),
                    learners: Vec::new(),
                    voters_outgoing: Vec::new(),
                    learners_next: Vec::new(),
                    auto_leave: false,
                },
            },
            latest_snapshot_meta: SnapshotMetadata { index: 0, term: 0 },
            apply_progress_queue: EntryApplyProgressQueue(None),
            peer_address_by_id: IdMap::new(),
            this_peer_id,
            dirty: false,
        }
    }

    /// The hard state and the members.
    pub fn state(&self) -> (state: &RaftState)
        ensures
            *state == self.state,
    {
        &self.state
    }

    /// The entry to apply next, if any is left.
    pub fn current_unapplied_entry(&self) -> (r: Option<EntryId>)
        ensures
            r == self.apply_progress_queue.spec_current(),
    {
        self.apply_progress_queue.current()
    }

    /// The entry that was applied last, if any.
    pub fn last_applied_entry(&self) -> (r: Option<EntryId>)
        ensures
            r == match self.apply_progress_queue.0 {
                Some((current, _)) => if current == 0 {
                    None
                } else {
                    Some((current - 1) as u64)
                },
                None => None,
            },
    {
        self.apply_progress_queue.get_last_applied()
    }

    /// Number of entries left to apply.
    pub fn unapplied_entities_count(&self) -> (n: usize)
        ensures
            self.apply_progress_queue.spec_len() <= usize::MAX ==> n
                == self.apply_progress_queue.spec_len(),
            self.apply_progress_queue.spec_len() > usize::MAX ==> n == usize::MAX,
    {
        self.apply_progress_queue.len()
    }

    /// Sets the entries to apply to those from `first_index` to
    /// `last_index`. The change is saved with the next save.
    pub fn set_unapplied_entries(&mut self, first_index: EntryId, last_index: EntryId)
        ensures
            final(self).apply_progress_queue.0 == Some((first_index, last_index)),
            final(self).dirty,
            final(self).state == old(self).state,
            final(self).latest_snapshot_meta == old(self).latest_snapshot_meta,
            final(self).peer_address_by_id == old(self).peer_address_by_id,
            final(self).this_peer_id == old(self).this_peer_id,
    {
        self.apply_progress_queue = EntryApplyProgressQueue::new(first_index, last_index);
        self.dirty = true;
    }
}

/// The text of the error that a failed write of the consensus state gives.
pub open spec fn not_saved() -> Seq<char> {
    "Failed to save the consensus state"@
}

/// True when `saved` is the answer of `persist` to `state`: the state was
/// handed to it, without the mark of a queue that is yet to be saved, and
/// what it answered is `saved`. A state that was saved bears no such mark.
pub open spec fn is_saving<P: Fn(&Persistent) -> bool>(
    persist: P,
    state: Persistent,
    saved: bool,
) -> bool {
    call_ensures(persist, (&state.clean(),), saved) && (saved ==> state == state.clean())
}

/// True when `r` is a service error with the description `text`.
pub open spec fn is_service_failure<T>(r: Result<T, StorageError>, text: Seq<char>) -> bool {
    r matches Err(StorageError::ServiceError { description }) && description@ == text
}

/// True when `r` is the error of a consensus state that could not be saved.
pub open spec fn is_not_saved<T>(r: Result<T, StorageError>) -> bool {
    r matches Err(StorageError::ServiceError { description }) && description@ == not_saved()
}

/// The state of this peer in the consensus of the cluster.
pub struct ConsensusState {
    pub persistent: Persistent,
    pub is_leader_established: bool,
    pub wal: ConsensusOpWal,
    pub soft_state: Option<SoftState>,
    pub first_voter: Option<PeerId>,
    pub consensus_thread_status: ConsensusThreadStatus,
}

impl ConsensusState {
    /// The persistent state and the log are sound.
    pub open spec fn wf(&self) -> bool {
        self.persistent.wf() && self.wal.wf()
    }

    /// The consensus state of a peer with the persistent state
    /// `persistent_state` and the log `wal`.
    pub fn new(persistent_state: Persistent, wal: ConsensusOpWal) -> (state: Self)
        ensures
            state.persistent == persistent_state,
            state.wal == wal,
            !state.is_leader_established,
            state.soft_state.is_none(),
            state.first_voter.is_none(),
            state.consensus_thread_status is Working,
    {
        ConsensusState {
            persistent: persistent_state,
            is_leader_established: false,
            wal,
            soft_state: None,
            first_voter: None,
            consensus_thread_status: ConsensusThreadStatus::Working,
        }
    }

    /// Records that the consensus thread has stopped.
    pub fn on_consensus_stopped(&mut self)
        ensures
            final(self).consensus_thread_status is Stopped,
            final(self).persistent == old(self).persistent,
            final(self).wal == old(self).wal,
            final(self).is_leader_established == old(self).is_leader_established,
            final(self).soft_state == old(self).soft_state,
            final(self).first_voter == old(self).first_voter,
    {
        self.consensus_thread_status = ConsensusThreadStatus::Stopped;
    }

    /// Records that the consensus thread has stopped with the error `err`.
    pub fn on_consensus_thread_err(&mut self, err: String)
        ensures
            final(self).consensus_thread_status == (ConsensusThreadStatus::StoppedWithErr { err }),
            final(self).persistent == old(self).persistent,
            final(self).wal == old(self).wal,
            final(self).is_leader_established == old(self).is_leader_established,
            final(self).soft_state == old(self).soft_state,
            final(self).first_voter == old(self).first_voter,
    {
        self.consensus_thread_status = ConsensusThreadStatus::StoppedWithErr { err };
    }

    /// Takes over the volatile state of the consensus engine. While a peer
    /// stands for election there is no established leader.
    pub fn set_raft_soft_state(&mut self, state: &SoftState)
        ensures
            final(self).soft_state == Some(*state),
            final(self).is_leader_established == (old(self).is_leader_established && !(
            state.raft_state is Candidate || state.raft_state is PreCandidate)),
            final(self).persistent == old(self).persistent,
            final(self).wal == old(self).wal,
            final(self).first_voter == old(self).first_voter,
            final(self).consensus_thread_status == old(self).consensus_thread_status,
    {
        self.soft_state = Some(*state);
        match state.raft_state {
            StateRole::Candidate => {
                self.is_leader_established = false;
            },
            StateRole::PreCandidate => {
                self.is_leader_established = false;
            },
            _ => {},
        }
    }

    /// The id of this peer.
    pub fn this_peer_id(&self) -> (id: PeerId)
        ensures
            id == self.persistent.this_peer_id,
    {
        self.persistent.this_peer_id
    }

    /// The first voter of the group: the one that was set, else this peer.
    pub fn first_voter(&self) -> (id: PeerId)
        ensures
            id == match self.first_voter {
                Some(voter) => voter,
                None => self.persistent.this_peer_id,
            },
    {
        match self.first_voter {
            Some(voter) => voter,
            None => self.this_peer_id(),
        }
    }

    /// Sets the first voter of the group.
    pub fn set_first_voter(&mut self, id: PeerId)
        ensures
            final(self).first_voter == Some(id),
            final(self).persistent == old(self).persistent,
            final(self).wal == old(self).wal,
            final(self).is_leader_established == old(self).is_leader_established,
            final(self).soft_state == old(self).soft_state,
            final(self).consensus_thread_status == old(self).consensus_thread_status,
    {
        self.first_voter = Some(id);
    }

    /// The hard state.
    pub fn hard_state(&self) -> (state: HardState)
        ensures
            state == self.persistent.state.hard_state,
    {
        self.persistent.state.hard_state
    }

    /// The members of the consensus group.
    pub fn conf_state(&self) -> (state: &ConfState)
        ensures
            *state == self.persistent.state.conf_state,
    {
        &self.persistent.state.conf_state
    }

    /// Number of peers with a known address.
    pub fn peer_count(&self) -> (n: usize)
        ensures
            n == self.persistent.peer_address_by_id.entries().len(),
    {
        self.persistent.peer_address_by_id.len()
    }

    /// The addresses of the peers.
    pub fn peer_address_by_id(&self) -> (addresses: &IdMap<PeerId, String>)
        ensures
            *addresses == self.persistent.peer_address_by_id,
    {
        &self.persistent.peer_address_by_id
    }

    /// The entry that was applied last, if any.
    pub fn last_applied_entry(&self) -> (r: Option<u64>)
        ensures
            r == match self.persistent.apply_progress_queue.0 {
                Some((current, _)) => if current == 0 {
                    None
                } else {
                    Some((current - 1) as u64)
                },
                None => None,
            },
    {
        self.persistent.last_applied_entry()
    }

    /// Sets the entries to apply to those from `first_index` to
    /// `last_index`.
    pub fn set_unapplied_entries(&mut self, first_index: EntryId, last_index: EntryId)
        ensures
            final(self).persistent.apply_progress_queue.0 == Some((first_index, last_index)),
            final(self).persistent.dirty,
            final(self).persistent.state == old(self).persistent.state,
            final(self).persistent.latest_snapshot_meta == old(
                self).persistent.latest_snapshot_meta,
            final(self).persistent.peer_address_by_id == old(self).persistent.peer_address_by_id,
            final(self).persistent.this_peer_id == old(self).persistent.this_peer_id,
            final(self).wal == old(self).wal,
            final(self).is_leader_established == old(self).is_leader_established,
            final(self).soft_state == old(self).soft_state,
            final(self).first_voter == old(self).first_voter,
    {
        self.persistent.set_unapplied_entries(first_index, last_index);
    }

    /// Appends `entries` to the log.
    ///
    /// Fails with a service error, and appends nothing, when the entries do
    /// not continue the log.
    pub fn append_entries(&mut self, entries: Vec<RaftEntry>) -> (r: Result<(), StorageError>)
        requires
            old(self).wf(),
        ensures
            final(self).wf(),
            final(self).persistent == old(self).persistent,
            final(self).is_leader_established == old(self).is_leader_established,
            final(self).soft_state == old(self).soft_state,
            final(self).first_voter == old(self).first_voter,
            r is Ok == (crate::consensus_wal::consecutive(
                old(self).wal@ + crate::consensus_wal::views(entries@),
            ) && forall|i: int| 0 <= i < entries@.len() ==> (#[trigger] entries@[i]).index < u64::MAX),
            r is Ok ==> final(self).wal@ == old(self).wal@ + crate::consensus_wal::views(entries@),
            r is Err ==> final(self).wal@ == old(self).wal@ && is_service_failure(
                r,
                "The entries do not continue the log"@,
            ),
    {
        if self.wal.append_entries(entries) {
            Ok(())
        } else {
            Err(StorageError::service_error("The entries do not continue the log"))
        }
    }

    /// The index of the first entry that can be read: the index behind the
    /// latest snapshot, or the first index of the log if that is smaller.
    pub open spec fn spec_first_index(&self) -> u64 {
        let behind = (self.persistent.latest_snapshot_meta.index + 1) as u64;
        if self.wal@.len() > 0 && self.wal@[0].index < behind {
            self.wal@[0].index
        } else {
            behind
        }
    }

    /// The index of the last entry: the index of the latest snapshot, or the
    /// last index of the log if that is larger.
    pub open spec fn spec_last_index(&self) -> u64 {
        let snapshot = self.persistent.latest_snapshot_meta.index;
        if self.wal@.len() > 0 && self.wal@[self.wal@.len() - 1].index > snapshot {
            self.wal@[self.wal@.len() - 1].index
        } else {
            snapshot
        }
    }

    /// The term of the entry at `idx`: that of the latest snapshot at its
    /// index, else that of the entry in the log.
    pub open spec fn spec_term(&self, idx: u64) -> Result<u64, LogError> {
        if idx == self.persistent.latest_snapshot_meta.index {
            Ok(self.persistent.latest_snapshot_meta.term)
        } else {
            match entry_at(self.wal@, idx) {
                Ok(entry) => Ok(entry.term),
                Err(e) => Err(e),
            }
        }
    }

    /// The entries from `low` up to `high`, without `high`, cut to the size
    /// limit; `Compacted` when `low` is before the first index.
    pub open spec fn spec_entries(&self, low: u64, high: u64, max_size: Option<u64>) -> Result<
        Seq<EntryView>,
        LogError,
    > {
        if low < self.spec_first_index() {
            Err(LogError::Compacted)
        } else {
            limited_range(self.wal@, low, high, max_size)
        }
    }

    /// The state that the consensus engine starts from.
    pub fn initial_state(&self) -> (state: &RaftState)
        ensures
            *state == self.persistent.state,
    {
        &self.persistent.state
    }

    /// The index of the first entry that can be read.
    pub fn first_index(&self) -> (index: u64)
        requires
            self.wf(),
        ensures
            index == self.spec_first_index(),
    {
        let behind = self.persistent.latest_snapshot_meta.index + 1;
        match self.wal.first_entry() {
            Some(entry) => if entry.index < behind {
                entry.index
            } else {
                behind
            },
            None => behind,
        }
    }

    /// The index of the last entry.
    pub fn last_index(&self) -> (index: u64)
        requires
            self.wf(),
        ensures
            index == self.spec_last_index(),
    {
        let snapshot = self.persistent.latest_snapshot_meta.index;
        match self.wal.last_entry() {
            Some(entry) => if entry.index > snapshot {
                entry.index
            } else {
                snapshot
            },
            None => snapshot,
        }
    }

    /// The term of the entry at `idx`.
    pub fn term(&self, idx: u64) -> (r: Result<u64, LogError>)
        ensures
            r == self.spec_term(idx),
    {
        if idx == self.persistent.latest_snapshot_meta.index {
            return Ok(self.persistent.latest_snapshot_meta.term);
        }
        match self.wal.entry(idx) {
            Ok(entry) => Ok(entry.term),
            Err(e) => Err(e),
        }
    }

    /// The entries from `low` up to `high`, without `high`, cut to the size
    /// limit `max_size`. At least one entry is returned when the range is
    /// not empty, whatever the limit.
    ///
    /// Fails with `Compacted` when `low` is before the first index.
    pub fn entries(&self, low: u64, high: u64, max_size: Option<u64>) -> (r: Result<
        Vec<RaftEntry>,
        LogError,
    >)
        requires
            self.wf(),
            high <= self.spec_last_index() + 1,
        ensures
            same_entries(r, self.spec_entries(low, high, max_size)),
            r matches Ok(entries) ==> {
                &&& range_of(self.wal@, low, high) matches Ok(all) && views(entries@) == all.take(
                    entries@.len() as int,
                )
                &&& entries@.len() <= (if high <= low {
                    0
                } else {
                    high - low
                })
                &&& low < high ==> entries@.len() >= 1
            },
    {
        if low < self.first_index() {
            return Err(LogError::Compacted);
        }
        proof {
            lemma_limited_range(self.wal@, low, high, max_size);
        }
        self.wal.entries(low, high, max_size)
    }

    /// Index and term of a snapshot of the committed state, for a request
    /// for a snapshot at `request_index`.
    ///
    /// Fails with `SnapshotTemporarilyUnavailable` when less than
    /// `request_index` has been committed.
    pub fn snapshot(&self, request_index: u64) -> (r: Result<SnapshotMetadata, LogError>)
        ensures
            r == (if self.persistent.state.hard_state.commit >= request_index {
                Ok(
                    SnapshotMetadata {
                        index: self.persistent.state.hard_state.commit,
                        term: self.persistent.state.hard_state.term,
                    },
                )
            } else {
                Err(LogError::SnapshotTemporarilyUnavailable)
            }),
    {
        let hard_state = self.persistent.state.hard_state;
        if hard_state.commit >= request_index {
            Ok(SnapshotMetadata { index: hard_state.commit, term: hard_state.term })
        } else {
            Err(LogError::SnapshotTemporarilyUnavailable)
        }
    }
}

/// How the consensus group goes over from the old members to the new ones.
#[derive(Clone, Copy, Debug, PartialEq, Eq, Structural)]
pub enum ConfChangeTransition {
    Auto,
    Implicit,
    Explicit,
}

/// A change of the members of the consensus group, as an entry holds it.
pub struct ConfChange {
    pub transition: ConfChangeTransition,
    pub changes: Vec<ConfChangeSingle>,
    pub context: Vec<u8>,
}

impl View for ConfChange {
    type V = (ConfChangeTransition, Seq<ConfChangeSingle>, Seq<u8>);

    open spec fn view(&self) -> Self::V {
        (self.transition, self.changes@, self.context@)
    }
}

/// What the decoder of `raft::eraftpb::ConfChangeV2` makes of the data of
/// an entry: the transition, the single changes and the context of the
/// message, or `None` when the data are no such message.
pub uninterp spec fn decoded_conf_change(data: Seq<u8>) -> Option<
    (ConfChangeTransition, Seq<ConfChangeSingle>, Seq<u8>),
>;

/// Decodes a change of the members with `protobuf::Message::parse_from_bytes`
/// as a `raft::eraftpb::ConfChangeV2` and hands its fields on, one for one.
/// `protobuf` is the codec that `raft` is built with by default; the bytes
/// are those of the protocol buffers wire format, whichever codec wrote them.
/// `None` when the decoder rejects the data. Not proved: that the result
/// depends on the data alone is read off the decoder.
#[verifier::external_body]
fn parse_conf_change(data: &Vec<u8>) -> (change: Option<ConfChange>)
    ensures
        match change {
            Some(c) => decoded_conf_change(data@) == Some(c@),
            None => decoded_conf_change(data@).is_none(),
        },
{
    let raw: raft::eraftpb::ConfChangeV2 = protobuf::Message::parse_from_bytes(data).ok()?;
    let single = |c: &raft::eraftpb::ConfChangeSingle| ConfChangeSingle {
        change_type: match c.get_change_type() {
            raft::eraftpb::ConfChangeType::AddNode => ConfChangeType::AddNode,
            raft::eraftpb::ConfChangeType::RemoveNode => ConfChangeType::RemoveNode,
            raft::eraftpb::ConfChangeType::AddLearnerNode => ConfChangeType::AddLearnerNode,
        },
        node_id: c.get_node_id(),
    };
    let transition = match raw.get_transition() {
        raft::eraftpb::ConfChangeTransition::Auto => ConfChangeTransition::Auto,
        raft::eraftpb::ConfChangeTransition::Implicit => ConfChangeTransition::Implicit,
        raft::eraftpb::ConfChangeTransition::Explicit => ConfChangeTransition::Explicit,
    };
    Some(ConfChange { transition, changes: raw.get_changes().iter().map(single).collect(), context: raw.get_context().to_vec() })
}

/// Decodes the change of the members that `entry` holds.
///
/// Fails with a service error when the data of the entry are no change of
/// the members.
pub fn decode_conf_change(entry: &RaftEntry) -> (r: Result<ConfChange, StorageError>)
    ensures
        match r {
            Ok(change) => decoded_conf_change(entry.data@) == Some(change@),
            Err(_) => decoded_conf_change(entry.data@).is_none() && is_service_failure(
                r,
                "Failed to decode the change of the members"@,
            ),
        },
{
    match parse_conf_change(&entry.data) {
        Some(change) => Ok(change),
        None => Err(StorageError::service_error("Failed to decode the change of the members")),
    }
}

/// The text that `String::from_utf8_lossy` makes of bytes.
pub uninterp spec fn lossy_text(bytes: Seq<u8>) -> Seq<char>;

/// Turns bytes into text with `String::from_utf8_lossy`. Not proved: that
/// the text depends on the bytes alone is read off the documentation of that
/// function.
#[verifier::external_body]
fn text_of_bytes(bytes: &Vec<u8>) -> (text: String)
    ensures
        text@ == lossy_text(bytes@),
{
    String::from_utf8_lossy(bytes).into_owned()
}

/// What `http::Uri`, which tonic hands on as its `Uri`, makes of a text: the
/// address as it prints the address that it has read, or `None` when the
/// text holds no address.
pub uninterp spec fn parsed_uri(text: Seq<char>) -> Option<Seq<char>>;

/// Parses an address with `tonic::transport::Uri::try_from` and gives it
/// back as that type prints it. `None` when the parser rejects the text. Not
/// proved: that the result depends on the text alone is read off the parser.
#[verifier::external_body]
fn parse_uri(text: &str) -> (uri: Option<String>)
    ensures
        as_text(uri) == parsed_uri(text@),
{
    match tonic::transport::Uri::try_from(text) {
        Ok(uri) => Some(uri.to_string()),
        Err(_) => None,
    }
}

/// An optional text as a value of the model.
pub open spec fn as_text(text: Option<String>) -> Option<Seq<char>> {
    match text {
        Some(t) => Some(t@),
        None => None,
    }
}

/// The address of a peer that the context of an entry holds: the bytes are
/// taken as text, and the text is parsed as an address.
pub open spec fn address_in(context: Seq<u8>) -> Option<Seq<char>> {
    parsed_uri(lossy_text(context))
}

/// What happened to a committed entry outside this state.
pub enum ApplyEvent {
    /// Nothing yet: the application of entries starts.
    Start,
    /// The entry before was applied here; the application goes on.
    Continue,
    /// A normal entry was applied, with this result.
    NormalApplied(Result<bool, StorageError>),
    /// A change of the members was applied, with this result; `Ok(true)`
    /// says that this peer has left the group.
    ConfChangeApplied(Result<bool, StorageError>),
}

/// What to do next with the committed entries.
pub enum ApplyAction {
    /// Apply the operation of this normal entry and report the result.
    ApplyNormal(RaftEntry),
    /// Apply this change of the members and report the result.
    ApplyConfChange(RaftEntry),
    /// An entry was applied here; call again to go on.
    Again,
    /// The application is over for now. With `stop_consensus` this peer has
    /// left the group and consensus stops.
    Done { stop_consensus: bool },
}

/// What the current entry asks for.
pub enum CurrentEntry {
    /// No entry is left to apply.
    Nothing,
    /// The entry to apply cannot be read from the log.
    Missing,
    /// An entry without data: a new leader says that it is ready.
    LeaderReady,
    /// A normal entry with an operation.
    Normal(RaftEntry),
    /// A change of the members.
    ConfChange(RaftEntry),
    /// An entry of a kind that cannot be applied.
    Unsupported,
}

/// What the result of an applied entry means for the queue.
#[derive(Clone, Copy, Debug, PartialEq, Eq, Structural)]
pub enum Verdict {
    /// The entry counts as applied; the next one is due.
    Advance,
    /// The entry has to be tried again later.
    Halt,
    /// This peer has left the group; consensus stops.
    Stop,
}

/// What the event means for the entry that it is about. A normal entry
/// counts as applied unless it failed with a service error: an error of
/// the user rejects the entry for good. A change of the members counts as
/// applied when it succeeded and this peer stays in the group.
pub open spec fn verdict_of(event: ApplyEvent) -> Option<Verdict> {
    match event {
        ApplyEvent::Start => None,
        ApplyEvent::Continue => None,
        ApplyEvent::NormalApplied(Ok(_)) => Some(Verdict::Advance),
        ApplyEvent::NormalApplied(Err(e)) => if e is ServiceError {
            Some(Verdict::Halt)
        } else {
            Some(Verdict::Advance)
        },
        ApplyEvent::ConfChangeApplied(Ok(stop)) => if stop {
            Some(Verdict::Stop)
        } else {
            Some(Verdict::Advance)
        },
        ApplyEvent::ConfChangeApplied(Err(_)) => Some(Verdict::Halt),
    }
}

/// See [`verdict_of`].
pub fn verdict(event: &ApplyEvent) -> (v: Option<Verdict>)
    ensures
        v == verdict_of(*event),
{
    match event {
        ApplyEvent::Start => None,
        ApplyEvent::Continue => None,
        ApplyEvent::NormalApplied(Ok(_)) => Some(Verdict::Advance),
        ApplyEvent::NormalApplied(Err(e)) => if e.is_service_error() {
            Some(Verdict::Halt)
        } else {
            Some(Verdict::Advance)
        },
        ApplyEvent::ConfChangeApplied(Ok(stop)) => if *stop {
            Some(Verdict::Stop)
        } else {
            Some(Verdict::Advance)
        },
        ApplyEvent::ConfChangeApplied(Err(_)) => Some(Verdict::Halt),
    }
}

/// What the entry that is due asks for, as a value of the model.
pub enum Due {
    /// No entry is left to apply.
    Nothing,
    /// The entry to apply cannot be read from the log.
    Missing,
    /// An entry without data: a new leader says that it is ready.
    LeaderReady,
    /// A normal entry with an operation.
    Normal(EntryView),
    /// A change of the members.
    ConfChange(EntryView),
    /// An entry of a kind that cannot be applied.
    Unsupported,
}

impl View for CurrentEntry {
    type V = Due;

    open spec fn view(&self) -> Due {
        match self {
            CurrentEntry::Nothing => Due::Nothing,
            CurrentEntry::Missing => Due::Missing,
            CurrentEntry::LeaderReady => Due::LeaderReady,
            CurrentEntry::Normal(entry) => Due::Normal(entry@),
            CurrentEntry::ConfChange(entry) => Due::ConfChange(entry@),
            CurrentEntry::Unsupported => Due::Unsupported,
        }
    }
}

/// What the current entry of `queue` in `log` asks for.
pub open spec fn due_entry(log: Seq<EntryView>, queue: EntryApplyProgressQueue) -> Due {
    match queue.spec_current() {
        None => Due::Nothing,
        Some(index) => match entry_at(log, index) {
            Err(_) => Due::Missing,
            Ok(entry) => if entry.data.len() == 0 {
                Due::LeaderReady
            } else {
                match entry.entry_type {
                    EntryType::EntryNormal => Due::Normal(entry),
                    EntryType::EntryConfChangeV2 => Due::ConfChange(entry),
                    EntryType::EntryConfChange => Due::Unsupported,
                }
            },
        },
    }
}

impl ConsensusState {
    /// Hands the persistent state to `persist`.
    fn save<P: Fn(&Persistent) -> bool>(&mut self, persist: &P) -> (saved: bool)
        requires
            call_requires(*persist, (&old(self).persistent.clean(),)),
        ensures
            is_saving(*persist, final(self).persistent, saved),
            saved ==> final(self).persistent == old(self).persistent.clean(),
            !saved ==> final(self).persistent == old(self).persistent,
            saved ==> !final(self).persistent.dirty,
            !saved ==> final(self).persistent.dirty == old(self).persistent.dirty,
            final(self).persistent.state == old(self).persistent.state,
            final(self).persistent.latest_snapshot_meta == old(
                self).persistent.latest_snapshot_meta,
            final(self).persistent.apply_progress_queue == old(
                self).persistent.apply_progress_queue,
            final(self).persistent.peer_address_by_id == old(self).persistent.peer_address_by_id,
            final(self).persistent.this_peer_id == old(self).persistent.this_peer_id,
            final(self).wal == old(self).wal,
            final(self).is_leader_established == old(self).is_leader_established,
            final(self).soft_state == old(self).soft_state,
            final(self).first_voter == old(self).first_voter,
            final(self).consensus_thread_status == old(self).consensus_thread_status,
    {
        let marked = self.persistent.dirty;
        self.persistent.dirty = false;
        assert(self.persistent == old(self).persistent.clean());
        let saved = persist(&self.persistent);
        if !saved {
            self.persistent.dirty = marked;
            assert(self.persistent.clean() == old(self).persistent.clean());
        }
        saved
    }

    /// Sets the hard state and saves it.
    ///
    /// Fails with a service error when the state could not be saved; the new
    /// hard state stays in memory all the same.
    pub fn set_hard_state<P: Fn(&Persistent) -> bool>(&mut self, hard_state: HardState, persist: P) -> (r:
        Result<(), StorageError>)
        requires
            forall|p: &Persistent| call_requires(persist, (p,)),
        ensures
            always_saves(persist) ==> r is Ok,
            r is Ok || is_not_saved(r),
            is_saving(persist, final(self).persistent, r is Ok),
            final(self).persistent.state.hard_state == hard_state,
            final(self).persistent.state.conf_state == old(self).persistent.state.conf_state,
            final(self).persistent.latest_snapshot_meta == old(
                self).persistent.latest_snapshot_meta,
            final(self).persistent.apply_progress_queue == old(
                self).persistent.apply_progress_queue,
            final(self).persistent.peer_address_by_id == old(self).persistent.peer_address_by_id,
            final(self).persistent.this_peer_id == old(self).persistent.this_peer_id,
            final(self).wal == old(self).wal,
            final(self).is_leader_established == old(self).is_leader_established,
            final(self).soft_state == old(self).soft_state,
            final(self).first_voter == old(self).first_voter,
    {
        self.persistent.state.hard_state = hard_state;
        if self.save(&persist) {
            Ok(())
        } else {
            Err(StorageError::service_error("Failed to save the consensus state"))
        }
    }

    /// Sets the members of the consensus group and saves them.
    ///
    /// Fails with a service error when the state could not be saved; the new
    /// members stay in memory all the same.
    pub fn set_conf_state<P: Fn(&Persistent) -> bool>(&mut self, conf_state: ConfState, persist: P) -> (r:
        Result<(), StorageError>)
        requires
            forall|p: &Persistent| call_requires(persist, (p,)),
        ensures
            always_saves(persist) ==> r is Ok,
            r is Ok || is_not_saved(r),
            is_saving(persist, final(self).persistent, r is Ok),
            final(self).persistent.state.conf_state == conf_state,
            final(self).persistent.state.hard_state == old(self).persistent.state.hard_state,
            final(self).persistent.latest_snapshot_meta == old(
                self).persistent.latest_snapshot_meta,
            final(self).persistent.apply_progress_queue == old(
                self).persistent.apply_progress_queue,
            final(self).persistent.peer_address_by_id == old(self).persistent.peer_address_by_id,
            final(self).persistent.this_peer_id == old(self).persistent.this_peer_id,
            final(self).wal == old(self).wal,
            final(self).is_leader_established == old(self).is_leader_established,
            final(self).soft_state == old(self).soft_state,
            final(self).first_voter == old(self).first_voter,
    {
        self.persistent.state.conf_state = conf_state;
        if self.save(&persist) {
            Ok(())
        } else {
            Err(StorageError::service_error("Failed to save the consensus state"))
        }
    }

    /// Sets the index up to which the log is committed and saves it.
    ///
    /// Fails with a service error when the state could not be saved; the new
    /// index stays in memory all the same.
    pub fn set_commit_index<P: Fn(&Persistent) -> bool>(&mut self, index: u64, persist: P) -> (r:
        Result<(), StorageError>)
        requires
            forall|p: &Persistent| call_requires(persist, (p,)),
        ensures
            always_saves(persist) ==> r is Ok,
            r is Ok || is_not_saved(r),
            is_saving(persist, final(self).persistent, r is Ok),
            final(self).persistent.state.hard_state == (HardState {
                term: old(self).persistent.state.hard_state.term,
                vote: old(self).persistent.state.hard_state.vote,
                commit: index,
            }),
            final(self).persistent.state.conf_state == old(self).persistent.state.conf_state,
            final(self).persistent.latest_snapshot_meta == old(
                self).persistent.latest_snapshot_meta,
            final(self).persistent.apply_progress_queue == old(
                self).persistent.apply_progress_queue,
            final(self).persistent.peer_address_by_id == old(self).persistent.peer_address_by_id,
            final(self).persistent.this_peer_id == old(self).persistent.this_peer_id,
            final(self).wal == old(self).wal,
            final(self).is_leader_established == old(self).is_leader_established,
            final(self).soft_state == old(self).soft_state,
            final(self).first_voter == old(self).first_voter,
    {
        self.persistent.state.hard_state.commit = index;
        if self.save(&persist) {
            Ok(())
        } else {
            Err(StorageError::service_error("Failed to save the consensus state"))
        }
    }

    /// Records the address of a peer and saves it.
    ///
    /// Fails with a service error when the state could not be saved; the
    /// address stays in memory all the same.
    pub fn add_peer<P: Fn(&Persistent) -> bool>(&mut self, peer_id: PeerId, uri: String, persist: P) -> (r:
        Result<(), StorageError>)
        requires
            old(self).persistent.wf(),
            forall|p: &Persistent| call_requires(persist, (p,)),
        ensures
            always_saves(persist) ==> r is Ok,
            r is Ok || is_not_saved(r),
            is_saving(persist, final(self).persistent, r is Ok),
            final(self).persistent.wf(),
            final(self).persistent.peer_address_by_id@ == old(
                self).persistent.peer_address_by_id@.insert(peer_id, uri),
            final(self).persistent.state == old(self).persistent.state,
            final(self).persistent.latest_snapshot_meta == old(
                self).persistent.latest_snapshot_meta,
            final(self).persistent.apply_progress_queue == old(
                self).persistent.apply_progress_queue,
            final(self).persistent.this_peer_id == old(self).persistent.this_peer_id,
            final(self).wal == old(self).wal,
            final(self).is_leader_established == old(self).is_leader_established,
            final(self).soft_state == old(self).soft_state,
            final(self).first_voter == old(self).first_voter,
    {
        self.persistent.peer_address_by_id.insert(peer_id, uri);
        if self.save(&persist) {
            Ok(())
        } else {
            Err(StorageError::service_error("Failed to save the consensus state"))
        }
    }

    /// Forgets the address of a peer and saves the rest.
    ///
    /// Fails with a service error when the state could not be saved; the
    /// address is forgotten in memory all the same.
    pub fn remove_peer<P: Fn(&Persistent) -> bool>(&mut self, peer_id: PeerId, persist: P) -> (r:
        Result<(), StorageError>)
        requires
            old(self).persistent.wf(),
            forall|p: &Persistent| call_requires(persist, (p,)),
        ensures
            always_saves(persist) ==> r is Ok,
            r is Ok || is_not_saved(r),
            is_saving(persist, final(self).persistent, r is Ok),
            final(self).persistent.wf(),
            final(self).persistent.peer_address_by_id@ == old(
                self).persistent.peer_address_by_id@.remove(peer_id),
            final(self).persistent.state == old(self).persistent.state,
            final(self).persistent.latest_snapshot_meta == old(
                self).persistent.latest_snapshot_meta,
            final(self).persistent.apply_progress_queue == old(
                self).persistent.apply_progress_queue,
            final(self).persistent.this_peer_id == old(self).persistent.this_peer_id,
            final(self).wal == old(self).wal,
            final(self).is_leader_established == old(self).is_leader_established,
            final(self).soft_state == old(self).soft_state,
            final(self).first_voter == old(self).first_voter,
    {
        self.persistent.peer_address_by_id.remove(peer_id);
        if self.save(&persist) {
            Ok(())
        } else {
            Err(StorageError::service_error("Failed to save the consensus state"))
        }
    }

    /// Looks at the entry that is to be applied next.
    pub fn current_entry(&self) -> (current: CurrentEntry)
        ensures
            current@ == due_entry(self.wal@, self.persistent.apply_progress_queue),
    {
        match self.persistent.current_unapplied_entry() {
            None => CurrentEntry::Nothing,
            Some(index) => match self.wal.entry(index) {
                Err(_) => CurrentEntry::Missing,
                Ok(entry) => {
                    if entry.data.len() == 0 {
                        CurrentEntry::LeaderReady
                    } else {
                        match entry.entry_type {
                            EntryType::EntryNormal => CurrentEntry::Normal(entry),
                            EntryType::EntryConfChangeV2 => CurrentEntry::ConfChange(entry),
                            EntryType::EntryConfChange => CurrentEntry::Unsupported,
                        }
                    }
                },
            },
        }
    }

    /// Marks the current entry as applied and saves the queue.
    fn entry_applied<P: Fn(&Persistent) -> bool>(&mut self, persist: &P) -> (saved: bool)
        requires
            forall|p: &Persistent| call_requires(*persist, (p,)),
        ensures
            always_saves(*persist) ==> saved,
            final(self).persistent.apply_progress_queue.0 == (match old(
                self).persistent.apply_progress_queue.0 {
                Some((current, last)) => if current < u64::MAX {
                    Some(((current + 1) as u64, last))
                } else {
                    None
                },
                None => None,
            }),
            final(self).persistent.state == old(self).persistent.state,
            final(self).persistent.latest_snapshot_meta == old(
                self).persistent.latest_snapshot_meta,
            final(self).persistent.peer_address_by_id == old(self).persistent.peer_address_by_id,
            final(self).persistent.this_peer_id == old(self).persistent.this_peer_id,
            final(self).wal == old(self).wal,
            final(self).is_leader_established == old(self).is_leader_established,
            final(self).soft_state == old(self).soft_state,
            final(self).first_voter == old(self).first_voter,
    {
        self.persistent.apply_progress_queue.applied();
        self.save(persist)
    }

    /// Takes one step in applying the committed entries.
    ///
    /// The step first settles the entry that `event` reports on: the entry
    /// counts as applied, and the queue moves on, unless the event says
    /// that it has to be tried again or that this peer has left the group.
    /// At the start the queue is saved if it has changed. Then the step
    /// looks at the entry that is due. An entry without data establishes
    /// the leader and is applied here; the caller is told to call again. A
    /// normal entry and a change of the members are handed to the caller. The
    /// application ends when no entry is due, when the entry cannot be read
    /// or cannot be applied, when an entry has to be tried again, and
    /// whenever the queue could not be saved.
    pub fn apply_entries<P: Fn(&Persistent) -> bool>(&mut self, event: ApplyEvent, persist: P) -> (action:
        ApplyAction)
        requires
            old(self).wf(),
            forall|p: &Persistent| call_requires(persist, (p,)),
        ensures
            final(self).wf(),
            final(self).persistent.state == old(self).persistent.state,
            final(self).persistent.latest_snapshot_meta == old(
                self).persistent.latest_snapshot_meta,
            final(self).persistent.peer_address_by_id == old(self).persistent.peer_address_by_id,
            final(self).persistent.this_peer_id == old(self).persistent.this_peer_id,
            final(self).wal == old(self).wal,
            final(self).soft_state == old(self).soft_state,
            final(self).first_voter == old(self).first_voter,
            verdict_of(event) == Some(Verdict::Stop) ==> action == (ApplyAction::Done {
                stop_consensus: true,
            }) && final(self).persistent.apply_progress_queue == old(
                self).persistent.apply_progress_queue,
            verdict_of(event) == Some(Verdict::Halt) ==> action == (ApplyAction::Done {
                stop_consensus: false,
            }) && final(self).persistent.apply_progress_queue == old(
                self).persistent.apply_progress_queue,
            verdict_of(event) != Some(Verdict::Stop) ==> !(action matches ApplyAction::Done {
                stop_consensus: true,
            }),
            verdict_of(event) is None || verdict_of(event) == Some(Verdict::Advance) ==> ({
                let settled = if verdict_of(event) is Some {
                    old(self).persistent.apply_progress_queue.next()
                } else {
                    old(self).persistent.apply_progress_queue
                };
                let due = due_entry(old(self).wal@, settled);
                &&& match action {
                    ApplyAction::ApplyNormal(entry) => due == Due::Normal(entry@)
                        && final(self).persistent.apply_progress_queue.0 == settled.0
                        && final(self).is_leader_established == old(self).is_leader_established,
                    ApplyAction::ApplyConfChange(entry) => due == Due::ConfChange(entry@)
                        && final(self).persistent.apply_progress_queue.0 == settled.0
                        && final(self).is_leader_established == old(self).is_leader_established,
                    ApplyAction::Again => due is LeaderReady && final(self).is_leader_established
                        && final(self).persistent.apply_progress_queue.0 == settled.next().0,
                    ApplyAction::Done { stop_consensus } => {
                        &&& !stop_consensus
                        &&& if due is LeaderReady {
                            ||| final(self).persistent.apply_progress_queue.0 == settled.next().0
                                && final(self).is_leader_established
                            ||| final(self).persistent.apply_progress_queue.0 == settled.0
                                && final(self).is_leader_established == old(
                                self).is_leader_established
                        } else {
                            final(self).persistent.apply_progress_queue.0 == settled.0
                                && final(self).is_leader_established == old(
                                self).is_leader_established
                        }
                    },
                }
                &&& always_saves(persist) ==> (action is Done <==> due is Nothing || due is Missing
                    || due is Unsupported)
            }),
    {
        match verdict(&event) {
            Some(Verdict::Stop) => {
                return ApplyAction::Done { stop_consensus: true };
            },
            Some(Verdict::Halt) => {
                return ApplyAction::Done { stop_consensus: false };
            },
            Some(Verdict::Advance) => {
                if !self.entry_applied(&persist) {
                    return ApplyAction::Done { stop_consensus: false };
                }
            },
            None => {
                match event {
                    ApplyEvent::Start => {
                        if self.persistent.dirty {
                            if !self.save(&persist) {
                                return ApplyAction::Done { stop_consensus: false };
                            }
                        }
                    },
                    _ => {},
                }
            },
        }
        match self.current_entry() {
            CurrentEntry::Nothing => ApplyAction::Done { stop_consensus: false },
            CurrentEntry::Missing => ApplyAction::Done { stop_consensus: false },
            CurrentEntry::Unsupported => ApplyAction::Done { stop_consensus: false },
            CurrentEntry::LeaderReady => {
                self.is_leader_established = true;
                if self.entry_applied(&persist) {
                    ApplyAction::Again
                } else {
                    ApplyAction::Done { stop_consensus: false }
                }
            },
            CurrentEntry::Normal(entry) => ApplyAction::ApplyNormal(entry),
            CurrentEntry::ConfChange(entry) => ApplyAction::ApplyConfChange(entry),
        }
    }
}

impl EntryApplyProgressQueue {
    /// The queue once its current entry is applied.
    pub open spec fn next(&self) -> EntryApplyProgressQueue {
        EntryApplyProgressQueue(
            match self.0 {
                Some((current, last)) => if current < u64::MAX {
                    Some(((current + 1) as u64, last))
                } else {
                    None
                },
                None => None,
            },
        )
    }
}

/// What a normal entry asks for.
pub enum NormalEntryStep {
    /// Perform this encoded operation on the collections; its result is the
    /// result of the entry.
    Perform(Vec<u8>),
    /// The entry is settled with this result. The entry of a peer that
    /// joins or leaves is expected as a change of the members, not as a
    /// normal entry; it changes nothing.
    Settled(bool),
}

/// Decides what the operation of a normal entry asks for.
pub fn apply_normal_entry(operation: ConsensusOperations) -> (step: NormalEntryStep)
    ensures
        match operation {
            ConsensusOperations::CollectionMeta(meta) => step == NormalEntryStep::Perform(meta),
            _ => step == NormalEntryStep::Settled(false),
        },
{
    match operation {
        ConsensusOperations::CollectionMeta(meta) => NormalEntryStep::Perform(meta),
        _ => NormalEntryStep::Settled(false),
    }
}

/// The addresses by peer, as texts.
pub open spec fn texts(addresses: Map<PeerId, String>) -> Map<PeerId, Seq<char>> {
    addresses.map_values(|s: String| s@)
}

/// The addresses after the changes `changes` of an entry whose context
/// holds the address `uri`: a peer that is removed loses its address, and a
/// learner that is added gets `uri`, if there is one.
pub open spec fn addresses_after(
    addresses: Map<PeerId, Seq<char>>,
    changes: Seq<ConfChangeSingle>,
    uri: Option<Seq<char>>,
) -> Map<PeerId, Seq<char>>
    decreases changes.len(),
{
    if changes.len() == 0 {
        addresses
    } else {
        let before = addresses_after(addresses, changes.drop_last(), uri);
        let change = changes.last();
        match change.change_type {
            ConfChangeType::AddNode => before,
            ConfChangeType::RemoveNode => before.remove(change.node_id),
            ConfChangeType::AddLearnerNode => match uri {
                Some(address) => before.insert(change.node_id, address),
                None => before,
            },
        }
    }
}

/// True when `addresses` is what the first changes of `changes`, up to some
/// change, make of `start`.
pub open spec fn partly_changed(
    start: Map<PeerId, Seq<char>>,
    addresses: Map<PeerId, Seq<char>>,
    changes: Seq<ConfChangeSingle>,
    uri: Option<Seq<char>>,
) -> bool {
    exists|n: int|
        0 <= n <= changes.len() && addresses == addresses_after(
            start,
            #[trigger] changes.take(n),
            uri,
        )
}

/// True when one of the changes removes `peer`.
pub open spec fn removes(changes: Seq<ConfChangeSingle>, peer: PeerId) -> bool {
    exists|i: int|
        0 <= i < changes.len() && (#[trigger] changes[i]).change_type is RemoveNode
            && changes[i].node_id == peer
}

/// True when one of the changes adds a learner.
pub open spec fn adds_learner(changes: Seq<ConfChangeSingle>) -> bool {
    exists|i: int| 0 <= i < changes.len() && (#[trigger] changes[i]).change_type is AddLearnerNode
}

/// The operations whose completion the changes tell: the removal of each
/// removed peer, and the addition of each learner that got an address.
pub open spec fn completed(changes: Seq<ConfChangeSingle>, uri: Option<Seq<char>>) -> Seq<
    (bool, PeerId),
>
    decreases changes.len(),
{
    if changes.len() == 0 {
        Seq::empty()
    } else {
        let before = completed(changes.drop_last(), uri);
        let change = changes.last();
        match change.change_type {
            ConfChangeType::AddNode => before,
            ConfChangeType::RemoveNode => before.push((false, change.node_id)),
            ConfChangeType::AddLearnerNode => if uri is Some {
                before.push((true, change.node_id))
            } else {
                before
            },
        }
    }
}

/// Whether an operation adds a peer, and the peer.
pub open spec fn kind_of(operation: ConsensusOperations) -> (bool, PeerId) {
    match operation {
        ConsensusOperations::AddPeer(peer, _) => (true, peer),
        ConsensusOperations::RemovePeer(peer) => (false, peer),
        ConsensusOperations::CollectionMeta(_) => (false, 0),
    }
}

/// The collections of a snapshot, each with its state, and the aliases of
/// collections.
pub struct CollectionsSnapshot {
    pub collections: Vec<(String, State)>,
    pub aliases: Vec<(String, String)>,
}

/// What a snapshot of the consensus state holds: the collections, and the
/// addresses of the peers.
pub struct SnapshotData {
    pub collections_data: CollectionsSnapshot,
    pub address_by_id: IdMap<PeerId, String>,
}

/// What a change of the members did.
pub struct ConfChangeEffects {
    /// True when this peer was removed: consensus stops here.
    pub stop_consensus: bool,
    /// The operations that are complete now; who waits for one of them is
    /// told that it succeeded.
    pub completed: Vec<ConsensusOperations>,
}

impl ConsensusState {
    /// Applies a change of the members that the consensus engine has
    /// accepted: `conf_state` are the members after the change, `changes`
    /// the single changes, and `context` the context of the entry, which
    /// holds the address of a learner that joins.
    ///
    /// The new members are saved. A removed peer loses its address; when it
    /// is this peer, consensus stops. An added learner gets the address
    /// from the context; an empty context is accepted and adds no address.
    ///
    /// Fails with a service error when a learner is added and the context
    /// is not empty and holds no address, or when the state could not be
    /// saved. The changes before the failing one have taken effect then.
    pub fn apply_conf_change_entry<P: Fn(&Persistent) -> bool>(
        &mut self,
        context: &Vec<u8>,
        changes: &Vec<ConfChangeSingle>,
        conf_state: ConfState,
        persist: P,
    ) -> (r: Result<ConfChangeEffects, StorageError>)
        requires
            old(self).wf(),
            forall|p: &Persistent| call_requires(persist, (p,)),
        ensures
            always_saves(persist) ==> !is_not_saved(r),
            final(self).wf(),
            final(self).persistent.state.conf_state == conf_state,
            final(self).persistent.state.hard_state == old(self).persistent.state.hard_state,
            final(self).persistent.latest_snapshot_meta == old(
                self).persistent.latest_snapshot_meta,
            final(self).persistent.apply_progress_queue == old(
                self).persistent.apply_progress_queue,
            final(self).persistent.this_peer_id == old(self).persistent.this_peer_id,
            final(self).wal == old(self).wal,
            final(self).is_leader_established == old(self).is_leader_established,
            final(self).soft_state == old(self).soft_state,
            final(self).first_voter == old(self).first_voter,
            adds_learner(changes@) && address_in(context@).is_none() && context@.len() > 0 ==> (
            r matches Err(StorageError::ServiceError { .. })) && (!is_not_saved(r)
                ==> is_service_failure(r, "Failed to parse peer uri"@)),
            !(adds_learner(changes@) && address_in(context@).is_none() && context@.len() > 0)
                ==> r is Ok || is_not_saved(r),
            r matches Ok(effects) ==> {
                &&& texts(final(self).persistent.peer_address_by_id@) == addresses_after(
                    texts(old(self).persistent.peer_address_by_id@),
                    changes@,
                    address_in(context@),
                )
                &&& effects.stop_consensus == removes(changes@, old(self).persistent.this_peer_id)
                &&& effects.completed@.map_values(|o: ConsensusOperations| kind_of(o)) == completed(
                    changes@,
                    address_in(context@),
                )
                &&& forall|k: int|
                    0 <= k < effects.completed@.len() ==> (match #[trigger] effects.completed@[k] {
                        ConsensusOperations::AddPeer(_, added) => Some(added@) == address_in(context@),
                        ConsensusOperations::RemovePeer(_) => true,
                        ConsensusOperations::CollectionMeta(_) => false,
                    })
            },
            r is Err ==> partly_changed(
                texts(old(self).persistent.peer_address_by_id@),
                texts(final(self).persistent.peer_address_by_id@),
                changes@,
                address_in(context@),
            ),
            r is Ok ==> is_saving(persist, final(self).persistent, true),
            is_not_saved(r) ==> is_saving(persist, final(self).persistent, false),
    {
        let text = text_of_bytes(context);
        let address = parse_uri(text.as_str());
        self.apply_conf_changes(address, context.len() > 0, changes, conf_state, persist)
    }

    /// Applies a change of the members that the consensus engine has
    /// accepted: `conf_state` are the members after the change, `changes`
    /// the single changes, `address` the address that was read from the
    /// context of the entry, for a learner that joins, and `with_context`
    /// says whether the entry had a context at all.
    ///
    /// The new members are saved. A removed peer loses its address; when it
    /// is this peer, consensus stops. An added learner gets the address
    /// from the context; an empty context is accepted and adds no address.
    ///
    /// Fails with a service error when a learner is added and the context
    /// is not empty and holds no address, or when the state could not be
    /// saved. The changes before the failing one have taken effect then.
    pub fn apply_conf_changes<P: Fn(&Persistent) -> bool>(
        &mut self,
        address: Option<String>,
        with_context: bool,
        changes: &Vec<ConfChangeSingle>,
        conf_state: ConfState,
        persist: P,
    ) -> (r: Result<ConfChangeEffects, StorageError>)
        requires
            old(self).wf(),
            forall|p: &Persistent| call_requires(persist, (p,)),
        ensures
            always_saves(persist) ==> !is_not_saved(r),
            final(self).wf(),
            final(self).persistent.state.conf_state == conf_state,
            final(self).persistent.state.hard_state == old(self).persistent.state.hard_state,
            final(self).persistent.latest_snapshot_meta == old(
                self).persistent.latest_snapshot_meta,
            final(self).persistent.apply_progress_queue == old(
                self).persistent.apply_progress_queue,
            final(self).persistent.this_peer_id == old(self).persistent.this_peer_id,
            final(self).wal == old(self).wal,
            final(self).is_leader_established == old(self).is_leader_established,
            final(self).soft_state == old(self).soft_state,
            final(self).first_voter == old(self).first_voter,
            adds_learner(changes@) && as_text(address).is_none() && with_context ==> (
            r matches Err(StorageError::ServiceError { .. })) && (!is_not_saved(r)
                ==> is_service_failure(r, "Failed to parse peer uri"@)),
            !(adds_learner(changes@) && as_text(address).is_none() && with_context)
                ==> r is Ok || is_not_saved(r),
            r matches Ok(effects) ==> {
                &&& texts(final(self).persistent.peer_address_by_id@) == addresses_after(
                    texts(old(self).persistent.peer_address_by_id@),
                    changes@,
                    as_text(address),
                )
                &&& effects.stop_consensus == removes(changes@, old(self).persistent.this_peer_id)
                &&& effects.completed@.map_values(|o: ConsensusOperations| kind_of(o)) == completed(
                    changes@,
                    as_text(address),
                )
                &&& forall|k: int|
                    0 <= k < effects.completed@.len() ==> (match #[trigger] effects.completed@[k] {
                        ConsensusOperations::AddPeer(_, added) => Some(added@) == as_text(address),
                        ConsensusOperations::RemovePeer(_) => true,
                        ConsensusOperations::CollectionMeta(_) => false,
                    })
            },
            r is Err ==> partly_changed(
                texts(old(self).persistent.peer_address_by_id@),
                texts(final(self).persistent.peer_address_by_id@),
                changes@,
                as_text(address),
            ),
            r is Ok ==> is_saving(persist, final(self).persistent, true),
            is_not_saved(r) ==> is_saving(persist, final(self).persistent, false),
    {
        let ghost start = texts(self.persistent.peer_address_by_id@);
        self.persistent.state.conf_state = conf_state;
        if !self.save(&persist) {
            proof {
                assert(changes@.take(0).len() == 0);
                assert(texts(self.persistent.peer_address_by_id@) == addresses_after(
                    start,
                    changes@.take(0),
                    as_text(address),
                ));
            }
            return Err(StorageError::service_error("Failed to save the consensus state"));
        }
        let ghost uri = as_text(address);
        let ghost this_peer = self.persistent.this_peer_id;
        let mut stop_consensus = false;
        let mut done: Vec<ConsensusOperations> = Vec::new();
        let mut i: usize = 0;
        while i < changes.len()
            invariant
                i <= changes.len(),
                forall|p: &Persistent| call_requires(persist, (p,)),
                self.wf(),
                is_saving(persist, self.persistent, true),
                self.persistent.state.conf_state == conf_state,
                self.persistent.state.hard_state == old(self).persistent.state.hard_state,
                self.persistent.latest_snapshot_meta == old(self).persistent.latest_snapshot_meta,
                self.persistent.apply_progress_queue == old(self).persistent.apply_progress_queue,
                self.persistent.this_peer_id == this_peer,
                this_peer == old(self).persistent.this_peer_id,
                self.wal == old(self).wal,
                self.is_leader_established == old(self).is_leader_established,
                self.soft_state == old(self).soft_state,
                self.first_voter == old(self).first_voter,
                uri == as_text(address),
                start == texts(old(self).persistent.peer_address_by_id@),
                texts(self.persistent.peer_address_by_id@) == addresses_after(
                    start,
                    changes@.take(i as int),
                    uri,
                ),
                stop_consensus == removes(changes@.take(i as int), this_peer),
                done@.map_values(|o: ConsensusOperations| kind_of(o)) == completed(
                    changes@.take(i as int),
                    uri,
                ),
                forall|k: int|
                    0 <= k < done@.len() ==> (match #[trigger] done@[k] {
                        ConsensusOperations::AddPeer(_, added) => Some(added@) == uri,
                        ConsensusOperations::RemovePeer(_) => true,
                        ConsensusOperations::CollectionMeta(_) => false,
                    }),
                forall|k: int|
                    0 <= k < i && (#[trigger] changes@[k]).change_type is AddLearnerNode ==> !(
                    uri.is_none() && with_context),
            decreases changes.len() - i,
        {
            let change = changes[i];
            let ghost before_addresses = self.persistent.peer_address_by_id@;
            let ghost before_done = done@;
            proof {
                assert(changes@.take(i + 1).drop_last() == changes@.take(i as int));
                assert(changes@.take(i + 1).last() == change);
                assert(removes(changes@.take(i + 1), this_peer) == (removes(
                    changes@.take(i as int),
                    this_peer,
                ) || (change.change_type is RemoveNode && change.node_id == this_peer))) by {
                    if removes(changes@.take(i as int), this_peer) {
                        let w = choose|w: int|
                            0 <= w < i && (#[trigger] changes@.take(i as int)[w]).change_type
                                is RemoveNode && changes@.take(i as int)[w].node_id == this_peer;
                        assert(changes@.take(i + 1)[w] == changes@.take(i as int)[w]);
                    }
                    if change.change_type is RemoveNode && change.node_id == this_peer {
                        assert(changes@.take(i + 1)[i as int] == change);
                    }
                    if removes(changes@.take(i + 1), this_peer) {
                        let w = choose|w: int|
                            0 <= w < i + 1 && (#[trigger] changes@.take(i + 1)[w]).change_type
                                is RemoveNode && changes@.take(i + 1)[w].node_id == this_peer;
                        if w < i {
                            assert(changes@.take(i as int)[w] == changes@.take(i + 1)[w]);
                        }
                    }
                }
            }
            match change.change_type {
                ConfChangeType::AddNode => {},
                ConfChangeType::RemoveNode => {
                    if self.persistent.this_peer_id == change.node_id {
                        stop_consensus = true;
                    }
                    let removed = self.remove_peer(change.node_id, &persist);
                    proof {
                        assert(texts(self.persistent.peer_address_by_id@) =~= texts(
                            before_addresses,
                        ).remove(change.node_id));
                    }
                    match removed {
                        Ok(()) => {},
                        Err(e) => {
                            proof {
                                assert(texts(self.persistent.peer_address_by_id@)
                                    == addresses_after(start, changes@.take(i + 1), uri));
                            }
                            return Err(e);
                        },
                    }
                    done.push(ConsensusOperations::RemovePeer(change.node_id));
                    proof {
                        assert(done@.map_values(|o: ConsensusOperations| kind_of(o))
                            =~= before_done.map_values(|o: ConsensusOperations| kind_of(o)).push(
                            (false, change.node_id),
                        ));
                    }
                },
                ConfChangeType::AddLearnerNode => {
                    match address.clone() {
                        Some(address) => {
                            let added = self.add_peer(change.node_id, address.clone(), &persist);
                            proof {
                                assert(texts(self.persistent.peer_address_by_id@) =~= texts(
                                    before_addresses,
                                ).insert(change.node_id, address@));
                            }
                            match added {
                                Ok(()) => {},
                                Err(e) => {
                                    proof {
                                        assert(texts(self.persistent.peer_address_by_id@)
                                            == addresses_after(start, changes@.take(i + 1), uri));
                                    }
                                    return Err(e);
                                },
                            }
                            done.push(ConsensusOperations::AddPeer(change.node_id, address));
                            proof {
                                assert(done@.map_values(|o: ConsensusOperations| kind_of(o))
                                    =~= before_done.map_values(
                                    |o: ConsensusOperations| kind_of(o),
                                ).push((true, change.node_id)));
                            }
                        },
                        None => {
                            if with_context {
                                proof {
                                    reveal_strlit("Failed to parse peer uri");
                                    reveal_strlit("Failed to save the consensus state");
                                }
                                let error = StorageError::service_error("Failed to parse peer uri");
                                assert(error->ServiceError_description@[10] == 'p');
                                assert(not_saved()[10] == 's');
                                return Err(error);
                            }
                        },
                    }
                },
            }
            i += 1;
        }
        proof {
            assert(changes@.take(i as int) == changes@);
            if adds_learner(changes@) {
                let w = choose|w: int|
                    0 <= w < changes@.len() && (#[trigger] changes@[w]).change_type
                        is AddLearnerNode;
                assert(!(uri.is_none() && with_context));
            }
        }
        Ok(ConfChangeEffects { stop_consensus, completed: done })
    }
}

/// How a proposal of an operation ended outside this state.
pub enum ProposalOutcome {
    /// No leader was established within the time to wait, in seconds.
    LeaderNotEstablished { waited_secs: u64 },
    /// The operation could not be handed to the proposer.
    NotSent(StorageError),
    /// The operation was not applied within the time to wait, in seconds.
    TimedOut { waited_secs: u64 },
    /// The proposer went away before the operation was applied.
    Dropped,
    /// The operation was applied with this result.
    Applied(Result<bool, StorageError>),
}

/// The number of seconds that a proposal waits for when the caller names no
/// time.
pub const DEFAULT_META_OP_WAIT_SECS: u64 = 10;

/// The result of a proposal that was waited for. An operation that was
/// applied gives its own result, with the error of the user if it was
/// rejected. Everything else is a service error: no leader in time, an
/// operation that could not be sent or was not applied in time, a proposer
/// that went away.
pub fn propose_consensus_op_with_await(outcome: ProposalOutcome) -> (r: Result<bool, StorageError>)
    ensures
        match outcome {
            ProposalOutcome::Applied(result) => r == result,
            ProposalOutcome::NotSent(error) => r == Err::<bool, StorageError>(error),
            ProposalOutcome::LeaderNotEstablished { waited_secs } => is_service_failure(
                r,
                numbered(
                    "Failed to propose operation: leader is not established within "@,
                    waited_secs as nat,
                    " secs"@,
                ),
            ),
            ProposalOutcome::TimedOut { waited_secs } => is_service_failure(
                r,
                numbered(
                    "Waiting for consensus operation commit failed. Timeout set at: "@,
                    waited_secs as nat,
                    " seconds"@,
                ),
            ),
            ProposalOutcome::Dropped => is_service_failure(
                r,
                "The proposer went away before the operation was applied"@,
            ),
        },
{
    match outcome {
        ProposalOutcome::LeaderNotEstablished { waited_secs } => Err(
            StorageError::ServiceError {
                description: text_with_number(
                    "Failed to propose operation: leader is not established within ",
                    waited_secs,
                    " secs",
                ),
            },
        ),
        ProposalOutcome::NotSent(error) => Err(error),
        ProposalOutcome::TimedOut { waited_secs } => Err(
            StorageError::ServiceError {
                description: text_with_number(
                    "Waiting for consensus operation commit failed. Timeout set at: ",
                    waited_secs,
                    " seconds",
                ),
            },
        ),
        ProposalOutcome::Dropped => Err(
            StorageError::service_error("The proposer went away before the operation was applied"),
        ),
        ProposalOutcome::Applied(result) => result,
    }
}

/// What is known of one peer.
pub struct PeerInfo {
    pub uri: String,
}

/// The state of consensus as this peer sees it.
pub struct RaftInfo {
    pub term: u64,
    pub commit: u64,
    pub pending_operations: usize,
    pub leader: Option<u64>,
    pub role: Option<StateRole>,
    pub is_voter: bool,
}

/// The state of the cluster as this peer sees it.
pub struct ClusterInfo {
    pub peer_id: PeerId,
    pub peers: Vec<(PeerId, PeerInfo)>,
    pub raft_info: RaftInfo,
    pub consensus_thread_status: ConsensusThreadStatus,
}

/// The state of the cluster.
pub enum ClusterStatus {
    Disabled,
    Enabled(ClusterInfo),
}

impl ConsensusState {
    /// Checks that a snapshot is not behind the log: its index is at least
    /// the first index.
    ///
    /// Fails with a service error when the snapshot is out of date.
    pub fn check_snapshot(&self, meta: &SnapshotMetadata) -> (r: Result<(), StorageError>)
        requires
            self.wf(),
        ensures
            self.spec_first_index() > meta.index ==> is_service_failure(
                r,
                "Snapshot out of date"@,
            ),
            self.spec_first_index() <= meta.index ==> r is Ok,
    {
        if self.first_index() > meta.index {
            Err(StorageError::service_error("Snapshot out of date"))
        } else {
            Ok(())
        }
    }

    /// Installs a snapshot: the log is emptied, the members and the
    /// addresses of the peers are those of the snapshot, everything up to the
    /// index of the snapshot counts as committed and applied, and the state
    /// is saved.
    ///
    /// Fails with a service error, and changes nothing, when the snapshot
    /// is out of date. Fails with a service error when the state could not
    /// be saved; the snapshot is installed in memory all the same.
    pub fn apply_snapshot<P: Fn(&Persistent) -> bool>(
        &mut self,
        meta: &SnapshotMetadata,
        conf_state: ConfState,
        address_by_id: IdMap<PeerId, String>,
        persist: P,
    ) -> (r: Result<(), StorageError>)
        requires
            old(self).wf(),
            address_by_id.wf(),
            meta.index < u64::MAX,
            forall|p: &Persistent| call_requires(persist, (p,)),
        ensures
            always_saves(persist) ==> !is_not_saved(r),
            final(self).wf(),
            final(self).is_leader_established == old(self).is_leader_established,
            final(self).soft_state == old(self).soft_state,
            final(self).first_voter == old(self).first_voter,
            final(self).persistent.this_peer_id == old(self).persistent.this_peer_id,
            old(self).spec_first_index() > meta.index ==> is_service_failure(
                r,
                "Snapshot out of date"@,
            ) && !is_not_saved(r) && final(self).persistent == old(self).persistent && final(
                self).wal == old(self).wal,
            old(self).spec_first_index() <= meta.index ==> {
                &&& r is Ok || is_not_saved(r)
                &&& is_saving(persist, final(self).persistent, r is Ok)
                &&& final(self).wal@.len() == 0
                &&& final(self).persistent.latest_snapshot_meta == *meta
                &&& final(self).persistent.peer_address_by_id == address_by_id
                &&& final(self).persistent.state.conf_state == conf_state
                &&& final(self).persistent.state.hard_state == (HardState {
                    term: if old(self).persistent.state.hard_state.term >= meta.term {
                        old(self).persistent.state.hard_state.term
                    } else {
                        meta.term
                    },
                    vote: old(self).persistent.state.hard_state.vote,
                    commit: meta.index,
                })
                &&& final(self).persistent.apply_progress_queue.spec_current().is_none()
                &&& final(self).spec_first_index() == meta.index + 1
                &&& final(self).spec_last_index() == meta.index
            },
    {
        if self.first_index() > meta.index {
            proof {
                reveal_strlit("Snapshot out of date");
                reveal_strlit("Failed to save the consensus state");
            }
            let error = StorageError::service_error("Snapshot out of date");
            assert(error->ServiceError_description@[0] == 'S');
            assert(not_saved()[0] == 'F');
            return Err(error);
        }
        self.wal.clear();
        self.persistent.peer_address_by_id = address_by_id;
        self.persistent.state.conf_state = conf_state;
        if self.persistent.state.hard_state.term < meta.term {
            self.persistent.state.hard_state.term = meta.term;
        }
        self.persistent.state.hard_state.commit = meta.index;
        self.persistent.apply_progress_queue = EntryApplyProgressQueue::new(
            meta.index + 1,
            meta.index,
        );
        self.persistent.latest_snapshot_meta = *meta;
        if self.save(&persist) {
            Ok(())
        } else {
            Err(StorageError::service_error("Failed to save the consensus state"))
        }
    }

    /// What a snapshot of this state holds: the collections
    /// `collections_data` as they are now, and the addresses of the peers.
    pub fn snapshot_data(&self, collections_data: CollectionsSnapshot) -> (data: SnapshotData)
        requires
            self.wf(),
        ensures
            data.collections_data == collections_data,
            data.address_by_id.wf(),
            data.address_by_id.text_entries()
                == self.persistent.peer_address_by_id.text_entries(),
    {
        SnapshotData {
            collections_data,
            address_by_id: self.persistent.peer_address_by_id.copy_texts(),
        }
    }

    /// Makes the entry at `index` the latest snapshot and drops the log up
    /// to it. The state is saved before the log is cut.
    ///
    /// Fails with `NotFound` when the entry at `index` cannot be read, and
    /// with a service error when the state could not be saved; nothing has
    /// changed then.
    pub fn compact<P: Fn(&Persistent) -> bool>(&mut self, index: u64, persist: P) -> (r: Result<
        (),
        StorageError,
    >)
        requires
            old(self).wf(),
            forall|p: &Persistent| call_requires(persist, (p,)),
        ensures
            always_saves(persist) ==> !is_not_saved(r),
            final(self).wf(),
            final(self).is_leader_established == old(self).is_leader_established,
            final(self).soft_state == old(self).soft_state,
            final(self).first_voter == old(self).first_voter,
            final(self).persistent.state == old(self).persistent.state,
            final(self).persistent.peer_address_by_id == old(self).persistent.peer_address_by_id,
            final(self).persistent.apply_progress_queue == old(
                self).persistent.apply_progress_queue,
            final(self).persistent.this_peer_id == old(self).persistent.this_peer_id,
            old(self).spec_term(index) is Err || index == u64::MAX ==> (r matches Err(
                StorageError::NotFound { description },
            ) && description@ == numbered("No entry at index "@, index as nat, " to compact to"@)),
            old(self).spec_term(index) is Ok && index < u64::MAX ==> r is Ok || is_not_saved(r),
            r is Ok ==> is_saving(persist, final(self).persistent, true),
            is_not_saved(r) ==> is_saving(
                persist,
                old(self).persistent.with_snapshot(
                    SnapshotMetadata { index, term: old(self).spec_term(index)->Ok_0 },
                ),
                false,
            ),
            r is Err ==> final(self).wal == old(self).wal && final(
                self).persistent.latest_snapshot_meta == old(self).persistent.latest_snapshot_meta,
            r is Ok ==> final(self).persistent.latest_snapshot_meta == (SnapshotMetadata {
                index,
                term: old(self).spec_term(index)->Ok_0,
            }) && final(self).wal@ == old(self).wal@.filter(|e: EntryView| e.index > index),
    {
        let term = match self.term(index) {
            Ok(term) => term,
            Err(_) => {
                return Err(
                    StorageError::NotFound {
                        description: text_with_number("No entry at index ", index, " to compact to"),
                    },
                );
            },
        };
        if index == u64::MAX {
            return Err(
                StorageError::NotFound {
                    description: text_with_number("No entry at index ", index, " to compact to"),
                },
            );
        }
        let previous = self.persistent.latest_snapshot_meta;
        self.persistent.latest_snapshot_meta = SnapshotMetadata { index, term };
        if !self.save(&persist) {
            proof {
                assert(self.persistent.clean() == old(self).persistent.with_snapshot(
                    SnapshotMetadata { index, term },
                ).clean());
            }
            self.persistent.latest_snapshot_meta = previous;
            return Err(StorageError::service_error("Failed to save the consensus state"));
        }
        self.wal.compact(index);
        Ok(())
    }

    /// The state of the cluster as this peer sees it.
    pub fn cluster_status(&self) -> (status: ClusterStatus)
        ensures
            status matches ClusterStatus::Enabled(info) && {
                &&& info.peer_id == self.persistent.this_peer_id
                &&& info.peers@.len() == self.persistent.peer_address_by_id.entries().len()
                &&& forall|i: int|
                    0 <= i < info.peers@.len() ==> (#[trigger] info.peers@[i]).0
                        == self.persistent.peer_address_by_id.entries()[i].0 && info.peers@[i].1.uri@
                        == self.persistent.peer_address_by_id.entries()[i].1@
                &&& info.raft_info.term == self.persistent.state.hard_state.term
                &&& info.raft_info.commit == self.persistent.state.hard_state.commit
                &&& self.persistent.apply_progress_queue.spec_len() <= usize::MAX
                    ==> info.raft_info.pending_operations
                    == self.persistent.apply_progress_queue.spec_len()
                &&& info.raft_info.leader == (match self.soft_state {
                    Some(state) => Some(state.leader_id),
                    None => None,
                })
                &&& info.raft_info.role == (match self.soft_state {
                    Some(state) => Some(state.raft_state),
                    None => None,
                })
                &&& info.raft_info.is_voter == self.persistent.state.conf_state.voters@.contains(
                    self.persistent.this_peer_id,
                )
                &&& match (info.consensus_thread_status, self.consensus_thread_status) {
                    (ConsensusThreadStatus::Working, ConsensusThreadStatus::Working) => true,
                    (ConsensusThreadStatus::Stopped, ConsensusThreadStatus::Stopped) => true,
                    (
                        ConsensusThreadStatus::StoppedWithErr { err: a },
                        ConsensusThreadStatus::StoppedWithErr { err: b },
                    ) => a@ == b@,
                    _ => false,
                }
            },
    {
        let addresses = &self.persistent.peer_address_by_id;
        let mut peers: Vec<(PeerId, PeerInfo)> = Vec::new();
        let mut i: usize = 0;
        while i < addresses.len()
            invariant
                i <= addresses.entries().len(),
                peers@.len() == i,
                forall|k: int|
                    0 <= k < i ==> (#[trigger] peers@[k]).0 == addresses.entries()[k].0
                        && peers@[k].1.uri@ == addresses.entries()[k].1@,
            decreases addresses.entries().len() - i,
        {
            peers.push((addresses.id_at(i), PeerInfo { uri: addresses.value_at(i).clone() }));
            i += 1;
        }
        let voters = &self.persistent.state.conf_state.voters;
        let peer_id = self.persistent.this_peer_id;
        let mut is_voter = false;
        let mut k: usize = 0;
        while k < voters.len()
            invariant
                k <= voters.len(),
                is_voter == (exists|w: int| 0 <= w < k && #[trigger] voters@[w] == peer_id),
            decreases voters.len() - k,
        {
            if voters[k] == peer_id {
                is_voter = true;
            }
            k += 1;
        }
        ClusterStatus::Enabled(
            ClusterInfo {
                peer_id,
                peers,
                raft_info: RaftInfo {
                    term: self.persistent.state.hard_state.term,
                    commit: self.persistent.state.hard_state.commit,
                    pending_operations: self.persistent.unapplied_entities_count(),
                    leader: match self.soft_state {
                        Some(state) => Some(state.leader_id),
                        None => None,
                    },
                    role: match self.soft_state {
                        Some(state) => Some(state.raft_state),
                        None => None,
                    },
                    is_voter,
                },
                consensus_thread_status: match &self.consensus_thread_status {
                    ConsensusThreadStatus::Working => ConsensusThreadStatus::Working,
                    ConsensusThreadStatus::Stopped => ConsensusThreadStatus::Stopped,
                    ConsensusThreadStatus::StoppedWithErr { err } => {
                        ConsensusThreadStatus::StoppedWithErr { err: err.clone() }
                    },
                },
            },
        )
    }
}

} // verus!
