use std::cell::RefCell;

use collection::consensus_state::{
    apply_normal_entry, propose_consensus_op_with_await, ApplyAction, ApplyEvent,
    CollectionsSnapshot, ConfChangeSingle, ConfChangeType, ConfState, ConsensusOperations,
    ConsensusState, HardState, NormalEntryStep, Persistent, ProposalOutcome, SnapshotMetadata,
    SoftState, StateRole, StorageError,
};
use collection::consensus_wal::{
    ConsensusOpWal, EntryApplyProgressQueue, EntryType, LogError, RaftEntry,
};
use collection::id_map::IdMap;

fn entry(index: u64) -> RaftEntry {
    RaftEntry::new(index, 0)
}

fn entry_with_data(index: u64, term: u64, data: Vec<u8>) -> RaftEntry {
    RaftEntry {
        entry_type: EntryType::EntryNormal,
        term,
        index,
        data,
        context: Vec::new(),
        sync_log: false,
    }
}

fn fresh_state(this_peer_id: u64) -> ConsensusState {
    ConsensusState::new(Persistent::new(this_peer_id), ConsensusOpWal::new())
}

fn state_with_entries(entries: Vec<RaftEntry>) -> ConsensusState {
    let mut state = fresh_state(1);
    state.append_entries(entries).unwrap();
    state
}

fn gen_entries(n: u64, inc_term_every: u64) -> Vec<RaftEntry> {
    (1..(n + 1))
        .map(|index| RaftEntry::new(index, 1 + index / inc_term_every))
        .collect()
}

fn empty_conf_state() -> ConfState {
    ConfState {
        voters: Vec::new(),
        learners: Vec::new(),
        voters_outgoing: Vec::new(),
        learners_next: Vec::new(),
        auto_leave: false,
    }
}

#[test]
fn update_is_applied() {
    let mut state = fresh_state(1);
    assert_eq!(state.persistent.state().hard_state.commit, 0);
    state.set_commit_index(1, |_| true).unwrap();
    assert_eq!(state.persistent.state().hard_state.commit, 1);
}

#[test]
fn save_failure() {
    let mut state = fresh_state(1);
    assert!(state.set_commit_index(1, |_| false).is_err());
}

#[test]
fn state_is_loaded() {
    let saved: RefCell<Option<HardState>> = RefCell::new(None);
    let mut state = fresh_state(1);
    state
        .set_commit_index(1, |persistent| {
            *saved.borrow_mut() = Some(persistent.state.hard_state);
            true
        })
        .unwrap();
    assert_eq!(state.persistent.state().hard_state.commit, 1);

    let mut loaded = Persistent::new(1);
    loaded.state.hard_state = saved.borrow().unwrap();
    assert_eq!(loaded.state().hard_state.commit, 1);
}

#[test]
fn unapplied_entries() {
    let mut entries = EntryApplyProgressQueue::new(0, 2);
    assert_eq!(entries.current(), Some(0));
    assert_eq!(entries.len(), 3);
    entries.applied();
    assert_eq!(entries.current(), Some(1));
    assert_eq!(entries.len(), 2);
    entries.applied();
    assert_eq!(entries.current(), Some(2));
    assert_eq!(entries.len(), 1);
    entries.applied();
    assert_eq!(entries.current(), None);
    assert_eq!(entries.len(), 0);
}

#[test]
fn correct_entry_with_offset() {
    let mut wal = ConsensusOpWal::new();
    assert!(wal.append_entries(vec![entry(4)]));
    assert!(wal.append_entries(vec![entry(5)]));
    assert!(wal.append_entries(vec![entry(6)]));
    assert_eq!(wal.entry(5).unwrap().index, 5)
}

#[test]
fn at_least_1_entry() {
    let mut wal = ConsensusOpWal::new();
    assert!(wal.append_entries(vec![entry(4), entry(5)]));
    // Even when `max_size` is `0` this fn should return at least 1 entry
    assert_eq!(wal.entries(4, 5, Some(0)).unwrap().len(), 1)
}

#[test]
fn size_limit_cuts_the_entries_that_do_not_fit() {
    let mut wal = ConsensusOpWal::new();
    let entries: Vec<RaftEntry> = (1..=5)
        .map(|index| entry_with_data(index, 1, vec![7u8; 100]))
        .collect();
    assert!(wal.append_entries(entries));
    assert_eq!(wal.entries(1, 6, None).unwrap().len(), 5);
    assert_eq!(wal.entries(1, 6, Some(u64::MAX)).unwrap().len(), 5);
    assert_eq!(wal.entries(1, 6, Some(0)).unwrap().len(), 1);
    // Each entry takes a little more than its 100 bytes of data.
    let two = wal.entries(1, 6, Some(250)).unwrap();
    assert_eq!(two.len(), 2);
    assert_eq!(two[0].index, 1);
    assert_eq!(two[1].index, 2);
}

#[test]
fn wal_rejects_entries_that_do_not_continue_the_log() {
    let mut wal = ConsensusOpWal::new();
    assert!(wal.append_entries(vec![entry(4), entry(5)]));
    assert!(!wal.append_entries(vec![entry(7)]));
    assert!(!wal.append_entries(vec![entry(6), entry(8)]));
    assert_eq!(wal.len(), 2);
    assert!(wal.append_entries(vec![entry(6)]));
    assert_eq!(wal.len(), 3);
}

#[test]
fn wal_reads_fail_as_the_reference_does() {
    let mut wal = ConsensusOpWal::new();
    assert_eq!(wal.entry(1).err(), Some(LogError::Unavailable));
    assert!(wal.append_entries(vec![entry(4), entry(5)]));
    assert_eq!(wal.entry(0).err(), Some(LogError::Unavailable));
    assert_eq!(wal.entry(3).err(), Some(LogError::Compacted));
    assert_eq!(wal.entry(6).err(), Some(LogError::Unavailable));
    assert_eq!(wal.entries(3, 5, None).err(), Some(LogError::Compacted));
    assert_eq!(wal.entries(4, 7, None).err(), Some(LogError::Unavailable));
    assert_eq!(wal.entries(5, 5, None).unwrap().len(), 0);
}

#[test]
fn check_first_and_last_indexes() {
    for n in [0u64, 1, 2, 17, 99] {
        let state = state_with_entries(gen_entries(n, 3));
        // An in-memory log of the entries 1..=n without a snapshot.
        assert_eq!(state.first_index(), 1);
        assert_eq!(state.last_index(), n);
    }
}

#[test]
fn check_term() {
    let state = state_with_entries(gen_entries(20, 4));
    assert_eq!(state.term(0), Ok(0));
    for id in 1..=20u64 {
        assert_eq!(state.term(id), Ok(1 + id / 4));
    }
    assert_eq!(state.term(21), Err(LogError::Unavailable));
}

#[test]
fn check_entries() {
    let state = state_with_entries(gen_entries(30, 5));
    let read = state.entries(3, 9, None).unwrap();
    let indexes: Vec<u64> = read.iter().map(|e| e.index).collect();
    assert_eq!(indexes, vec![3, 4, 5, 6, 7, 8]);
    assert_eq!(state.entries(0, 4, None).err(), Some(LogError::Compacted));
    assert_eq!(state.entries(30, 31, Some(0)).unwrap().len(), 1);
    assert_eq!(state.entries(31, 31, Some(0)).unwrap().len(), 0);
}

#[test]
fn consensus_snapshot_roundtrip() {
    let saved: RefCell<Option<SnapshotMetadata>> = RefCell::new(None);
    let mut state = state_with_entries(gen_entries(50, 10));
    state
        .compact(40, |persistent| {
            *saved.borrow_mut() = Some(persistent.latest_snapshot_meta);
            true
        })
        .unwrap();

    // Restart: the adapter comes back from what was saved and from its log.
    let mut persistent = Persistent::new(1);
    persistent.latest_snapshot_meta = saved.borrow().unwrap();
    let ConsensusState { wal, .. } = state;
    let restarted = ConsensusState::new(persistent, wal);

    assert_eq!(restarted.first_index(), 41);
    assert_eq!(restarted.last_index(), 50);
    assert_eq!(restarted.entries(30, 41, None).err(), Some(LogError::Compacted));
    assert_eq!(restarted.entries(41, 51, None).unwrap().len(), 10);
    assert_eq!(restarted.term(40), Ok(5));
}

#[test]
fn compact_fails_without_the_entry_and_when_not_saved() {
    let mut state = state_with_entries(gen_entries(5, 10));
    assert!(matches!(
        state.compact(9, |_| true),
        Err(StorageError::NotFound { .. })
    ));
    assert!(matches!(
        state.compact(3, |_| false),
        Err(StorageError::ServiceError { .. })
    ));
    assert_eq!(state.first_index(), 1);
    assert_eq!(state.wal.len(), 5);
}

#[test]
fn snapshot_needs_the_index_to_be_committed() {
    let mut state = fresh_state(1);
    state
        .set_hard_state(HardState { term: 3, vote: 1, commit: 7 }, |_| true)
        .unwrap();
    assert_eq!(state.snapshot(7), Ok(SnapshotMetadata { index: 7, term: 3 }));
    assert_eq!(state.snapshot(2), Ok(SnapshotMetadata { index: 7, term: 3 }));
    assert_eq!(state.snapshot(8), Err(LogError::SnapshotTemporarilyUnavailable));
}

#[test]
fn out_of_date_snapshot_is_rejected() {
    let mut state = state_with_entries(gen_entries(5, 10));
    state.compact(4, |_| true).unwrap();
    let old = SnapshotMetadata { index: 3, term: 1 };
    assert!(matches!(
        state.check_snapshot(&old),
        Err(StorageError::ServiceError { .. })
    ));
    let r = state.apply_snapshot(&old, empty_conf_state(), IdMap::new(), |_| true);
    assert!(matches!(r, Err(StorageError::ServiceError { .. })));
    assert_eq!(state.wal.len(), 1);
}

#[test]
fn installed_snapshot_replaces_the_log() {
    let mut state = state_with_entries(gen_entries(5, 10));
    let mut addresses: IdMap<u64, String> = IdMap::new();
    addresses.insert(9, "http://peer-9:6335/".to_string());
    let meta = SnapshotMetadata { index: 12, term: 4 };
    state
        .apply_snapshot(&meta, empty_conf_state(), addresses, |_| true)
        .unwrap();
    assert_eq!(state.first_index(), 13);
    assert_eq!(state.last_index(), 12);
    assert_eq!(state.term(12), Ok(4));
    assert_eq!(state.hard_state(), HardState { term: 4, vote: 0, commit: 12 });
    assert_eq!(state.peer_count(), 1);
    assert_eq!(state.persistent.current_unapplied_entry(), None);
}

#[test]
fn empty_entries_establish_the_leader() {
    let mut state = state_with_entries(vec![
        RaftEntry::new(1, 1),
        entry_with_data(2, 1, vec![1, 2, 3]),
    ]);
    state.set_unapplied_entries(1, 2);
    assert!(matches!(
        state.apply_entries(ApplyEvent::Start, |_| true),
        ApplyAction::Again
    ));
    assert!(state.is_leader_established);
    match state.apply_entries(ApplyEvent::Continue, |_| true) {
        ApplyAction::ApplyNormal(entry) => assert_eq!(entry.index, 2),
        _ => panic!("the second entry is a normal entry"),
    }
    // The entry is not applied before its result is reported.
    assert_eq!(state.persistent.current_unapplied_entry(), Some(2));
    assert!(matches!(
        state.apply_entries(ApplyEvent::NormalApplied(Ok(true)), |_| true),
        ApplyAction::Done { stop_consensus: false }
    ));
    assert_eq!(state.persistent.current_unapplied_entry(), None);
    assert_eq!(state.last_applied_entry(), Some(2));
}

#[test]
fn service_errors_halt_and_user_errors_advance() {
    let mut state = state_with_entries(vec![
        entry_with_data(1, 1, vec![1]),
        entry_with_data(2, 1, vec![2]),
    ]);
    state.set_unapplied_entries(1, 2);
    assert!(matches!(
        state.apply_entries(ApplyEvent::Start, |_| true),
        ApplyAction::ApplyNormal(_)
    ));
    let halted = state.apply_entries(
        ApplyEvent::NormalApplied(Err(StorageError::service_error("later"))),
        |_| true,
    );
    assert!(matches!(halted, ApplyAction::Done { stop_consensus: false }));
    assert_eq!(state.persistent.current_unapplied_entry(), Some(1));

    let advanced = state.apply_entries(
        ApplyEvent::NormalApplied(Err(StorageError::BadInput {
            description: "wrong".to_string(),
        })),
        |_| true,
    );
    match advanced {
        ApplyAction::ApplyNormal(entry) => assert_eq!(entry.index, 2),
        _ => panic!("the rejected entry counts as applied"),
    }
    assert_eq!(state.persistent.current_unapplied_entry(), Some(2));
}

#[test]
fn leaving_the_group_stops_consensus() {
    let mut change = entry_with_data(1, 1, vec![9]);
    change.entry_type = EntryType::EntryConfChangeV2;
    let mut state = state_with_entries(vec![change]);
    state.set_unapplied_entries(1, 1);
    assert!(matches!(
        state.apply_entries(ApplyEvent::Start, |_| true),
        ApplyAction::ApplyConfChange(_)
    ));
    assert!(matches!(
        state.apply_entries(ApplyEvent::ConfChangeApplied(Ok(true)), |_| true),
        ApplyAction::Done { stop_consensus: true }
    ));
    assert_eq!(state.persistent.current_unapplied_entry(), Some(1));
}

#[test]
fn unsaved_queue_ends_the_application() {
    let mut state = state_with_entries(vec![entry_with_data(1, 1, vec![1])]);
    state.set_unapplied_entries(1, 1);
    assert!(matches!(
        state.apply_entries(ApplyEvent::Start, |_| false),
        ApplyAction::Done { stop_consensus: false }
    ));
}

#[test]
fn learner_gets_the_address_of_the_context() {
    let mut state = fresh_state(1);
    let changes = vec![ConfChangeSingle {
        change_type: ConfChangeType::AddLearnerNode,
        node_id: 7,
    }];
    let context = b"http://10.0.0.7:6335".to_vec();
    let effects = state
        .apply_conf_change_entry(&context, &changes, empty_conf_state(), |_| true)
        .unwrap();
    assert!(!effects.stop_consensus);
    assert_eq!(effects.completed.len(), 1);
    match &effects.completed[0] {
        ConsensusOperations::AddPeer(peer, uri) => {
            assert_eq!(*peer, 7);
            // The address as the parser prints it, not the bytes as they came.
            assert_eq!(uri, "http://10.0.0.7:6335/");
        }
        _ => panic!("the learner was added"),
    }
    assert_eq!(
        state.peer_address_by_id().get(7).map(|s| s.as_str()),
        Some("http://10.0.0.7:6335/")
    );
}

#[test]
fn learner_without_context_is_accepted_and_a_broken_context_is_not() {
    let changes = vec![ConfChangeSingle {
        change_type: ConfChangeType::AddLearnerNode,
        node_id: 7,
    }];
    let mut state = fresh_state(1);
    let effects = state
        .apply_conf_change_entry(&Vec::new(), &changes, empty_conf_state(), |_| true)
        .unwrap();
    assert_eq!(effects.completed.len(), 0);
    assert_eq!(state.peer_count(), 0);

    let broken = b"not a uri at all \\ ^".to_vec();
    let r = state.apply_conf_change_entry(&broken, &changes, empty_conf_state(), |_| true);
    assert!(matches!(r, Err(StorageError::ServiceError { .. })));
}

#[test]
fn removed_peer_loses_its_address() {
    let mut state = fresh_state(1);
    state.add_peer(1, "http://a/".to_string(), |_| true).unwrap();
    state.add_peer(2, "http://b/".to_string(), |_| true).unwrap();
    let changes = vec![
        ConfChangeSingle { change_type: ConfChangeType::AddNode, node_id: 2 },
        ConfChangeSingle { change_type: ConfChangeType::RemoveNode, node_id: 2 },
    ];
    let effects = state
        .apply_conf_change_entry(&Vec::new(), &changes, empty_conf_state(), |_| true)
        .unwrap();
    assert!(!effects.stop_consensus);
    assert!(matches!(effects.completed[0], ConsensusOperations::RemovePeer(2)));
    assert_eq!(state.peer_count(), 1);

    let leave = vec![ConfChangeSingle { change_type: ConfChangeType::RemoveNode, node_id: 1 }];
    let effects = state
        .apply_conf_change_entry(&Vec::new(), &leave, empty_conf_state(), |_| true)
        .unwrap();
    assert!(effects.stop_consensus);
}

#[test]
fn normal_entries_perform_operations_on_collections_only() {
    assert!(matches!(
        apply_normal_entry(ConsensusOperations::CollectionMeta(vec![1, 2])),
        NormalEntryStep::Perform(meta) if meta == vec![1, 2]
    ));
    assert!(matches!(
        apply_normal_entry(ConsensusOperations::RemovePeer(3)),
        NormalEntryStep::Settled(false)
    ));
    assert!(matches!(
        apply_normal_entry(ConsensusOperations::AddPeer(3, "http://c/".to_string())),
        NormalEntryStep::Settled(false)
    ));
}

#[test]
fn proposals_fail_with_service_errors_unless_applied() {
    match propose_consensus_op_with_await(ProposalOutcome::LeaderNotEstablished { waited_secs: 10 }) {
        Err(StorageError::ServiceError { description }) => assert_eq!(
            description,
            "Failed to propose operation: leader is not established within 10 secs"
        ),
        _ => panic!("no leader is a service error"),
    }
    assert!(matches!(
        propose_consensus_op_with_await(ProposalOutcome::TimedOut { waited_secs: 3 }),
        Err(StorageError::ServiceError { .. })
    ));
    assert!(matches!(
        propose_consensus_op_with_await(ProposalOutcome::Dropped),
        Err(StorageError::ServiceError { .. })
    ));
    assert!(matches!(
        propose_consensus_op_with_await(ProposalOutcome::Applied(Ok(true))),
        Ok(true)
    ));
    assert!(matches!(
        propose_consensus_op_with_await(ProposalOutcome::Applied(Err(StorageError::NotFound {
            description: "no such collection".to_string()
        }))),
        Err(StorageError::NotFound { .. })
    ));
    assert!(matches!(
        propose_consensus_op_with_await(ProposalOutcome::NotSent(StorageError::BadRequest {
            description: "closed".to_string()
        })),
        Err(StorageError::BadRequest { .. })
    ));
}

#[test]
fn candidates_have_no_established_leader() {
    let mut state = fresh_state(4);
    state.is_leader_established = true;
    state.set_raft_soft_state(&SoftState { leader_id: 2, raft_state: StateRole::Follower });
    assert!(state.is_leader_established);
    state.set_raft_soft_state(&SoftState { leader_id: 0, raft_state: StateRole::PreCandidate });
    assert!(!state.is_leader_established);
    assert_eq!(state.first_voter(), 4);
    state.set_first_voter(2);
    assert_eq!(state.first_voter(), 2);
}

#[test]
fn snapshot_holds_the_collections_and_the_addresses() {
    let mut state = fresh_state(1);
    state.add_peer(1, "http://10.0.0.1:6335/".to_string(), |_| true).unwrap();
    state.add_peer(2, "http://10.0.0.2:6335/".to_string(), |_| true).unwrap();
    let collections = CollectionsSnapshot {
        collections: Vec::new(),
        aliases: vec![("alias".to_string(), "points".to_string())],
    };
    let data = state.snapshot_data(collections);
    assert_eq!(data.collections_data.aliases, vec![("alias".to_string(), "points".to_string())]);
    assert!(data.collections_data.collections.is_empty());
    assert_eq!(
        data.address_by_id.into_entries(),
        vec![(1, "http://10.0.0.1:6335/".to_string()), (2, "http://10.0.0.2:6335/".to_string())]
    );
    // The state keeps its own addresses.
    assert_eq!(state.peer_count(), 2);
}

#[test]
fn failed_change_of_the_members_keeps_the_earlier_changes() {
    let mut state = fresh_state(1);
    state.add_peer(2, "http://10.0.0.2:6335/".to_string(), |_| true).unwrap();
    state.add_peer(3, "http://10.0.0.3:6335/".to_string(), |_| true).unwrap();
    let changes = vec![
        ConfChangeSingle { change_type: ConfChangeType::RemoveNode, node_id: 2 },
        ConfChangeSingle { change_type: ConfChangeType::AddLearnerNode, node_id: 7 },
        ConfChangeSingle { change_type: ConfChangeType::RemoveNode, node_id: 3 },
    ];
    let broken = b"not a uri at all \\ ^".to_vec();
    let r = state.apply_conf_change_entry(&broken, &changes, empty_conf_state(), |_| true);
    assert!(matches!(r, Err(StorageError::ServiceError { .. })));
    // The first change was made, the ones from the failure on were not.
    assert!(state.peer_address_by_id().get(2).is_none());
    assert!(state.peer_address_by_id().get(3).is_some());
    assert!(state.peer_address_by_id().get(7).is_none());
}

#[test]
fn changes_of_the_members_take_the_address_that_was_read() {
    let changes = vec![
        ConfChangeSingle { change_type: ConfChangeType::AddLearnerNode, node_id: 7 },
        ConfChangeSingle { change_type: ConfChangeType::RemoveNode, node_id: 1 },
    ];
    let mut state = fresh_state(1);
    let effects = state
        .apply_conf_changes(Some("http://peer/".to_string()), true, &changes, empty_conf_state(), |_| true)
        .unwrap();
    assert!(effects.stop_consensus);
    assert_eq!(effects.completed.len(), 2);
    assert_eq!(state.peer_address_by_id().get(7).map(|s| s.as_str()), Some("http://peer/"));

    let mut state = fresh_state(1);
    let unread = state.apply_conf_changes(None, true, &changes, empty_conf_state(), |_| true);
    assert!(matches!(unread, Err(StorageError::ServiceError { .. })));

    let mut state = fresh_state(1);
    let without = state
        .apply_conf_changes(None, false, &changes, empty_conf_state(), |_| true)
        .unwrap();
    assert!(without.stop_consensus);
    assert_eq!(without.completed.len(), 1);
    assert!(matches!(without.completed[0], ConsensusOperations::RemovePeer(1)));
    assert_eq!(state.peer_count(), 0);
}

#[test]
fn context_that_is_no_text_holds_no_address() {
    let changes = vec![ConfChangeSingle {
        change_type: ConfChangeType::AddLearnerNode,
        node_id: 7,
    }];
    let mut state = fresh_state(1);
    let mut context = b"http://10.0.0.7:6335".to_vec();
    context.push(0xff);
    let r = state.apply_conf_change_entry(&context, &changes, empty_conf_state(), |_| true);
    assert!(matches!(r, Err(StorageError::ServiceError { .. })));
    assert_eq!(state.peer_count(), 0);
}

#[test]
fn cluster_status_tells_what_this_peer_sees() {
    let mut state = state_with_entries(gen_entries(5, 10));
    state.add_peer(1, "http://10.0.0.1:6335/".to_string(), |_| true).unwrap();
    state.add_peer(2, "http://10.0.0.2:6335/".to_string(), |_| true).unwrap();
    let mut members = empty_conf_state();
    members.voters = vec![2, 1];
    state.set_conf_state(members, |_| true).unwrap();
    state.set_hard_state(HardState { term: 3, vote: 2, commit: 4 }, |_| true).unwrap();
    state.set_unapplied_entries(2, 4);
    state.set_raft_soft_state(&SoftState { leader_id: 2, raft_state: StateRole::Follower });
    match state.cluster_status() {
        collection::consensus_state::ClusterStatus::Enabled(info) => {
            assert_eq!(info.peer_id, 1);
            let peers: Vec<(u64, &str)> =
                info.peers.iter().map(|(id, peer)| (*id, peer.uri.as_str())).collect();
            assert_eq!(peers, vec![(1, "http://10.0.0.1:6335/"), (2, "http://10.0.0.2:6335/")]);
            assert_eq!(info.raft_info.term, 3);
            assert_eq!(info.raft_info.commit, 4);
            assert_eq!(info.raft_info.pending_operations, 3);
            assert_eq!(info.raft_info.leader, Some(2));
            assert_eq!(info.raft_info.role, Some(StateRole::Follower));
            assert!(info.raft_info.is_voter);
            assert!(matches!(
                info.consensus_thread_status,
                collection::consensus_state::ConsensusThreadStatus::Working
            ));
        }
        collection::consensus_state::ClusterStatus::Disabled => panic!("consensus is on"),
    }
    state.on_consensus_thread_err("lost the disk".to_string());
    match state.cluster_status() {
        collection::consensus_state::ClusterStatus::Enabled(info) => assert!(matches!(
            info.consensus_thread_status,
            collection::consensus_state::ConsensusThreadStatus::StoppedWithErr { err } if err == "lost the disk"
        )),
        collection::consensus_state::ClusterStatus::Disabled => panic!("consensus is on"),
    }
    state.on_consensus_stopped();
    assert!(matches!(
        state.consensus_thread_status,
        collection::consensus_state::ConsensusThreadStatus::Stopped
    ));
}

#[test]
fn change_of_the_members_is_decoded_from_the_entry() {
    let mut raw = raft::eraftpb::ConfChangeV2::default();
    raw.set_transition(raft::eraftpb::ConfChangeTransition::Explicit);
    let mut add = raft::eraftpb::ConfChangeSingle::default();
    add.set_change_type(raft::eraftpb::ConfChangeType::AddLearnerNode);
    add.set_node_id(7);
    let mut remove = raft::eraftpb::ConfChangeSingle::default();
    remove.set_change_type(raft::eraftpb::ConfChangeType::RemoveNode);
    remove.set_node_id(2);
    raw.mut_changes().push(add);
    raw.mut_changes().push(remove);
    raw.set_context(b"http://10.0.0.7:6335".to_vec().into());
    let data = protobuf::Message::write_to_bytes(&raw).unwrap();
    assert_ne!(data, b"http://10.0.0.7:6335".to_vec());

    let mut entry = entry_with_data(4, 1, data);
    entry.entry_type = EntryType::EntryConfChangeV2;
    let change = collection::consensus_state::decode_conf_change(&entry).ok().unwrap();
    assert_eq!(change.transition, collection::consensus_state::ConfChangeTransition::Explicit);
    assert_eq!(
        change.changes,
        vec![
            ConfChangeSingle { change_type: ConfChangeType::AddLearnerNode, node_id: 7 },
            ConfChangeSingle { change_type: ConfChangeType::RemoveNode, node_id: 2 },
        ]
    );
    assert_eq!(change.context, b"http://10.0.0.7:6335".to_vec());

    // A field of the wrong kind is no change of the members.
    let broken = entry_with_data(5, 1, vec![0x12, 0x05, 0x01]);
    assert!(matches!(
        collection::consensus_state::decode_conf_change(&broken),
        Err(StorageError::ServiceError { .. })
    ));
}

#[test]
fn what_is_saved_is_the_new_state() {
    let handed: RefCell<Vec<(u64, u64, usize)>> = RefCell::new(Vec::new());
    let record = |persistent: &Persistent| {
        handed.borrow_mut().push((
            persistent.state.hard_state.term,
            persistent.state.hard_state.commit,
            persistent.peer_address_by_id.len(),
        ));
        true
    };
    let mut state = fresh_state(1);
    state.set_hard_state(HardState { term: 3, vote: 1, commit: 2 }, &record).unwrap();
    state.set_commit_index(5, &record).unwrap();
    state.add_peer(2, "http://10.0.0.2:6335/".to_string(), &record).unwrap();
    state.remove_peer(2, &record).unwrap();
    assert_eq!(handed.into_inner(), vec![(3, 2, 0), (3, 5, 0), (3, 5, 1), (3, 5, 0)]);
    // A save that fails is reported, and the state in memory is the one that was handed over.
    let failed = state.set_commit_index(9, |persistent| persistent.state.hard_state.commit != 9);
    assert!(matches!(failed, Err(StorageError::ServiceError { .. })));
    assert_eq!(state.hard_state().commit, 9);
}
