use collection::replica_set::{
    ReadProgress, ReadStep, ReplicaSet, UpdateConclusion, UpdateOutcome,
};
use collection::shard::{RemoteShard, Shard};
use collection::types::CollectionError;

#[test]
fn build_records_every_replica_as_active() {
    let set: ReplicaSet<u8> = ReplicaSet::build(3, 1, Some(7u8), &vec![2, 5], |_state| true).unwrap();
    assert_eq!(set.peer_ids(), vec![2, 5, 1]);
    assert!(set.peer_is_active(&1));
    assert!(set.peer_is_active(&2));
    assert!(set.peer_is_active(&5));
    assert!(!set.peer_is_active(&9));
}

fn three_replicas() -> ReplicaSet<u8> {
    // Peer 1 is this peer; peers 2 and 3 hold the remote replicas.
    ReplicaSet::build(0, 1, Some(7u8), &vec![2, 3], |_| true).unwrap()
}

#[test]
fn unsaved_state_builds_no_set() {
    let r: Result<ReplicaSet<u8>, CollectionError> =
        ReplicaSet::build(0, 1, None, &vec![2], |_| false);
    assert!(matches!(r, Err(CollectionError::ServiceError { .. })));
}

#[test]
fn replicas_are_on_distinct_peers_other_than_this_one() {
    let twice: Result<ReplicaSet<u8>, CollectionError> =
        ReplicaSet::build(0, 1, None, &vec![2, 3, 2], |_| true);
    assert!(matches!(twice, Err(CollectionError::BadRequest { .. })));
    let this_peer: Result<ReplicaSet<u8>, CollectionError> =
        ReplicaSet::build(0, 1, Some(7u8), &vec![2, 1], |_| true);
    assert!(matches!(this_peer, Err(CollectionError::BadRequest { .. })));
}

#[test]
fn read_without_an_answer_fails() {
    let set = three_replicas();
    assert!(matches!(
        set.read_step::<u32>(ReadProgress::FanOut { local_error: None, results: Vec::new() }),
        ReadStep::Done(Err(CollectionError::ServiceError { .. }))
    ));
}

#[test]
fn set_active_is_saved_before_it_takes_effect() {
    let mut set = three_replicas();
    assert!(set.set_active(&2, false, |_| true).is_ok());
    assert!(!set.peer_is_active(&2));
    // A state that cannot be saved leaves the set as it was.
    let r = set.set_active(&3, false, |_| false);
    assert!(matches!(r, Err(CollectionError::ServiceError { .. })));
    assert!(set.peer_is_active(&3));
    match set.set_active(&9, true, |_| true) {
        Err(CollectionError::NotFound { what }) => {
            assert_eq!(what, "Shard 0 replica on peer 9")
        }
        _ => panic!("peer 9 is unknown"),
    }
}

#[test]
fn saved_state_is_the_state_in_memory() {
    let saved: std::cell::RefCell<Vec<(u64, bool)>> = std::cell::RefCell::new(Vec::new());
    let keep = |state: &collection::replica_set::ReplicaState| {
        let mut entries = Vec::new();
        for i in 0..state.len() {
            entries.push((state.id_at(i), *state.value_at(i)));
        }
        *saved.borrow_mut() = entries;
        true
    };
    let mut set: ReplicaSet<u8> = ReplicaSet::build(0, 1, Some(1u8), &vec![2], &keep).unwrap();
    set.set_active(&2, false, &keep).unwrap();
    set.add_inactive_replica_state(&5, &keep).unwrap();
    assert!(set.set_active(&5, true, |_| false).is_err());
    let in_memory: Vec<(u64, bool)> = (0..set.replica_state.len())
        .map(|i| (set.replica_state.id_at(i), *set.replica_state.value_at(i)))
        .collect();
    assert_eq!(*saved.borrow(), in_memory);
    assert_eq!(in_memory, vec![(1, true), (2, false), (5, false)]);
}

#[test]
fn known_peers_cannot_be_added_again() {
    let mut set = three_replicas();
    match set.add_inactive_replica_state(&2, |_| true) {
        Err(CollectionError::ServiceError { error }) => {
            assert_eq!(error, "replica for peer 2 is already registered")
        }
        _ => panic!("peer 2 is known"),
    }
    assert!(set.add_inactive_replica_state(&8, |_| true).is_ok());
    assert!(!set.peer_is_active(&8));
}

#[test]
fn remove_replica_hands_the_local_shard_back() {
    let mut set = three_replicas();
    assert!(matches!(set.remove_replica(&1, |_| true), Ok(Some(Shard::Local(7)))));
    assert_eq!(set.peer_ids(), vec![2, 3]);
    assert!(matches!(
        set.remove_replica(&1, |_| true),
        Err(CollectionError::ServiceError { .. })
    ));
    assert!(matches!(set.remove_replica(&3, |_| true), Ok(None)));
    assert_eq!(set.peer_ids(), vec![2]);
    assert!(matches!(
        set.remove_replica(&3, |_| true),
        Err(CollectionError::ServiceError { .. })
    ));
    assert!(!set.peer_is_active(&3));
}

#[test]
fn apply_state_keeps_a_replica_for_each_peer_of_the_state() {
    let mut set = three_replicas();
    let mut target = collection::replica_set::ReplicaState::new();
    target.insert(3, false);
    target.insert(2, true);
    // This peer is not part of the state: its replica is handed back.
    let dropped = set.apply_state(&target, |_| true).unwrap();
    assert!(matches!(dropped, Some(Shard::Local(7))));
    assert_eq!(set.peer_ids(), vec![2, 3]);
    assert!(set.peer_is_active(&2));
    assert!(!set.peer_is_active(&3));
    assert!(!set.peer_is_active(&1));

    // A peer without a replica cannot be part of the state.
    let mut unknown = collection::replica_set::ReplicaState::new();
    unknown.insert(2, true);
    unknown.insert(6, true);
    assert!(matches!(
        set.apply_state(&unknown, |_| true),
        Err(CollectionError::BadRequest { .. })
    ));
    assert_eq!(set.peer_ids(), vec![2, 3]);

    // A state that keeps this peer drops nothing.
    let mut keep_local = three_replicas();
    let mut target = collection::replica_set::ReplicaState::new();
    target.insert(1, true);
    assert!(matches!(keep_local.apply_state(&target, |_| true), Ok(None)));
    assert_eq!(keep_local.peer_ids(), vec![1]);
}

#[test]
fn proxify_local_wraps_a_plain_local_shard_only() {
    let mut set = three_replicas();
    let remote = RemoteShard { id: 0, peer_id: 3 };
    assert!(set.proxify_local(remote).is_ok());
    match set.local.as_deref() {
        Some(Shard::ForwardProxy(proxy)) => {
            assert_eq!(proxy.wrapped_shard, 7);
            assert_eq!(proxy.remote_shard, remote);
        }
        _ => panic!("the local replica is behind a proxy"),
    }
    assert!(matches!(
        set.proxify_local(remote),
        Err(CollectionError::ServiceError { .. })
    ));
    assert!(matches!(set.local.as_deref(), Some(Shard::ForwardProxy(_))));

    let mut without_local: ReplicaSet<u8> =
        ReplicaSet::build(0, 1, None, &vec![2, 3], |_| true).unwrap();
    match without_local.proxify_local(remote) {
        Err(CollectionError::ServiceError { error }) => {
            assert_eq!(error, "cannot proxy absent local shard")
        }
        _ => panic!("there is no local replica"),
    }
}

#[test]
fn shard_distribution_names_this_peer_first() {
    let set = three_replicas();
    assert_eq!(set.shard_distribution(), vec![(0, 1), (0, 2), (0, 3)]);
}

#[test]
fn writes_go_to_every_active_replica() {
    let mut set = three_replicas();
    let plan = set.update_plan().unwrap();
    assert!(plan.local);
    assert_eq!(plan.remotes, vec![2, 3]);
    set.set_active(&2, false, |_| true).unwrap();
    set.set_active(&1, false, |_| true).unwrap();
    let plan = set.update_plan().unwrap();
    assert!(!plan.local);
    assert_eq!(plan.remotes, vec![3]);
    set.set_active(&3, false, |_| true).unwrap();
    match set.update_plan() {
        Err(CollectionError::ServiceError { error }) => assert_eq!(
            error,
            "The replica set for shard 0 on peer 1 has no active replica"
        ),
        _ => panic!("no replica is active"),
    }
}

#[test]
fn replica_failure_is_reported_with_its_peer() {
    // Peers A = 1, B = 2, C = 3; B cannot be reached.
    let failed: UpdateOutcome<u32> = UpdateOutcome::Failed {
        peer_id: 2,
        error: CollectionError::ServiceError { error: "unreachable".to_string() },
    };
    let UpdateConclusion { result, failed_peer } = ReplicaSet::<u8>::conclude_update(failed);
    assert_eq!(failed_peer, Some(2));
    assert!(matches!(
        result,
        Err(CollectionError::ServiceError { error }) if error == "Peer 2: unreachable"
    ));
    let timed_out: UpdateOutcome<u32> =
        UpdateOutcome::Failed { peer_id: 31, error: CollectionError::Timeout };
    assert!(matches!(
        ReplicaSet::<u8>::conclude_update(timed_out).result,
        Err(CollectionError::ServiceError { error }) if error == "Peer 31: the deadline has passed"
    ));
    let refused: UpdateOutcome<u32> = UpdateOutcome::Failed {
        peer_id: 4,
        error: CollectionError::BadRequest { description: "no such field".to_string() },
    };
    assert!(matches!(
        ReplicaSet::<u8>::conclude_update(refused).result,
        Err(CollectionError::BadRequest { description }) if description == "Peer 4: no such field"
    ));

    let replied: UpdateOutcome<u32> = UpdateOutcome::Replied { remote: vec![11, 12], local: Some(10) };
    let conclusion = ReplicaSet::<u8>::conclude_update(replied);
    assert_eq!(conclusion.failed_peer, None);
    assert!(matches!(conclusion.result, Ok(11)));

    let local_only: UpdateOutcome<u32> = UpdateOutcome::Replied { remote: vec![], local: Some(10) };
    assert!(matches!(ReplicaSet::<u8>::conclude_update(local_only).result, Ok(10)));

    let nobody: UpdateOutcome<u32> = UpdateOutcome::Replied { remote: vec![], local: None };
    assert!(matches!(
        ReplicaSet::<u8>::conclude_update(nobody).result,
        Err(CollectionError::ServiceError { .. })
    ));
}

#[test]
fn reads_prefer_the_local_replica_and_fall_back_in_groups() {
    let set: ReplicaSet<u8> =
        ReplicaSet::build(0, 1, Some(7u8), &vec![2, 3, 4], |_| true).unwrap();
    assert!(matches!(set.read_step::<u32>(ReadProgress::Start), ReadStep::QueryLocal));
    assert!(matches!(
        set.read_step(ReadProgress::Local(Ok(5u32))),
        ReadStep::Done(Ok(5))
    ));
    let local_failed = CollectionError::ServiceError { error: "disk".to_string() };
    let carried = match set.read_step::<u32>(ReadProgress::Local(Err(local_failed))) {
        ReadStep::QueryFanOut { peers, local_error } => {
            assert_eq!(peers, vec![2, 3]);
            local_error
        }
        _ => panic!("the first two remote replicas are read next"),
    };
    // The error of the local replica is the first error, whatever fails later.
    let later = vec![Err(CollectionError::Timeout), Err(CollectionError::Timeout)];
    let carried = match set.read_step::<u32>(ReadProgress::FanOut { local_error: carried, results: later }) {
        ReadStep::QueryFallback { peers, captured } => {
            assert_eq!(peers, vec![4]);
            captured
        }
        _ => panic!("the remaining replica is read next"),
    };
    assert!(matches!(
        set.read_step::<u32>(ReadProgress::Fallback {
            captured: carried,
            results: vec![Err(CollectionError::Timeout)]
        }),
        ReadStep::Done(Err(CollectionError::ServiceError { error })) if error == "disk"
    ));
    let first = CollectionError::ServiceError { error: "first".to_string() };
    let second = CollectionError::Timeout;
    match set.read_step::<u32>(ReadProgress::FanOut {
        local_error: None,
        results: vec![Err(first), Err(second)],
    }) {
        ReadStep::QueryFallback { peers, captured } => {
            assert_eq!(peers, vec![4]);
            assert!(matches!(captured, CollectionError::ServiceError { error } if error == "first"));
        }
        _ => panic!("the remaining replica is read next"),
    }
    assert!(matches!(
        set.read_step(ReadProgress::FanOut {
            local_error: None,
            results: vec![Err(CollectionError::Timeout), Ok(9u32)]
        }),
        ReadStep::Done(Ok(9))
    ));
    let captured = CollectionError::ServiceError { error: "first".to_string() };
    assert!(matches!(
        set.read_step::<u32>(ReadProgress::Fallback {
            captured,
            results: vec![Err(CollectionError::Timeout)]
        }),
        ReadStep::Done(Err(CollectionError::ServiceError { .. }))
    ));
    assert!(matches!(
        set.read_step(ReadProgress::Fallback {
            captured: CollectionError::Timeout,
            results: vec![Ok(3u32)]
        }),
        ReadStep::Done(Ok(3))
    ));
}

#[test]
fn reads_without_an_active_replica_fail() {
    let mut set: ReplicaSet<u8> = ReplicaSet::build(0, 1, None, &vec![2], |_| true).unwrap();
    set.set_active(&2, false, |_| true).unwrap();
    assert!(matches!(
        set.read_step::<u32>(ReadProgress::Start),
        ReadStep::Done(Err(CollectionError::ServiceError { .. }))
    ));
}

#[test]
fn failed_local_read_without_a_remote_replica_returns_its_error() {
    let mut set: ReplicaSet<u8> = ReplicaSet::build(0, 1, Some(7u8), &vec![2], |_| true).unwrap();
    set.set_active(&2, false, |_| true).unwrap();
    assert!(matches!(set.read_step::<u32>(ReadProgress::Start), ReadStep::QueryLocal));
    assert!(matches!(
        set.read_step::<u32>(ReadProgress::Local(Err(CollectionError::Timeout))),
        ReadStep::Done(Err(CollectionError::Timeout))
    ));
}
