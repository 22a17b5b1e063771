//! Replicas agreeing on bindings.

use dynamo_serving::session_affinity::{
    apply_replica_binding, revision_timestamp, sequence_from_nanos, AffinityRevision,
    AffinityTarget, ReplicaApplyOutcome, ReplicaBinding,
};

fn target(worker_id: u64) -> AffinityTarget {
    AffinityTarget {
        worker_id,
        dp_rank: None,
    }
}

fn revision(sequence: u64, router_id: u64) -> AffinityRevision {
    AffinityRevision {
        sequence,
        router_id,
    }
}

fn binding(worker_id: u64, sequence: u64, router_id: u64) -> ReplicaBinding {
    ReplicaBinding {
        target: target(worker_id),
        revision: revision(sequence, router_id),
    }
}

#[test]
fn a_newer_binding_replaces_the_one_at_hand() {
    let mut known = binding(1, 10, 1);
    assert_eq!(
        apply_replica_binding(&mut known, target(2), revision(11, 0)),
        ReplicaApplyOutcome::ReplacedNewer
    );
    assert_eq!(known.target, target(2));
    assert_eq!(known.revision, revision(11, 0));
    // Between equal sequence numbers the router decides.
    assert_eq!(
        apply_replica_binding(&mut known, target(3), revision(11, 1)),
        ReplicaApplyOutcome::ReplacedNewer
    );
    assert_eq!(known.target, target(3));
}

#[test]
fn the_same_binding_refreshes() {
    let mut known = binding(1, 10, 1);
    assert_eq!(
        apply_replica_binding(&mut known, target(1), revision(10, 1)),
        ReplicaApplyOutcome::Refreshed
    );
    assert_eq!(known.target, target(1));
    assert_eq!(known.revision, revision(10, 1));
}

#[test]
fn stale_news_changes_nothing() {
    let mut known = binding(1, 10, 5);
    for (other, stale) in [
        (target(2), revision(9, 9)),
        (target(1), revision(9, 9)),
        (target(2), revision(10, 4)),
        (target(2), revision(10, 5)),
    ] {
        assert_eq!(
            apply_replica_binding(&mut known, other, stale),
            ReplicaApplyOutcome::IgnoredStale
        );
        assert_eq!(known.target, target(1));
        assert_eq!(known.revision, revision(10, 5));
    }
}

#[test]
fn repeated_news_is_a_refresh() {
    let mut known = binding(1, 10, 1);
    apply_replica_binding(&mut known, target(2), revision(12, 1));
    assert_eq!(
        apply_replica_binding(&mut known, target(2), revision(12, 1)),
        ReplicaApplyOutcome::Refreshed
    );
    assert_eq!(known.target, target(2));
}

#[test]
fn replicas_agree_whatever_the_order_of_the_news() {
    let news = [binding(2, 11, 3), binding(3, 12, 1), binding(4, 12, 2)];
    for order in [[0, 1, 2], [0, 2, 1], [1, 0, 2], [1, 2, 0], [2, 0, 1], [2, 1, 0]] {
        let mut known = binding(1, 10, 1);
        for which in order {
            apply_replica_binding(&mut known, news[which].target, news[which].revision);
        }
        assert_eq!(known.target, target(4));
        assert_eq!(known.revision, revision(12, 2));
    }
}

#[test]
fn a_rank_is_part_of_the_target() {
    let mut known = binding(1, 10, 1);
    let ranked = AffinityTarget {
        worker_id: 1,
        dp_rank: Some(0),
    };
    assert_eq!(
        apply_replica_binding(&mut known, ranked, revision(10, 1)),
        ReplicaApplyOutcome::IgnoredStale
    );
    assert_eq!(known.target.dp_rank, None);
}

#[test]
fn revisions_are_ordered_by_sequence_then_router() {
    assert!(revision(2, 0) > revision(1, 9));
    assert!(revision(1, 2) > revision(1, 1));
    assert!(!(revision(1, 1) > revision(1, 1)));
    assert!(revision(1, 1) < revision(1, 2));
    assert_eq!(
        revision(3, 4).cmp(&revision(3, 5)),
        std::cmp::Ordering::Less
    );
    assert_eq!(
        revision(3, 4).partial_cmp(&revision(2, 5)),
        Some(std::cmp::Ordering::Greater)
    );
}

#[test]
fn nanoseconds_that_do_not_fit_stop_one_short() {
    assert_eq!(sequence_from_nanos(0), 0);
    assert_eq!(sequence_from_nanos(1_700_000_000_000_000_000), 1_700_000_000_000_000_000);
    assert_eq!(sequence_from_nanos(u64::MAX as u128), u64::MAX);
    assert_eq!(sequence_from_nanos(u64::MAX as u128 + 1), u64::MAX - 1);
    assert_eq!(sequence_from_nanos(u128::MAX), u64::MAX - 1);
}

#[test]
fn timestamps_are_nanoseconds_since_the_epoch() {
    let before = std::time::SystemTime::now()
        .duration_since(std::time::UNIX_EPOCH)
        .unwrap()
        .as_nanos();
    let stamp = revision_timestamp() as u128;
    let after = std::time::SystemTime::now()
        .duration_since(std::time::UNIX_EPOCH)
        .unwrap()
        .as_nanos();
    assert!(stamp > 1_000_000_000_000_000_000);
    assert!(before <= stamp && stamp <= after);
}
