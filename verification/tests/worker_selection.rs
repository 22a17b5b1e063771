//! Stock worker-selection policies.

use dynamo_serving::worker_selection::picker::{
    least_loaded_from, p2c_from, FirstPartyWorkerPicker,
};
use dynamo_serving::worker_selection::{
    register, worker_selection_policy, Cost, FirstPartyRoutingPolicy, FirstPartyWorkerScorer,
    Registration, WorkerCandidate, WorkerSelectionPolicyError, WorkerWithDpRank,
};

fn cost(value: i64) -> Cost {
    Cost {
        rank: value,
        value: Some(value),
    }
}

fn candidate(worker_id: u64, load: i64) -> WorkerCandidate {
    WorkerCandidate {
        worker: WorkerWithDpRank::from_worker_id(worker_id),
        active_requests: None,
        cost: cost(load),
    }
}

fn picker(policy: FirstPartyRoutingPolicy) -> FirstPartyWorkerPicker {
    worker_selection_policy((), "decode", policy).picker
}

fn turn(picker: &mut FirstPartyWorkerPicker, candidates: &[WorkerCandidate]) -> u64 {
    let row = picker.pick(candidates, false).unwrap();
    candidates[row].worker.worker_id
}

#[test]
fn round_robin_keeps_advisory_queries_and_partitions_independent() {
    let mut first = worker_selection_policy((), "decode", FirstPartyRoutingPolicy::RoundRobin);
    let mut second = worker_selection_policy((), "decode", FirstPartyRoutingPolicy::RoundRobin);
    let workers = [candidate(7, 0), candidate(11, 0)];

    let row = first.picker.pick(&workers, true).unwrap();
    assert_eq!(workers[row].worker, WorkerWithDpRank::from_worker_id(7));
    let row = first.picker.pick(&workers, true).unwrap();
    assert_eq!(workers[row].worker, WorkerWithDpRank::from_worker_id(7));

    let row = first.picker.pick(&workers, false).unwrap();
    assert_eq!(workers[row].worker, WorkerWithDpRank::from_worker_id(7));
    let row = second.picker.pick(&workers, false).unwrap();
    assert_eq!(workers[row].worker, WorkerWithDpRank::from_worker_id(7));
    let row = first.picker.pick(&workers, false).unwrap();
    assert_eq!(workers[row].worker, WorkerWithDpRank::from_worker_id(11));
}

#[test]
fn static_and_load_aware_policies_declare_different_requirements() {
    let static_policy =
        worker_selection_policy((), "decode", FirstPartyRoutingPolicy::RoundRobin);
    let load_aware_policy =
        worker_selection_policy((), "decode", FirstPartyRoutingPolicy::LeastLoaded);

    assert!(!static_policy.requirements().needs_cache_index());
    assert!(!static_policy.requirements().needs_active_request_load());
    assert!(!load_aware_policy.requirements().needs_cache_index());
    assert!(load_aware_policy.requirements().needs_active_request_load());
}

#[test]
fn every_policy_declares_what_it_needs() {
    for (policy, load) in [
        (FirstPartyRoutingPolicy::RoundRobin, false),
        (FirstPartyRoutingPolicy::Random, false),
        (FirstPartyRoutingPolicy::PowerOfTwoChoices, true),
        (FirstPartyRoutingPolicy::LeastLoaded, true),
    ] {
        let set_up = worker_selection_policy("config", "prefill", policy);
        assert_eq!(set_up.config, "config");
        assert_eq!(set_up.worker_type, "prefill");
        assert_eq!(set_up.requirements().needs_active_request_load(), load);
        assert!(!set_up.requirements().needs_cache_index());
    }
}

#[test]
fn the_turns_go_round_in_worker_order_whatever_the_rows() {
    let mut picker = picker(FirstPartyRoutingPolicy::RoundRobin);
    let one = [candidate(30, 0), candidate(10, 0), candidate(20, 0)];
    let two = [candidate(20, 0), candidate(30, 0), candidate(10, 0)];
    assert_eq!(turn(&mut picker, &one), 10);
    assert_eq!(turn(&mut picker, &two), 20);
    assert_eq!(turn(&mut picker, &one), 30);
    assert_eq!(turn(&mut picker, &two), 10);
    assert_eq!(turn(&mut picker, &one), 20);
}

#[test]
fn the_turn_survives_workers_that_come_and_go() {
    let mut picker = picker(FirstPartyRoutingPolicy::RoundRobin);
    assert_eq!(turn(&mut picker, &[candidate(10, 0), candidate(20, 0)]), 10);
    // Worker 10 has left, 15 has come.
    assert_eq!(turn(&mut picker, &[candidate(20, 0), candidate(15, 0)]), 15);
    assert_eq!(turn(&mut picker, &[candidate(20, 0), candidate(15, 0)]), 20);
    assert_eq!(turn(&mut picker, &[candidate(5, 0), candidate(20, 0)]), 5);
}

#[test]
fn ranks_of_one_worker_take_their_own_turns() {
    let mut picker = picker(FirstPartyRoutingPolicy::RoundRobin);
    let rank = |dp_rank: u32| WorkerCandidate {
        worker: WorkerWithDpRank {
            worker_id: 1,
            dp_rank,
        },
        active_requests: None,
        cost: cost(0),
    };
    let candidates = [rank(1), rank(0), candidate(2, 0)];
    assert_eq!(picker.pick(&candidates, false), Ok(1));
    assert_eq!(picker.pick(&candidates, false), Ok(0));
    assert_eq!(picker.pick(&candidates, false), Ok(2));
    assert_eq!(picker.pick(&candidates, false), Ok(1));
}

#[test]
fn the_first_of_equal_rows_is_picked() {
    let mut picker = picker(FirstPartyRoutingPolicy::RoundRobin);
    let candidates = [candidate(4, 0), candidate(3, 0), candidate(3, 0), candidate(4, 0)];
    assert_eq!(picker.round_robin_row(&candidates, false), 1);
    assert_eq!(picker.round_robin_row(&candidates, false), 0);
    assert_eq!(
        picker.last_round_robin_worker,
        Some(WorkerWithDpRank::from_worker_id(4))
    );
}

#[test]
fn no_candidate_is_an_error_for_every_policy() {
    for policy in [
        FirstPartyRoutingPolicy::RoundRobin,
        FirstPartyRoutingPolicy::Random,
        FirstPartyRoutingPolicy::PowerOfTwoChoices,
        FirstPartyRoutingPolicy::LeastLoaded,
    ] {
        assert_eq!(
            picker(policy).pick(&[], false),
            Err(WorkerSelectionPolicyError::Failed {
                message: "no eligible workers".to_string()
            })
        );
    }
}

#[test]
fn two_choices_take_the_cheaper_row_and_the_first_on_a_tie() {
    let candidates = [candidate(1, 5), candidate(2, 3), candidate(3, 5)];
    assert_eq!(p2c_from(&candidates, 0, 0), 1);
    assert_eq!(p2c_from(&candidates, 1, 0), 1);
    // 0 against 2, and 2 against 0: the same cost.
    assert_eq!(p2c_from(&candidates, 0, 1), 0);
    assert_eq!(p2c_from(&candidates, 2, 0), 2);
    // 2 against 1.
    assert_eq!(p2c_from(&candidates, 2, 1), 1);
    assert_eq!(p2c_from(&candidates[..1], 0, 0), 0);
}

#[test]
fn what_is_not_a_number_is_never_at_most_anything() {
    let mut strange = candidate(1, 0);
    strange.cost = Cost {
        rank: i64::MAX,
        value: None,
    };
    let plain = candidate(2, 9);
    assert_eq!(p2c_from(&[strange, plain], 0, 0), 1);
    assert_eq!(p2c_from(&[plain, strange], 0, 0), 1);
    assert!(!strange.cost.at_most(&strange.cost));
    assert_eq!(least_loaded_from(&[strange, plain], &[0, 0]), 1);
}

#[test]
fn the_least_loaded_row_wins_and_draws_decide_ties() {
    let candidates = [
        candidate(1, 4),
        candidate(2, 2),
        candidate(3, 7),
        candidate(4, 2),
        candidate(5, 2),
    ];
    assert_eq!(least_loaded_from(&candidates, &[0, 0, 0, 1, 1]), 1);
    assert_eq!(least_loaded_from(&candidates, &[0, 0, 0, 0, 1]), 3);
    assert_eq!(least_loaded_from(&candidates, &[0, 0, 0, 0, 2]), 3);
    assert_eq!(least_loaded_from(&candidates, &[0, 0, 0, 1, 0]), 4);
    assert_eq!(least_loaded_from(&candidates[..1], &[0]), 0);
}

#[test]
fn random_picks_stay_within_the_candidates_and_reach_them_all() {
    let candidates = [candidate(1, 1), candidate(2, 1), candidate(3, 1)];
    for policy in [
        FirstPartyRoutingPolicy::Random,
        FirstPartyRoutingPolicy::PowerOfTwoChoices,
        FirstPartyRoutingPolicy::LeastLoaded,
    ] {
        let mut picker = picker(policy);
        let mut seen = [false; 3];
        for _ in 0..500 {
            seen[picker.pick(&candidates, false).unwrap()] = true;
        }
        assert_eq!(seen, [true; 3], "{policy:?}");
        assert_eq!(picker.last_round_robin_worker, None);
    }
}

#[test]
fn load_aware_policies_prefer_the_less_loaded() {
    let candidates = [candidate(1, 9), candidate(2, 1)];
    for policy in [
        FirstPartyRoutingPolicy::PowerOfTwoChoices,
        FirstPartyRoutingPolicy::LeastLoaded,
    ] {
        let mut picker = picker(policy);
        for _ in 0..100 {
            assert_eq!(picker.pick(&candidates, false), Ok(1));
        }
    }
}

#[test]
fn the_score_is_the_number_of_active_requests() {
    let scorer = FirstPartyWorkerScorer {
        policy: FirstPartyRoutingPolicy::LeastLoaded,
    };
    let mut worker = candidate(1, 0);
    assert_eq!(scorer.score(&worker), 0);
    worker.active_requests = Some(12);
    assert_eq!(scorer.score(&worker), 12);
}

#[test]
fn the_policies_are_offered_in_order_until_one_is_refused() {
    let expected = [
        ("round_robin", FirstPartyRoutingPolicy::RoundRobin),
        ("random", FirstPartyRoutingPolicy::Random),
        (
            "power_of_two_choices",
            FirstPartyRoutingPolicy::PowerOfTwoChoices,
        ),
        ("least_loaded", FirstPartyRoutingPolicy::LeastLoaded),
    ];
    for (accepted, (name, policy)) in expected.into_iter().enumerate() {
        assert_eq!(
            register::<String>(accepted, None),
            Registration::Offer { name, policy }
        );
        assert_eq!(
            register(accepted, Some("taken".to_string())),
            Registration::Finished(Err("taken".to_string()))
        );
    }
    assert_eq!(register::<String>(4, None), Registration::Finished(Ok(())));
}
