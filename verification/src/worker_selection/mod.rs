//! The worker-selection policies that are always there.
//!
//! A policy holds its algorithm and its own state. Which workers there are, which of them
//! are eligible and how requests are accounted for is the host's to know: it hands a
//! policy the candidates and takes back a row.

pub mod laws;
pub mod outside;
pub mod picker;

use std::cmp::Ordering;

use vstd::prelude::*;

use self::picker::FirstPartyWorkerPicker;

verus! {

/// A worker, down to one of its data-parallel ranks. Ordered by worker first, then by
/// rank.
#[derive(Clone, Copy, Debug, PartialEq, Eq, Ord, Hash, Structural)]
pub struct WorkerWithDpRank {
    pub worker_id: u64,
    pub dp_rank: u32,
}

/// `left` comes before `right`.
pub open spec fn precedes(left: WorkerWithDpRank, right: WorkerWithDpRank) -> bool {
    left.worker_id < right.worker_id || (left.worker_id == right.worker_id && left.dp_rank
        < right.dp_rank)
}

impl PartialOrd for WorkerWithDpRank {
    fn partial_cmp(&self, other: &WorkerWithDpRank) -> (order: Option<Ordering>) {
        if self.worker_id < other.worker_id || (self.worker_id == other.worker_id && self.dp_rank
            < other.dp_rank) {
            Some(Ordering::Less)
        } else if self.worker_id == other.worker_id && self.dp_rank == other.dp_rank {
            Some(Ordering::Equal)
        } else {
            Some(Ordering::Greater)
        }
    }
}

impl vstd::std_specs::cmp::PartialOrdSpecImpl for WorkerWithDpRank {
    open spec fn obeys_partial_cmp_spec() -> bool {
        true
    }

    open spec fn partial_cmp_spec(&self, other: &WorkerWithDpRank) -> Option<Ordering> {
        if precedes(*self, *other) {
            Some(Ordering::Less)
        } else if *self == *other {
            Some(Ordering::Equal)
        } else {
            Some(Ordering::Greater)
        }
    }
}

impl WorkerWithDpRank {
    /// The only rank of a worker without data parallelism.
    pub fn from_worker_id(worker_id: u64) -> (worker: WorkerWithDpRank)
        ensures
            worker == (WorkerWithDpRank { worker_id, dp_rank: 0 }),
    {
        WorkerWithDpRank { worker_id, dp_rank: 0 }
    }
}

/// What a worker costs, by its place among all costs. Costs are numbers that need not be
/// comparable: one that is not a number has no place in the ordinary order of numbers,
/// but has one in the total order.
#[derive(Clone, Copy, Debug, PartialEq, Eq, Structural)]
pub struct Cost {
    /// The place in the total order of costs.
    pub rank: i64,
    /// The place in the ordinary order of numbers, for a cost that is a number.
    pub value: Option<i64>,
}

impl Cost {
    /// This cost is at most `other`, as numbers go. What is not a number is not at most
    /// anything, and nothing is at most it.
    pub open spec fn is_at_most(&self, other: &Cost) -> bool {
        match (self.value, other.value) {
            (Some(left), Some(right)) => left <= right,
            _ => false,
        }
    }

    /// Whether this cost is at most `other`, as numbers go.
    pub fn at_most(&self, other: &Cost) -> (holds: bool)
        ensures
            holds == self.is_at_most(other),
            holds <==> (self.value matches Some(left) && other.value matches Some(right) && left
                <= right),
    {
        match (self.value, other.value) {
            (Some(left), Some(right)) => left <= right,
            _ => false,
        }
    }
}

/// A worker that a request may go to.
#[derive(Clone, Copy, Debug, PartialEq, Eq)]
pub struct WorkerCandidate {
    pub worker: WorkerWithDpRank,
    /// How many requests the worker is serving, when that is known.
    pub active_requests: Option<u64>,
    /// What the worker costs, as the host makes it up from the scores.
    pub cost: Cost,
}

/// What a policy has to be told of the workers.
#[derive(Clone, Copy, Debug, PartialEq, Eq, Structural)]
pub struct WorkerInputs {
    pub cache_index: bool,
    pub active_request_load: bool,
}

impl WorkerInputs {
    /// Whether the cache index is needed.
    pub fn needs_cache_index(&self) -> (needed: bool)
        ensures
            needed == self.cache_index,
    {
        self.cache_index
    }

    /// Whether the load in active requests is needed.
    pub fn needs_active_request_load(&self) -> (needed: bool)
        ensures
            needed == self.active_request_load,
    {
        self.active_request_load
    }
}

/// Why no worker was selected.
#[derive(Debug, PartialEq, Eq)]
pub enum WorkerSelectionPolicyError {
    Failed { message: String },
}

/// The policies themselves.
#[derive(Clone, Copy, Debug, PartialEq, Eq, Structural)]
pub enum FirstPartyRoutingPolicy {
    RoundRobin,
    Random,
    PowerOfTwoChoices,
    LeastLoaded,
}

// --- registration ----------------------------------------------------------------

/// The name under which a policy is registered.
pub open spec fn policy_name(policy: FirstPartyRoutingPolicy) -> Seq<char> {
    match policy {
        FirstPartyRoutingPolicy::RoundRobin => "round_robin"@,
        FirstPartyRoutingPolicy::Random => "random"@,
        FirstPartyRoutingPolicy::PowerOfTwoChoices => "power_of_two_choices"@,
        FirstPartyRoutingPolicy::LeastLoaded => "least_loaded"@,
    }
}

/// The policies in the order in which they are registered.
pub open spec fn all_policies() -> Seq<FirstPartyRoutingPolicy> {
    seq![
        FirstPartyRoutingPolicy::RoundRobin,
        FirstPartyRoutingPolicy::Random,
        FirstPartyRoutingPolicy::PowerOfTwoChoices,
        FirstPartyRoutingPolicy::LeastLoaded,
    ]
}

/// What is next in registering the policies.
#[derive(Debug, PartialEq, Eq)]
pub enum Registration<R> {
    /// Hand this policy to the registry, under this name.
    Offer { name: &'static str, policy: FirstPartyRoutingPolicy },
    /// All is done, or the registry has refused a policy.
    Finished(Result<(), R>),
}

/// Decides what is next in registering the policies, given how many the registry has
/// accepted and whether it has refused the last one. They are offered in a fixed order,
/// and the first refusal ends it.
pub fn register<R>(accepted: usize, refusal: Option<R>) -> (next: Registration<R>)
    ensures
        match refusal {
            Some(error) => next == Registration::<R>::Finished(Err(error)),
            None => if accepted < all_policies().len() {
                next matches Registration::Offer { name, policy } && policy
                    == all_policies()[accepted as int] && name@ == policy_name(policy)
            } else {
                next == Registration::<R>::Finished(Ok(()))
            },
        },
{
    if let Some(error) = refusal {
        return Registration::Finished(Err(error));
    }
    if accepted == 0 {
        Registration::Offer { name: "round_robin", policy: FirstPartyRoutingPolicy::RoundRobin }
    } else if accepted == 1 {
        Registration::Offer { name: "random", policy: FirstPartyRoutingPolicy::Random }
    } else if accepted == 2 {
        Registration::Offer {
            name: "power_of_two_choices",
            policy: FirstPartyRoutingPolicy::PowerOfTwoChoices,
        }
    } else if accepted == 3 {
        Registration::Offer { name: "least_loaded", policy: FirstPartyRoutingPolicy::LeastLoaded }
    } else {
        Registration::Finished(Ok(()))
    }
}

// --- scoring ---------------------------------------------------------------------

/// What a policy has to be told: the load, when it goes by load, and nothing otherwise.
pub open spec fn inputs_of(policy: FirstPartyRoutingPolicy) -> WorkerInputs {
    WorkerInputs {
        cache_index: false,
        active_request_load: policy == FirstPartyRoutingPolicy::PowerOfTwoChoices || policy
            == FirstPartyRoutingPolicy::LeastLoaded,
    }
}

/// Scores a worker for one of the policies.
#[derive(Clone, Copy, Debug, PartialEq, Eq)]
pub struct FirstPartyWorkerScorer {
    pub policy: FirstPartyRoutingPolicy,
}

impl FirstPartyWorkerScorer {
    /// What has to be known of the workers to score them.
    pub fn required_worker_inputs(&self) -> (inputs: WorkerInputs)
        ensures
            inputs == inputs_of(self.policy),
    {
        match self.policy {
            FirstPartyRoutingPolicy::RoundRobin | FirstPartyRoutingPolicy::Random => {
                WorkerInputs { cache_index: false, active_request_load: false }
            },
            FirstPartyRoutingPolicy::PowerOfTwoChoices | FirstPartyRoutingPolicy::LeastLoaded => {
                WorkerInputs { cache_index: false, active_request_load: true }
            },
        }
    }

    /// The score of a worker: the requests that it is serving, none when that is not
    /// known.
    pub fn score(&self, candidate: &WorkerCandidate) -> (score: u64)
        ensures
            score == (match candidate.active_requests {
                Some(active) => active,
                None => 0,
            }),
    {
        match candidate.active_requests {
            Some(active) => active,
            None => 0,
        }
    }
}

/// A policy set up for one routing partition. Nothing of it is shared with another
/// partition.
pub struct WorkerSelectionPolicy<C> {
    pub config: C,
    pub worker_type: &'static str,
    pub scorer: FirstPartyWorkerScorer,
    pub picker: FirstPartyWorkerPicker,
}

/// Sets up a policy for one routing partition.
pub fn worker_selection_policy<C>(
    config: C,
    worker_type: &'static str,
    policy: FirstPartyRoutingPolicy,
) -> (set_up: WorkerSelectionPolicy<C>)
    ensures
        set_up.config == config,
        set_up.worker_type == worker_type,
        set_up.scorer.policy == policy,
        set_up.picker.policy == policy,
        set_up.picker.last_round_robin_worker is None,
{
    WorkerSelectionPolicy {
        config,
        worker_type,
        scorer: FirstPartyWorkerScorer { policy },
        picker: FirstPartyWorkerPicker { policy, last_round_robin_worker: None },
    }
}

impl<C> WorkerSelectionPolicy<C> {
    /// What the policy has to be told of the workers.
    pub fn requirements(&self) -> (inputs: WorkerInputs)
        ensures
            inputs == inputs_of(self.scorer.policy),
    {
        self.scorer.required_worker_inputs()
    }
}

} // verus!
