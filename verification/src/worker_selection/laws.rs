//! What holds of every pick, whatever the draws.

use std::cmp::Ordering;

use vstd::arithmetic::div_mod::{
    lemma_fundamental_div_mod, lemma_fundamental_div_mod_converse, lemma_mod_bound,
    lemma_mod_sub_multiples_vanish, lemma_small_mod,
};
use vstd::prelude::*;
use vstd::std_specs::cmp::PartialOrdSpec;

use super::picker::{
    are_tie_draws, are_two_draws, is_least_loaded_row, is_next, is_pick, is_round_robin_row,
    is_tie, leader, second_row, some_is_next, two_choices,
};
use super::{
    all_policies, inputs_of, policy_name, precedes, FirstPartyRoutingPolicy, WorkerCandidate,
    WorkerWithDpRank,
};

verus! {

/// No two policies are registered under one name, and every policy is registered exactly
/// once.
pub proof fn law_policies_have_names_of_their_own(
    left: FirstPartyRoutingPolicy,
    right: FirstPartyRoutingPolicy,
)
    ensures
        policy_name(left) == policy_name(right) ==> left == right,
        exists|i: int| 0 <= i < all_policies().len() && #[trigger] all_policies()[i] == left,
        forall|i: int, j: int|
            0 <= i < j < all_policies().len() ==> all_policies()[i] != all_policies()[j],
{
    reveal_strlit("round_robin");
    reveal_strlit("random");
    reveal_strlit("power_of_two_choices");
    reveal_strlit("least_loaded");
    assert("round_robin"@.len() == 11 && "random"@.len() == 6);
    assert("power_of_two_choices"@.len() == 20 && "least_loaded"@.len() == 12);
    let at: int = match left {
        FirstPartyRoutingPolicy::RoundRobin => 0,
        FirstPartyRoutingPolicy::Random => 1,
        FirstPartyRoutingPolicy::PowerOfTwoChoices => 2,
        FirstPartyRoutingPolicy::LeastLoaded => 3,
    };
    assert(all_policies()[at] == left);
}

/// Each policy has the name that operators know it by, and they are registered in this
/// order and no others after them.
pub proof fn law_policies_are_registered_by_name()
    ensures
        all_policies().len() == 4,
        all_policies()[0] is RoundRobin && policy_name(all_policies()[0]) == "round_robin"@,
        all_policies()[1] is Random && policy_name(all_policies()[1]) == "random"@,
        all_policies()[2] is PowerOfTwoChoices && policy_name(all_policies()[2])
            == "power_of_two_choices"@,
        all_policies()[3] is LeastLoaded && policy_name(all_policies()[3]) == "least_loaded"@,
{
}

/// Only a policy that goes by load has to be told the load, and none has to be told what
/// the caches hold.
pub proof fn law_only_load_aware_policies_need_the_load(policy: FirstPartyRoutingPolicy)
    ensures
        !inputs_of(policy).cache_index,
        inputs_of(policy).active_request_load <==> policy is PowerOfTwoChoices
            || policy is LeastLoaded,
{
}

/// A policy picks one of the rows: any of them at random, the one whose turn it is, the
/// better of two, or a least loaded one.
pub proof fn law_a_pick_goes_by_its_policy(
    policy: FirstPartyRoutingPolicy,
    last: Option<WorkerWithDpRank>,
    candidates: Seq<WorkerCandidate>,
    row: int,
)
    ensures
        is_pick(policy, last, candidates, row) ==> 0 <= row < candidates.len(),
        policy is Random && 0 <= row < candidates.len() ==> is_pick(policy, last, candidates, row),
        policy is RoundRobin ==> (is_pick(policy, last, candidates, row) <==> 0 <= row
            < candidates.len() && is_round_robin_row(last, candidates, row)),
        policy is PowerOfTwoChoices ==> (is_pick(policy, last, candidates, row) <==> 0 <= row
            < candidates.len() && exists|first: int, draw: int| #[trigger]
            are_two_draws(candidates.len(), first, draw) && row == two_choices(
                candidates,
                first,
                draw,
            )),
        policy is LeastLoaded ==> (is_pick(policy, last, candidates, row) <==> 0 <= row
            < candidates.len() && exists|draws: Seq<usize>| #[trigger]
            are_tie_draws(candidates, draws) && row == leader(
                candidates,
                draws,
                candidates.len(),
            ).row),
{
}

// --- round robin -----------------------------------------------------------------

/// Workers are ordered by their id, whatever the ranks, and the ranks of one worker by
/// themselves.
pub proof fn law_workers_are_ordered_by_id_and_rank(a: WorkerWithDpRank, b: WorkerWithDpRank)
    ensures
        a.worker_id < b.worker_id ==> precedes(a, b) && !precedes(b, a),
        a.worker_id == b.worker_id ==> (precedes(a, b) <==> a.dp_rank < b.dp_rank),
        a.partial_cmp_spec(&b) == Some(Ordering::Less) <==> a.worker_id < b.worker_id || (
        a.worker_id == b.worker_id && a.dp_rank < b.dp_rank),
        a.partial_cmp_spec(&b) == Some(Ordering::Greater) <==> b.partial_cmp_spec(&a) == Some(
            Ordering::Less,
        ),
        a.partial_cmp_spec(&b) == Some(Ordering::Equal) <==> a.worker_id == b.worker_id
            && a.dp_rank == b.dp_rank,
{
}

/// The place of a worker in the order, as one number.
pub open spec fn place_of(worker: WorkerWithDpRank) -> int {
    worker.worker_id as int * 0x1_0000_0000 + worker.dp_rank as int
}

/// Whose turn it is, by places: if any candidate stands after the one picked last, the
/// nearest one after it; if none does, or none has been picked yet, the foremost of all.
/// Of several rows that hold this worker, it is the first.
pub proof fn law_the_turn_is_that_of_the_nearest_after_the_last(
    last: Option<WorkerWithDpRank>,
    candidates: Seq<WorkerCandidate>,
    row: int,
    other: int,
)
    requires
        is_round_robin_row(last, candidates, row),
        0 <= other < candidates.len(),
    ensures
        0 <= row < candidates.len(),
        ({
            let picked = place_of(candidates[row].worker);
            let place = place_of(candidates[other].worker);
            &&& last is None ==> picked <= place
            &&& last matches Some(last) ==> {
                &&& place_of(last) < place ==> place_of(last) < picked && picked <= place
                &&& picked <= place_of(last) ==> picked <= place && place <= place_of(last)
            }
            &&& picked == place ==> row <= other
        }),
{
    assert(candidates[other].worker == candidates[other].worker);
}

/// `worker` is among the candidates.
pub open spec fn is_candidate(candidates: Seq<WorkerCandidate>, worker: WorkerWithDpRank) -> bool {
    exists|j: int| 0 <= j < candidates.len() && (#[trigger] candidates[j]).worker == worker
}

/// The two lists hold the same workers, in whatever order.
pub open spec fn hold_the_same_workers(
    left: Seq<WorkerCandidate>,
    right: Seq<WorkerCandidate>,
) -> bool {
    forall|worker: WorkerWithDpRank| #[trigger]
        is_candidate(left, worker) <==> is_candidate(right, worker)
}

/// The worker whose turn it is comes before every other candidate that could be next.
proof fn lemma_turn_is_least(
    last: Option<WorkerWithDpRank>,
    candidates: Seq<WorkerCandidate>,
    row: int,
    other: WorkerWithDpRank,
)
    requires
        is_round_robin_row(last, candidates, row),
        is_candidate(candidates, other),
    ensures
        is_candidate(candidates, candidates[row].worker),
        some_is_next(last, candidates) ==> is_next(last, candidates[row].worker),
        some_is_next(last, candidates) && !is_next(last, other) || !precedes(
            other,
            candidates[row].worker,
        ),
{
    let j = choose|j: int|
        0 <= j < candidates.len() && (#[trigger] candidates[j]).worker == other;
    assert(candidates[row].worker == candidates[row].worker);
}

proof fn lemma_same_workers_are_next(
    last: Option<WorkerWithDpRank>,
    left: Seq<WorkerCandidate>,
    right: Seq<WorkerCandidate>,
)
    requires
        hold_the_same_workers(left, right),
        some_is_next(last, left),
    ensures
        some_is_next(last, right),
{
    let i = choose|i: int| 0 <= i < left.len() && is_next(last, (#[trigger] left[i]).worker);
    assert(is_candidate(left, left[i].worker));
    assert(is_candidate(right, left[i].worker));
    let j = choose|j: int|
        0 <= j < right.len() && (#[trigger] right[j]).worker == left[i].worker;
    assert(is_next(last, right[j].worker));
}

/// Whose turn it is does not depend on the order of the rows.
pub proof fn law_the_turn_does_not_depend_on_row_order(
    last: Option<WorkerWithDpRank>,
    left: Seq<WorkerCandidate>,
    left_row: int,
    right: Seq<WorkerCandidate>,
    right_row: int,
)
    requires
        hold_the_same_workers(left, right),
        is_round_robin_row(last, left, left_row),
        is_round_robin_row(last, right, right_row),
    ensures
        left[left_row].worker == right[right_row].worker,
{
    let a = left[left_row].worker;
    let b = right[right_row].worker;
    assert(is_candidate(left, a));
    assert(is_candidate(right, b));
    assert(is_candidate(right, a));
    assert(is_candidate(left, b));
    if some_is_next(last, left) {
        lemma_same_workers_are_next(last, left, right);
    }
    if some_is_next(last, right) {
        lemma_same_workers_are_next(last, right, left);
    }
    lemma_turn_is_least(last, left, left_row, b);
    lemma_turn_is_least(last, right, right_row, a);
}

/// Workers in order, each once.
pub open spec fn are_in_order(workers: Seq<WorkerWithDpRank>) -> bool {
    forall|i: int, j: int| 0 <= i < j < workers.len() ==> precedes(workers[i], workers[j])
}

/// The candidates are exactly these workers.
pub open spec fn are_candidates(
    candidates: Seq<WorkerCandidate>,
    workers: Seq<WorkerWithDpRank>,
) -> bool {
    forall|worker: WorkerWithDpRank| #[trigger]
        is_candidate(candidates, worker) <==> workers.contains(worker)
}

/// The cursor after `turns` turns among these workers.
pub open spec fn cursor_after(workers: Seq<WorkerWithDpRank>, turns: nat) -> Option<
    WorkerWithDpRank,
> {
    if turns == 0 {
        None
    } else {
        Some(workers[(turns - 1) % (workers.len() as int)])
    }
}

/// While the workers stay the same, the turns go round them in order: the turn after
/// `turns` turns is that of worker `turns`, counted round.
pub proof fn law_the_turns_go_round(
    workers: Seq<WorkerWithDpRank>,
    candidates: Seq<WorkerCandidate>,
    turns: nat,
    row: int,
)
    requires
        workers.len() > 0,
        are_in_order(workers),
        are_candidates(candidates, workers),
        is_round_robin_row(cursor_after(workers, turns), candidates, row),
    ensures
        candidates[row].worker == workers[turns as int % workers.len() as int],
{
    let n = workers.len() as int;
    let last = cursor_after(workers, turns);
    let at = turns as int % n;
    let due = workers[at];
    let picked = candidates[row].worker;
    assert(is_candidate(candidates, picked));
    assert(workers.contains(picked));
    let p = choose|p: int| 0 <= p < n && workers[p] == picked;
    assert(workers.contains(due));
    assert(is_candidate(candidates, due));
    lemma_turn_is_least(last, candidates, row, due);
    if turns == 0 {
        lemma_small_mod(0, n as nat);
        assert(!some_is_next(last, candidates));
        if p > 0 {
            assert(precedes(workers[0], workers[p]));
        }
    } else {
        let before = (turns - 1) % n;
        lemma_next_round(turns as int, n);
        if before + 1 < n {
            assert(at == before + 1);
            assert(precedes(workers[before], due));
            let j = choose|j: int|
                0 <= j < candidates.len() && (#[trigger] candidates[j]).worker == due;
            assert(is_next(last, candidates[j].worker));
            assert(some_is_next(last, candidates));
            assert(precedes(workers[before], picked));
            if p < before {
                assert(precedes(workers[p], workers[before]));
            } else if p > at {
                assert(precedes(workers[at], workers[p]));
            }
        } else {
            assert(at == 0);
            assert(!some_is_next(last, candidates)) by {
                if some_is_next(last, candidates) {
                    let j = choose|j: int|
                        0 <= j < candidates.len() && is_next(
                            last,
                            (#[trigger] candidates[j]).worker,
                        );
                    assert(is_candidate(candidates, candidates[j].worker));
                    let q = choose|q: int| 0 <= q < n && workers[q] == candidates[j].worker;
                    if q < before {
                        assert(precedes(workers[q], workers[before]));
                    }
                }
            }
            if p > 0 {
                assert(precedes(workers[0], workers[p]));
            }
        }
    }
}

proof fn lemma_next_round(turns: int, n: int)
    requires
        turns > 0,
        n > 0,
    ensures
        0 <= (turns - 1) % n < n,
        turns % n == if (turns - 1) % n + 1 < n {
            (turns - 1) % n + 1
        } else {
            0
        },
{
    let before = (turns - 1) % n;
    lemma_fundamental_div_mod(turns - 1, n);
    let quotient = (turns - 1) / n;
    lemma_mod_bound(turns - 1, n);
    if before + 1 < n {
        assert(turns == quotient * n + (before + 1)) by (nonlinear_arith)
            requires
                turns - 1 == n * quotient + before,
        ;
        lemma_fundamental_div_mod_converse(
            turns,
            n,
            quotient,
            before + 1,
        );
    } else {
        assert(turns == (quotient + 1) * n + 0) by (nonlinear_arith)
            requires
                turns - 1 == n * quotient + before,
                before + 1 == n,
        ;
        lemma_fundamental_div_mod_converse(turns, n, quotient + 1, 0);
    }
}

/// In as many turns as there are workers, no worker has two.
pub proof fn law_no_worker_has_two_turns_in_a_round(
    workers: Seq<WorkerWithDpRank>,
    earlier: nat,
    later: nat,
)
    requires
        are_in_order(workers),
        earlier < later < earlier + workers.len(),
    ensures
        workers[earlier as int % workers.len() as int] != workers[later as int
            % workers.len() as int],
{
    let n = workers.len() as int;
    let i = earlier as int % n;
    let j = later as int % n;
    lemma_mod_bound(earlier as int, n);
    lemma_mod_bound(later as int, n);
    if i == j {
        lemma_fundamental_div_mod(earlier as int, n);
        lemma_fundamental_div_mod(later as int, n);
        let a = earlier as int / n;
        let b = later as int / n;
        assert(false) by (nonlinear_arith)
            requires
                n > 0,
                earlier as int == n * a + i,
                later as int == n * b + j,
                i == j,
                earlier < later,
                (later as int) < earlier as int + n,
        ;
    }
    if i < j {
        assert(precedes(workers[i], workers[j]));
    } else {
        assert(precedes(workers[j], workers[i]));
    }
}

// --- power of two choices --------------------------------------------------------

/// With more than one candidate, the two rows drawn are two different rows, and any two
/// different rows can be drawn.
pub proof fn law_the_two_rows_differ(count: nat, first: int, draw: int, other: int)
    requires
        count > 1,
        are_two_draws(count, first, draw),
        0 <= other < count,
        other != first,
    ensures
        0 <= second_row(count as int, first, draw) < count,
        second_row(count as int, first, draw) != first,
        exists|drawn: int| #[trigger]
            are_two_draws(count, first, drawn) && second_row(count as int, first, drawn) == other,
{
    let n = count as int;
    lemma_second_row(n, first, draw);
    let drawn = if other > first {
        other - first - 1
    } else {
        other - first - 1 + n
    };
    lemma_second_row(n, first, drawn);
    assert(are_two_draws(count, first, drawn));
}

proof fn lemma_second_row(n: int, first: int, draw: int)
    requires
        0 <= first < n,
        0 <= draw < n - 1,
    ensures
        second_row(n, first, draw) == if first + 1 + draw < n {
            first + 1 + draw
        } else {
            first + 1 + draw - n
        },
{
    let sum = first + 1 + draw;
    if sum < n {
        lemma_small_mod(sum as nat, n as nat);
    } else {
        lemma_small_mod((sum - n) as nat, n as nat);
        lemma_mod_sub_multiples_vanish(sum, n);
    }
}

/// The two rows drawn, row by row: the second lies as many rows after the first as was
/// drawn, and one more, counted round. Of the two the first is picked exactly when both
/// costs are numbers and its number is at most that of the second; then the number of the
/// row picked is at most that of the other, whichever it is. A single candidate is picked.
pub proof fn law_the_smaller_number_is_picked(
    candidates: Seq<WorkerCandidate>,
    first: int,
    draw: int,
)
    requires
        are_two_draws(candidates.len(), first, draw),
    ensures
        candidates.len() == 1 ==> two_choices(candidates, first, draw) == 0,
        candidates.len() > 1 ==> {
            let second = if first + 1 + draw < candidates.len() {
                first + 1 + draw
            } else {
                first + 1 + draw - candidates.len()
            };
            let picked = two_choices(candidates, first, draw);
            &&& 0 <= first < candidates.len() && 0 <= second < candidates.len()
            &&& first != second
            &&& match (candidates[first].cost.value, candidates[second].cost.value) {
                (Some(number), Some(against)) => {
                    &&& number <= against ==> picked == first
                    &&& number > against ==> picked == second
                    &&& candidates[picked].cost.value->0 <= number
                    &&& candidates[picked].cost.value->0 <= against
                },
                _ => picked == second,
            }
        },
{
    if candidates.len() > 1 {
        lemma_second_row(candidates.len() as int, first, draw);
    }
}

/// The first number drawn can be any row, and the second any number below the count of the
/// other rows; no others can.
pub proof fn law_two_draws_reach_every_pair(count: nat, first: int, draw: int)
    ensures
        count > 1 ==> (are_two_draws(count, first, draw) <==> 0 <= first < count && 0 <= draw
            < count - 1),
        count == 1 && are_two_draws(count, first, draw) ==> first == 0,
        count == 1 ==> are_two_draws(count, 0, draw),
        count == 0 ==> !are_two_draws(count, first, draw),
{
}

/// The row that is picked is one of the two drawn and, where costs are numbers, costs no
/// more than the other.
pub proof fn law_two_choices_takes_the_cheaper(
    candidates: Seq<WorkerCandidate>,
    first: int,
    draw: int,
)
    requires
        candidates.len() > 1,
        are_two_draws(candidates.len(), first, draw),
    ensures
        ({
            let second = second_row(candidates.len() as int, first, draw);
            let picked = two_choices(candidates, first, draw);
            let other = if picked == first {
                second
            } else {
                first
            };
            &&& picked == first || picked == second
            &&& candidates[first].cost.value is Some && candidates[second].cost.value is Some
                ==> candidates[picked].cost.is_at_most(&candidates[other].cost)
        }),
{
    lemma_second_row(candidates.len() as int, first, draw);
}

// --- least loaded ----------------------------------------------------------------

proof fn lemma_leader_is_least(candidates: Seq<WorkerCandidate>, draws: Seq<usize>, count: nat)
    requires
        1 <= count <= candidates.len(),
    ensures
        0 <= leader(candidates, draws, count).row < count,
        leader(candidates, draws, count).ties >= 1,
        forall|j: int|
            0 <= j < count ==> candidates[leader(candidates, draws, count).row].cost.rank
                <= (#[trigger] candidates[j]).cost.rank,
    decreases count,
{
    if count > 1 {
        lemma_leader_is_least(candidates, draws, (count - 1) as nat);
    }
}

/// Whatever the numbers, the leader of the first `count` rows is one of them, and none of
/// them costs less.
pub proof fn law_the_leader_costs_least(
    candidates: Seq<WorkerCandidate>,
    draws: Seq<usize>,
    count: nat,
    other: int,
)
    requires
        0 <= other < count <= candidates.len(),
    ensures
        0 <= leader(candidates, draws, count).row < count,
        candidates[leader(candidates, draws, count).row].cost.rank <= candidates[other].cost.rank,
{
    lemma_leader_is_least(candidates, draws, count);
}

/// Whatever is drawn, no candidate costs less than the one that is picked.
pub proof fn law_the_least_loaded_costs_least(candidates: Seq<WorkerCandidate>, row: int)
    requires
        candidates.len() > 0,
        is_least_loaded_row(candidates, row),
    ensures
        0 <= row < candidates.len(),
        forall|j: int|
            0 <= j < candidates.len() ==> candidates[row].cost.rank <= (
            #[trigger] candidates[j]).cost.rank,
{
    let draws = choose|draws: Seq<usize>| #[trigger]
        are_tie_draws(candidates, draws) && row == leader(candidates, draws, candidates.len()).row;
    lemma_leader_is_least(candidates, draws, candidates.len());
}

/// `row` wins the draws among the first `count` rows: it is the first of the cheapest, or
/// drew a zero, and no later one of the cheapest drew a zero.
pub open spec fn wins_the_draws(
    candidates: Seq<WorkerCandidate>,
    draws: Seq<usize>,
    row: int,
    count: nat,
) -> bool {
    let cost = candidates[row].cost.rank;
    &&& draws[row] == 0 || forall|i: int|
        0 <= i < row ==> (#[trigger] candidates[i]).cost.rank != cost
    &&& forall|j: int|
        row < j < count && (#[trigger] candidates[j]).cost.rank == cost ==> draws[j] != 0
}

proof fn lemma_draws_decide(
    candidates: Seq<WorkerCandidate>,
    draws: Seq<usize>,
    row: int,
    count: nat,
)
    requires
        0 <= row < count <= candidates.len(),
        forall|j: int|
            0 <= j < candidates.len() ==> candidates[row].cost.rank <= (
            #[trigger] candidates[j]).cost.rank,
    ensures
        leader(candidates, draws, count).row == row <==> wins_the_draws(
            candidates,
            draws,
            row,
            count,
        ),
    decreases count,
{
    let cost = candidates[row].cost.rank;
    if count > 1 {
        let last = count - 1;
        lemma_leader_is_least(candidates, draws, last as nat);
        let so_far = leader(candidates, draws, last as nat).row;
        assert(cost <= candidates[so_far].cost.rank);
        assert(cost <= candidates[last].cost.rank);
        if row < last {
            lemma_draws_decide(candidates, draws, row, last as nat);
            assert(candidates[so_far].cost.rank <= candidates[row].cost.rank);
            if candidates[last].cost.rank != cost || draws[last] != 0 {
                assert(wins_the_draws(candidates, draws, row, count) == wins_the_draws(
                    candidates,
                    draws,
                    row,
                    last as nat,
                ));
            }
        } else if candidates[so_far].cost.rank != cost {
            assert forall|i: int| 0 <= i < row implies (#[trigger] candidates[i]).cost.rank
                != cost by {
                assert(candidates[so_far].cost.rank <= candidates[i].cost.rank);
            }
        }
    }
}

/// Between the candidates that cost least, the last one to draw a zero is picked, or the
/// first of them when none does.
pub proof fn law_the_last_zero_drawn_decides(
    candidates: Seq<WorkerCandidate>,
    draws: Seq<usize>,
    row: int,
)
    requires
        0 <= row < candidates.len(),
        forall|j: int|
            0 <= j < candidates.len() ==> candidates[row].cost.rank <= (
            #[trigger] candidates[j]).cost.rank,
    ensures
        leader(candidates, draws, candidates.len()).row == row <==> wins_the_draws(
            candidates,
            draws,
            row,
            candidates.len(),
        ),
{
    lemma_draws_decide(candidates, draws, row, candidates.len());
}

/// How many of the first `count` candidates cost just this much.
pub open spec fn rows_at(candidates: Seq<WorkerCandidate>, rank: int, count: int) -> int
    decreases count,
{
    if count <= 0 {
        0
    } else {
        rows_at(candidates, rank, count - 1) + if candidates[count - 1].cost.rank == rank {
            1int
        } else {
            0int
        }
    }
}

proof fn lemma_ties_are_counted(candidates: Seq<WorkerCandidate>, draws: Seq<usize>, count: nat)
    requires
        1 <= count <= candidates.len(),
    ensures
        leader(candidates, draws, count).ties == rows_at(
            candidates,
            candidates[leader(candidates, draws, count).row].cost.rank as int,
            count as int,
        ),
    decreases count,
{
    lemma_leader_is_least(candidates, draws, count);
    if count == 1 {
        reveal_with_fuel(rows_at, 2);
    } else {
        let less = (count - 1) as nat;
        lemma_leader_is_least(candidates, draws, less);
        lemma_ties_are_counted(candidates, draws, less);
        let so_far = leader(candidates, draws, less).row;
        if candidates[less as int].cost.rank < candidates[so_far].cost.rank {
            lemma_no_row_below(
                candidates,
                candidates[less as int].cost.rank as int,
                candidates[so_far].cost.rank as int,
                less as int,
            );
        }
    }
}

proof fn lemma_no_row_below(
    candidates: Seq<WorkerCandidate>,
    rank: int,
    least: int,
    count: int,
)
    requires
        rank < least,
        0 <= count <= candidates.len(),
        forall|j: int| 0 <= j < count ==> least <= (#[trigger] candidates[j]).cost.rank,
    ensures
        rows_at(candidates, rank, count) == 0,
    decreases count,
{
    if count > 0 {
        lemma_no_row_below(candidates, rank, least, count - 1);
    }
}

/// Chance is even-handed: where a row costs as little as the cheapest rows before it, the
/// number drawn for it is below the count of all of these, itself included, and may be any
/// such number. So the row takes the lead in one out of as many cases as there are
/// cheapest rows so far.
pub proof fn law_a_draw_is_among_all_cheapest_rows(
    candidates: Seq<WorkerCandidate>,
    draws: Seq<usize>,
    row: int,
)
    requires
        1 <= row < candidates.len(),
        draws.len() == candidates.len(),
        forall|j: int|
            0 <= j < row ==> candidates[row].cost.rank <= (#[trigger] candidates[j]).cost.rank,
        exists|j: int|
            0 <= j < row && candidates[row].cost.rank == (#[trigger] candidates[j]).cost.rank,
    ensures
        are_tie_draws(candidates, draws) ==> draws[row] < rows_at(
            candidates,
            candidates[row].cost.rank as int,
            row + 1,
        ),
        is_tie(candidates, draws, row),
        leader(candidates, draws, row as nat).ties + 1 == rows_at(
            candidates,
            candidates[row].cost.rank as int,
            row + 1,
        ),
{
    let cost = candidates[row].cost.rank;
    let j = choose|j: int|
        0 <= j < row && candidates[row].cost.rank == (#[trigger] candidates[j]).cost.rank;
    lemma_leader_is_least(candidates, draws, row as nat);
    lemma_ties_are_counted(candidates, draws, row as nat);
    let so_far = leader(candidates, draws, row as nat).row;
    assert(candidates[so_far].cost.rank <= candidates[j].cost.rank);
    assert(cost <= candidates[so_far].cost.rank);
}

/// Every choice of numbers that stays below the count of the cheapest rows, wherever there
/// is a tie, can be drawn.
pub proof fn law_any_number_below_the_count_can_be_drawn(
    candidates: Seq<WorkerCandidate>,
    draws: Seq<usize>,
)
    requires
        draws.len() == candidates.len(),
        forall|row: int|
            1 <= row < candidates.len() ==> (#[trigger] draws[row]) < rows_at(
                candidates,
                candidates[row].cost.rank as int,
                row + 1,
            ),
    ensures
        are_tie_draws(candidates, draws),
{
    assert forall|row: int| 1 <= row < candidates.len() && is_tie(candidates, draws, row) implies (
    #[trigger] draws[row]) < leader(candidates, draws, row as nat).ties + 1 by {
        lemma_leader_is_least(candidates, draws, row as nat);
        lemma_ties_are_counted(candidates, draws, row as nat);
    }
}

/// Draws that lead to `row`: a zero there, and ones elsewhere.
spec fn favouring(count: nat, row: int) -> Seq<usize> {
    Seq::new(
        count,
        |i: int|
            if i == row {
                0usize
            } else {
                1usize
            },
    )
}

/// Between candidates that cost the same, any of them can be picked.
pub proof fn law_any_cheapest_row_can_be_picked(candidates: Seq<WorkerCandidate>, row: int)
    requires
        0 <= row < candidates.len(),
        forall|j: int|
            0 <= j < candidates.len() ==> candidates[row].cost.rank <= (
            #[trigger] candidates[j]).cost.rank,
    ensures
        is_least_loaded_row(candidates, row),
{
    let draws = favouring(candidates.len(), row);
    lemma_draws_decide(candidates, draws, row, candidates.len());
    assert forall|i: int| 1 <= i < candidates.len() && is_tie(candidates, draws, i) implies (
    #[trigger] draws[i]) < leader(candidates, draws, i as nat).ties + 1 by {
        lemma_leader_is_least(candidates, draws, i as nat);
    }
    assert(are_tie_draws(candidates, draws));
}

} // verus!
