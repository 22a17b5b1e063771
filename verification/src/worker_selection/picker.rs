//! Picking one of the candidates.

use vstd::arithmetic::div_mod::{lemma_mod_sub_multiples_vanish, lemma_small_mod};
use vstd::prelude::*;

use super::outside::random_below;
use super::{
    precedes, FirstPartyRoutingPolicy, WorkerCandidate, WorkerSelectionPolicyError,
    WorkerWithDpRank,
};

verus! {

// --- round robin -----------------------------------------------------------------

/// `worker` comes after the one that was picked last.
pub open spec fn is_next(last: Option<WorkerWithDpRank>, worker: WorkerWithDpRank) -> bool {
    last matches Some(last) && precedes(last, worker)
}

/// Some candidate comes after the one that was picked last.
pub open spec fn some_is_next(
    last: Option<WorkerWithDpRank>,
    candidates: Seq<WorkerCandidate>,
) -> bool {
    exists|j: int| 0 <= j < candidates.len() && is_next(last, (#[trigger] candidates[j]).worker)
}

/// Row `row` holds the first worker in order: no worker comes before it, and no earlier
/// row holds it.
pub open spec fn is_first_row(candidates: Seq<WorkerCandidate>, row: int) -> bool {
    &&& 0 <= row < candidates.len()
    &&& forall|j: int|
        0 <= j < candidates.len() ==> if j < row {
            precedes(candidates[row].worker, (#[trigger] candidates[j]).worker)
        } else {
            !precedes(candidates[j].worker, candidates[row].worker)
        }
}

/// Row `row` holds the first worker in order of those that come after the one that was
/// picked last.
pub open spec fn is_successor_row(
    last: Option<WorkerWithDpRank>,
    candidates: Seq<WorkerCandidate>,
    row: int,
) -> bool {
    &&& 0 <= row < candidates.len()
    &&& is_next(last, candidates[row].worker)
    &&& forall|j: int|
        0 <= j < candidates.len() && is_next(last, (#[trigger] candidates[j]).worker) ==> if j
            < row {
            precedes(candidates[row].worker, candidates[j].worker)
        } else {
            !precedes(candidates[j].worker, candidates[row].worker)
        }
}

/// Row `row` is the one whose turn it is: the first worker in order after the one picked
/// last, or the first of all when there is none after it.
pub open spec fn is_round_robin_row(
    last: Option<WorkerWithDpRank>,
    candidates: Seq<WorkerCandidate>,
    row: int,
) -> bool {
    if some_is_next(last, candidates) {
        is_successor_row(last, candidates, row)
    } else {
        is_first_row(candidates, row)
    }
}

// --- power of two choices --------------------------------------------------------

/// The second of two different rows: the `draw`-th row after the first, going round.
pub open spec fn second_row(count: int, first: int, draw: int) -> int {
    (first + 1 + draw) % count
}

/// The cheaper of the two rows that were drawn, the first when they cost the same.
pub open spec fn cheaper_row(candidates: Seq<WorkerCandidate>, first: int, second: int) -> int {
    if candidates[first].cost.is_at_most(&candidates[second].cost) {
        first
    } else {
        second
    }
}

/// What two draws come to: the first is a row, the second tells how far the other row is
/// from it. A single candidate needs no second row.
pub open spec fn two_choices(candidates: Seq<WorkerCandidate>, first: int, draw: int) -> int {
    if candidates.len() == 1 {
        first
    } else {
        cheaper_row(candidates, first, second_row(candidates.len() as int, first, draw))
    }
}

/// Two draws as they come: a row, and a number that leads to another row.
pub open spec fn are_two_draws(count: nat, first: int, draw: int) -> bool {
    0 <= first < count && (count == 1 || 0 <= draw < count - 1)
}

// --- least loaded ----------------------------------------------------------------

/// The cheapest row so far, and how many rows have cost as little.
pub struct LeaderView {
    pub row: int,
    pub ties: nat,
}

/// The leader among the first `count` rows. `draws[row]` is the number drawn at `row`,
/// where that row costs as little as the leader: on a zero the row takes the lead.
pub open spec fn leader(
    candidates: Seq<WorkerCandidate>,
    draws: Seq<usize>,
    count: nat,
) -> LeaderView
    decreases count,
{
    if count <= 1 {
        LeaderView { row: 0, ties: 1 }
    } else {
        let row = count - 1;
        let so_far = leader(candidates, draws, row as nat);
        let cost = candidates[row].cost.rank;
        let least = candidates[so_far.row].cost.rank;
        if cost < least {
            LeaderView { row, ties: 1 }
        } else if cost == least {
            LeaderView {
                row: if draws[row] == 0 {
                    row
                } else {
                    so_far.row
                },
                ties: so_far.ties + 1,
            }
        } else {
            so_far
        }
    }
}

/// Row `row` costs as little as the leader of the rows before it.
pub open spec fn is_tie(
    candidates: Seq<WorkerCandidate>,
    draws: Seq<usize>,
    row: int,
) -> bool {
    candidates[row].cost.rank == candidates[leader(candidates, draws, row as nat).row].cost.rank
}

/// A number was drawn wherever there was a tie, below the count of the tied rows.
pub open spec fn are_tie_draws(candidates: Seq<WorkerCandidate>, draws: Seq<usize>) -> bool {
    &&& draws.len() == candidates.len()
    &&& forall|row: int|
        1 <= row < candidates.len() && is_tie(candidates, draws, row) ==> (#[trigger] draws[row])
            < leader(candidates, draws, row as nat).ties + 1
}

/// The leader so far, while the rows are gone through.
struct Leader {
    row: usize,
    ties: usize,
}

impl Leader {
    spec fn is(&self, candidates: Seq<WorkerCandidate>, draws: Seq<usize>, count: nat) -> bool {
        &&& self.row == leader(candidates, draws, count).row
        &&& self.ties == leader(candidates, draws, count).ties
        &&& self.row < count
        &&& 1 <= self.ties <= count
    }

    /// The number below which a draw is due at `row`, when the row costs as little as the
    /// leader.
    fn draw_due(&self, candidates: &[WorkerCandidate], row: usize) -> (bound: Option<usize>)
        requires
            self.row < row < candidates@.len(),
            self.ties <= row,
        ensures
            bound == (if candidates@[row as int].cost.rank
                == candidates@[self.row as int].cost.rank {
                Some((self.ties + 1) as usize)
            } else {
                None
            }),
    {
        if candidates[row].cost.rank == candidates[self.row].cost.rank {
            Some(self.ties + 1)
        } else {
            None
        }
    }

    /// Goes on to `row`, with the number drawn there.
    fn pass(&mut self, candidates: &[WorkerCandidate], row: usize, draw: usize, draws: Ghost<
        Seq<usize>,
    >)
        requires
            1 <= row < candidates@.len(),
            draws@.len() > row,
            draws@[row as int] == draw,
            old(self).is(candidates@, draws@, row as nat),
        ensures
            final(self).is(candidates@, draws@, (row + 1) as nat),
    {
        let cost: i64 = candidates[row].cost.rank;
        let least: i64 = candidates[self.row].cost.rank;
        if cost < least {
            self.row = row;
            self.ties = 1;
        } else if cost == least {
            self.ties = self.ties + 1;
            if draw == 0 {
                self.row = row;
            }
        }
    }
}

proof fn lemma_leader_ignores_later_draws(
    candidates: Seq<WorkerCandidate>,
    draws: Seq<usize>,
    more: Seq<usize>,
    count: nat,
)
    requires
        count <= draws.len() <= more.len(),
        forall|i: int| 0 <= i < draws.len() ==> draws[i] == #[trigger] more[i],
    ensures
        leader(candidates, draws, count) == leader(candidates, more, count),
    decreases count,
{
    if count > 1 {
        lemma_leader_ignores_later_draws(candidates, draws, more, (count - 1) as nat);
        assert(draws[count - 1] == more[count - 1]);
    }
}

/// The row of the least loaded worker, given the numbers drawn: one for each row, of which
/// those are looked at where there was a tie.
pub fn least_loaded_from(candidates: &[WorkerCandidate], draws: &[usize]) -> (row: usize)
    requires
        candidates@.len() > 0,
        draws@.len() == candidates@.len(),
    ensures
        row == leader(candidates@, draws@, candidates@.len()).row,
        row < candidates@.len(),
{
    let mut so_far = Leader { row: 0, ties: 1 };
    let mut row: usize = 1;
    while row < candidates.len()
        invariant
            1 <= row <= candidates@.len(),
            draws@.len() == candidates@.len(),
            so_far.is(candidates@, draws@, row as nat),
        decreases candidates@.len() - row,
    {
        so_far.pass(candidates, row, draws[row], Ghost(draws@));
        row = row + 1;
    }
    so_far.row
}

/// The cheaper of two rows, given what was drawn.
pub fn p2c_from(candidates: &[WorkerCandidate], first: usize, draw: usize) -> (row: usize)
    requires
        are_two_draws(candidates@.len(), first as int, draw as int),
    ensures
        row == two_choices(candidates@, first as int, draw as int),
        row < candidates@.len(),
{
    let count: usize = candidates.len();
    if count == 1 {
        return first;
    }
    let left: usize = count - 1 - first;
    let second: usize = if draw < left {
        first + 1 + draw
    } else {
        draw - left
    };
    proof {
        let sum = first as int + 1 + draw as int;
        if draw < left {
            lemma_small_mod(sum as nat, count as nat);
        } else {
            lemma_small_mod((sum - count) as nat, count as nat);
            lemma_mod_sub_multiples_vanish(sum, count as int);
        }
        assert(second == second_row(count as int, first as int, draw as int));
    }
    if candidates[first].cost.at_most(&candidates[second].cost) {
        first
    } else {
        second
    }
}

// --- the picker ------------------------------------------------------------------

/// Picks a candidate for one routing partition.
///
/// The order in which candidates come is left open. The round-robin cursor is therefore a
/// worker and not a row: the turn does not depend on the order of rows, nor on workers
/// that come and go.
#[derive(Clone, Copy, Debug, PartialEq, Eq)]
pub struct FirstPartyWorkerPicker {
    pub policy: FirstPartyRoutingPolicy,
    pub last_round_robin_worker: Option<WorkerWithDpRank>,
}

/// `row` is a row that a policy can pick.
pub open spec fn is_pick(
    policy: FirstPartyRoutingPolicy,
    last: Option<WorkerWithDpRank>,
    candidates: Seq<WorkerCandidate>,
    row: int,
) -> bool {
    &&& 0 <= row < candidates.len()
    &&& match policy {
        FirstPartyRoutingPolicy::RoundRobin => is_round_robin_row(last, candidates, row),
        FirstPartyRoutingPolicy::Random => true,
        FirstPartyRoutingPolicy::PowerOfTwoChoices => is_two_choices_row(candidates, row),
        FirstPartyRoutingPolicy::LeastLoaded => is_least_loaded_row(candidates, row),
    }
}

/// Some two draws lead to this row.
pub open spec fn is_two_choices_row(candidates: Seq<WorkerCandidate>, row: int) -> bool {
    exists|first: int, draw: int| #[trigger]
        are_two_draws(candidates.len(), first, draw) && row == two_choices(candidates, first, draw)
}

/// Some draws lead to this row.
pub open spec fn is_least_loaded_row(candidates: Seq<WorkerCandidate>, row: int) -> bool {
    exists|draws: Seq<usize>| #[trigger]
        are_tie_draws(candidates, draws) && row == leader(candidates, draws, candidates.len()).row
}

impl FirstPartyWorkerPicker {
    /// The row of the worker whose turn it is. The turn is taken unless the query is only
    /// for advice.
    pub fn round_robin_row(&mut self, candidates: &[WorkerCandidate], advisory: bool) -> (row:
        usize)
        requires
            candidates@.len() > 0,
        ensures
            is_round_robin_row(old(self).last_round_robin_worker, candidates@, row as int),
            row < candidates@.len(),
            final(self).policy == old(self).policy,
            final(self).last_round_robin_worker == (if advisory {
                old(self).last_round_robin_worker
            } else {
                Some(candidates@[row as int].worker)
            }),
    {
        let last = self.last_round_robin_worker;
        let mut first: usize = 0;
        let mut successor: Option<usize> = None;
        let mut row: usize = 0;
        while row < candidates.len()
            invariant
                last == self.last_round_robin_worker,
                *self == *old(self),
                0 < candidates@.len(),
                row <= candidates@.len(),
                first < candidates@.len(),
                row == 0 ==> first == 0,
                row > 0 ==> is_first_row(candidates@.take(row as int), first as int),
                successor is None ==> !some_is_next(last, candidates@.take(row as int)),
                successor matches Some(found) ==> is_successor_row(
                    last,
                    candidates@.take(row as int),
                    found as int,
                ),
            decreases candidates@.len() - row,
        {
            let worker: WorkerWithDpRank = candidates[row].worker;
            let ghost less = candidates@.take(row as int);
            let ghost more = candidates@.take(row + 1);
            proof {
                assert(forall|j: int| 0 <= j < row ==> #[trigger] less[j] == more[j]);
                assert(more[row as int].worker == worker);
            }
            if row > 0 && worker < candidates[first].worker {
                first = row;
            }
            assert(is_first_row(more, first as int));
            let comes_next: bool = match last {
                Some(last) => worker > last,
                None => false,
            };
            assert(comes_next == is_next(last, worker));
            if comes_next {
                match successor {
                    None => {
                        successor = Some(row);
                        assert forall|j: int|
                            0 <= j < more.len() && is_next(last, (#[trigger] more[j]).worker) implies j
                            == row by {
                            if j < row {
                                assert(is_next(last, less[j].worker));
                            }
                        }
                    },
                    Some(found) => {
                        if worker < candidates[found].worker {
                            successor = Some(row);
                        }
                        assert(less[found as int] == more[found as int]);
                    },
                }
                assert(is_successor_row(last, more, successor->0 as int));
            } else {
                assert forall|j: int|
                    0 <= j < more.len() && is_next(last, (#[trigger] more[j]).worker) implies j < row
                    && is_next(last, less[j].worker) by {
                    assert(j != row);
                }
            }
            row = row + 1;
        }
        assert(candidates@.take(candidates@.len() as int) =~= candidates@);
        let picked: usize = match successor {
            Some(found) => {
                assert(is_next(last, candidates@[found as int].worker));
                found
            },
            None => first,
        };
        if !advisory {
            self.last_round_robin_worker = Some(candidates[picked].worker);
        }
        picked
    }

    /// The cheaper of two rows drawn at random.
    pub fn p2c_row(&self, candidates: &[WorkerCandidate]) -> (row: usize)
        requires
            candidates@.len() > 0,
        ensures
            is_two_choices_row(candidates@, row as int),
            row < candidates@.len(),
    {
        let count: usize = candidates.len();
        let first: usize = random_below(count);
        let draw: usize = if count == 1 {
            0
        } else {
            random_below(count - 1)
        };
        assert(are_two_draws(candidates@.len(), first as int, draw as int));
        p2c_from(candidates, first, draw)
    }

    /// The cheapest row. Between rows that cost the same, chance decides.
    pub fn least_loaded_row(&self, candidates: &[WorkerCandidate]) -> (row: usize)
        requires
            candidates@.len() > 0,
        ensures
            is_least_loaded_row(candidates@, row as int),
            row < candidates@.len(),
    {
        let mut so_far = Leader { row: 0, ties: 1 };
        let ghost mut draws: Seq<usize> = seq![0usize];
        let mut row: usize = 1;
        while row < candidates.len()
            invariant
                1 <= row <= candidates@.len(),
                draws.len() == row,
                so_far.is(candidates@, draws, row as nat),
                forall|i: int|
                    1 <= i < row && is_tie(candidates@, draws, i) ==> (#[trigger] draws[i])
                        < leader(candidates@, draws, i as nat).ties + 1,
            decreases candidates@.len() - row,
        {
            let draw: usize = match so_far.draw_due(candidates, row) {
                Some(bound) => random_below(bound),
                None => 0,
            };
            let ghost before = draws;
            proof {
                draws = draws.push(draw);
                assert forall|i: int| 0 <= i <= row implies leader(candidates@, before, i as nat)
                    == #[trigger] leader(candidates@, draws, i as nat) by {
                    lemma_leader_ignores_later_draws(candidates@, before, draws, i as nat);
                }
                lemma_leader_ignores_later_draws(candidates@, before, draws, row as nat);
            }
            so_far.pass(candidates, row, draw, Ghost(draws));
            assert forall|i: int|
                1 <= i < row + 1 && is_tie(candidates@, draws, i) implies (#[trigger] draws[i])
                < leader(candidates@, draws, i as nat).ties + 1 by {
                if i < row {
                    assert(draws[i] == before[i]);
                    assert(is_tie(candidates@, before, i));
                }
            }
            row = row + 1;
        }
        assert(are_tie_draws(candidates@, draws));
        so_far.row
    }

    /// Picks the row of a candidate.
    pub fn pick(&mut self, candidates: &[WorkerCandidate], advisory: bool) -> (result: Result<
        usize,
        WorkerSelectionPolicyError,
    >)
        ensures
            match result {
                Ok(row) => {
                    &&& candidates@.len() > 0
                    &&& is_pick(
                        old(self).policy,
                        old(self).last_round_robin_worker,
                        candidates@,
                        row as int,
                    )
                    &&& final(self).last_round_robin_worker == if old(self).policy
                        == FirstPartyRoutingPolicy::RoundRobin && !advisory {
                        Some(candidates@[row as int].worker)
                    } else {
                        old(self).last_round_robin_worker
                    }
                },
                Err(WorkerSelectionPolicyError::Failed { message }) => {
                    &&& candidates@.len() == 0
                    &&& message@ == "no eligible workers"@
                    &&& *final(self) == *old(self)
                },
            },
            final(self).policy == old(self).policy,
    {
        if candidates.len() == 0 {
            return Err(
                WorkerSelectionPolicyError::Failed { message: "no eligible workers".to_owned() },
            );
        }
        Ok(
            match self.policy {
                FirstPartyRoutingPolicy::RoundRobin => self.round_robin_row(candidates, advisory),
                FirstPartyRoutingPolicy::Random => random_below(candidates.len()),
                FirstPartyRoutingPolicy::PowerOfTwoChoices => self.p2c_row(candidates),
                FirstPartyRoutingPolicy::LeastLoaded => self.least_loaded_row(candidates),
            },
        )
    }
}

} // verus!
