//! Which worker a session sticks to, agreed on between router replicas.
//!
//! Each binding carries a revision. A replica that hears of a binding keeps the newer of
//! the two, so that all replicas that have heard the same news agree.

use std::cmp::Ordering;
use std::time::{Duration, SystemTime};

use vstd::prelude::*;
use vstd::std_specs::cmp::PartialOrdSpec;

verus! {

/// Where the requests of a session are sent.
#[derive(Clone, Copy, Debug, PartialEq, Eq, Structural)]
pub struct AffinityTarget {
    pub worker_id: u64,
    pub dp_rank: Option<u32>,
}

/// How recent a binding is: ordered by sequence number first and, between equal ones, by
/// the router that made it.
#[derive(Clone, Copy, Debug, PartialEq, Eq, Ord, Structural)]
pub struct AffinityRevision {
    pub sequence: u64,
    pub router_id: u64,
}

/// A session's binding as a replica knows it.
#[derive(Clone, Copy)]
pub struct ReplicaBinding {
    pub target: AffinityTarget,
    pub revision: AffinityRevision,
}

/// What became of news about a binding.
#[derive(Clone, Copy, Debug, PartialEq, Eq, Structural)]
pub enum ReplicaApplyOutcome {
    Inserted,
    Refreshed,
    ReplacedNewer,
    DeferredInitializing,
    IgnoredStale,
    RejectedSessionId,
    RejectedCapacity,
}

/// `left` is more recent than `right`.
pub open spec fn is_newer(left: AffinityRevision, right: AffinityRevision) -> bool {
    left.sequence > right.sequence || (left.sequence == right.sequence && left.router_id
        > right.router_id)
}

impl PartialOrd for AffinityRevision {
    fn partial_cmp(&self, other: &AffinityRevision) -> (order: Option<Ordering>) {
        if self.sequence > other.sequence || (self.sequence == other.sequence && self.router_id
            > other.router_id) {
            Some(Ordering::Greater)
        } else if self.sequence == other.sequence && self.router_id == other.router_id {
            Some(Ordering::Equal)
        } else {
            Some(Ordering::Less)
        }
    }
}

impl vstd::std_specs::cmp::PartialOrdSpecImpl for AffinityRevision {
    open spec fn obeys_partial_cmp_spec() -> bool {
        true
    }

    open spec fn partial_cmp_spec(&self, other: &AffinityRevision) -> Option<Ordering> {
        if is_newer(*self, *other) {
            Some(Ordering::Greater)
        } else if *self == *other {
            Some(Ordering::Equal)
        } else {
            Some(Ordering::Less)
        }
    }
}

/// The binding once the news has been taken in.
pub open spec fn applied(
    binding: ReplicaBinding,
    target: AffinityTarget,
    revision: AffinityRevision,
) -> ReplicaBinding {
    if is_newer(revision, binding.revision) {
        ReplicaBinding { target, revision }
    } else {
        binding
    }
}

/// What becomes of the news.
pub open spec fn outcome(
    binding: ReplicaBinding,
    target: AffinityTarget,
    revision: AffinityRevision,
) -> ReplicaApplyOutcome {
    if is_newer(revision, binding.revision) {
        ReplicaApplyOutcome::ReplacedNewer
    } else if revision == binding.revision && target == binding.target {
        ReplicaApplyOutcome::Refreshed
    } else {
        ReplicaApplyOutcome::IgnoredStale
    }
}

/// Takes in the news that another replica has bound the session to `target`.
///
/// A more recent binding replaces the one at hand; the same binding refreshes it; anything
/// else is stale and changes nothing.
pub fn apply_replica_binding(
    binding: &mut ReplicaBinding,
    target: AffinityTarget,
    revision: AffinityRevision,
) -> (result: ReplicaApplyOutcome)
    ensures
        *final(binding) == applied(*old(binding), target, revision),
        result == outcome(*old(binding), target, revision),
{
    if revision > binding.revision {
        binding.target = target;
        binding.revision = revision;
        return ReplicaApplyOutcome::ReplacedNewer;
    }
    if revision == binding.revision && target == binding.target {
        return ReplicaApplyOutcome::Refreshed;
    }
    ReplicaApplyOutcome::IgnoredStale
}

// --- revisions by the clock ------------------------------------------------------

/// A reading of the system clock.
#[verifier::external_type_specification]
#[verifier::external_body]
pub struct ExSystemTime(SystemTime);

/// `SystemTime::now` reads the system clock. Nothing is claimed of the reading.
pub assume_specification[ SystemTime::now ]() -> (now: SystemTime)
;

/// The time from the Unix epoch to a reading of the clock, or none for a reading before
/// the epoch.
pub uninterp spec fn time_since_epoch(time: SystemTime) -> Option<Duration>;

/// Calls `SystemTime::duration_since` with the Unix epoch. The answer depends on the
/// reading alone.
#[verifier::external_body]
fn since_epoch(time: SystemTime) -> (elapsed: Option<Duration>)
    ensures
        elapsed == time_since_epoch(time),
{
    match time.duration_since(std::time::UNIX_EPOCH) {
        Ok(elapsed) => Some(elapsed),
        Err(_) => None,
    }
}

/// The whole nanoseconds of a stretch of time.
pub uninterp spec fn nanos_of(duration: Duration) -> u128;

/// `Duration::as_nanos` counts the whole nanoseconds of a stretch of time.
pub assume_specification[ Duration::as_nanos ](duration: &Duration) -> (nanos: u128)
    ensures
        nanos == nanos_of(*duration),
;

/// The sequence number for a count of nanoseconds since the epoch: the count itself, or
/// one short of the largest number for a count that does not fit.
pub open spec fn sequence_of(nanos: u128) -> u64 {
    if nanos <= u64::MAX {
        nanos as u64
    } else {
        (u64::MAX - 1) as u64
    }
}

/// Turns a count of nanoseconds since the epoch into a sequence number.
pub fn sequence_from_nanos(nanos: u128) -> (sequence: u64)
    ensures
        sequence == sequence_of(nanos),
{
    if nanos <= u64::MAX as u128 {
        nanos as u64
    } else {
        u64::MAX - 1
    }
}

/// The sequence number that a reading of the clock gives. A clock that stands before the
/// epoch counts as standing at it.
pub open spec fn sequence_at(time: SystemTime) -> u64 {
    match time_since_epoch(time) {
        Some(elapsed) => sequence_of(nanos_of(elapsed)),
        None => 0,
    }
}

/// A sequence number for a revision made now: the one that some reading of the clock
/// gives.
pub fn revision_timestamp() -> (sequence: u64)
    ensures
        exists|now: SystemTime| sequence == #[trigger] sequence_at(now),
{
    let now = SystemTime::now();
    let nanos: u128 = match since_epoch(now) {
        Some(elapsed) => elapsed.as_nanos(),
        None => 0,
    };
    let sequence: u64 = sequence_from_nanos(nanos);
    assert(sequence == sequence_at(now));
    sequence
}

// --- laws ------------------------------------------------------------------------

/// The revision with the larger sequence number is the newer one, whatever the routers;
/// between equal sequence numbers it is the one with the larger router id. The order of
/// revisions is just that.
pub proof fn law_the_larger_sequence_number_is_newer(a: AffinityRevision, b: AffinityRevision)
    ensures
        a.sequence > b.sequence ==> is_newer(a, b) && !is_newer(b, a),
        a.sequence == b.sequence ==> (is_newer(a, b) <==> a.router_id > b.router_id),
        a.partial_cmp_spec(&b) == Some(Ordering::Greater) <==> a.sequence > b.sequence || (
        a.sequence == b.sequence && a.router_id > b.router_id),
        a.partial_cmp_spec(&b) == Some(Ordering::Less) <==> b.partial_cmp_spec(&a) == Some(
            Ordering::Greater,
        ),
        a.partial_cmp_spec(&b) == Some(Ordering::Equal) <==> a.sequence == b.sequence
            && a.router_id == b.router_id,
{
}

/// News with a larger sequence number always replaces the binding, and so does news with
/// the same number from a larger router id. Any other news leaves target and revision as
/// they are: it refreshes the binding when it is the same in everything, and is stale
/// when it differs in anything.
pub proof fn law_news_goes_by_its_sequence_number(
    binding: ReplicaBinding,
    target: AffinityTarget,
    revision: AffinityRevision,
)
    ensures
        ({
            let known = binding.revision;
            let after = applied(binding, target, revision);
            let result = outcome(binding, target, revision);
            &&& revision.sequence > known.sequence ==> after.target == target && after.revision
                == revision && result is ReplacedNewer
            &&& revision.sequence == known.sequence && revision.router_id > known.router_id
                ==> after.target == target && after.revision == revision && result is ReplacedNewer
            &&& revision.sequence < known.sequence ==> after == binding && result is IgnoredStale
            &&& revision.sequence == known.sequence && revision.router_id < known.router_id
                ==> after == binding && result is IgnoredStale
            &&& revision.sequence == known.sequence && revision.router_id == known.router_id
                ==> after == binding && (if target.worker_id == binding.target.worker_id
                && target.dp_rank == binding.target.dp_rank {
                result is Refreshed
            } else {
                result is IgnoredStale
            })
        }),
{
}

/// A sequence number is the count of nanoseconds itself, for every count that a number can
/// hold; a count that it cannot hold gives the number before the largest. The clock before
/// the epoch gives zero.
pub proof fn law_a_sequence_number_is_its_nanoseconds(nanos: u128, time: SystemTime)
    ensures
        nanos <= 0xffff_ffff_ffff_ffff ==> sequence_of(nanos) as int == nanos as int,
        nanos > 0xffff_ffff_ffff_ffff ==> sequence_of(nanos) as int == 0xffff_ffff_ffff_fffe,
        time_since_epoch(time) is None ==> sequence_at(time) == 0,
        time_since_epoch(time) matches Some(elapsed) ==> if nanos_of(elapsed)
            <= 0xffff_ffff_ffff_ffff {
            sequence_at(time) as int == nanos_of(elapsed) as int
        } else {
            sequence_at(time) as int == 0xffff_ffff_ffff_fffe
        },
{
}

/// Of two different revisions, exactly one is more recent; and what is more recent than a
/// more recent one is more recent.
pub proof fn law_revisions_are_totally_ordered(
    a: AffinityRevision,
    b: AffinityRevision,
    c: AffinityRevision,
)
    ensures
        !is_newer(a, a),
        a != b ==> (is_newer(a, b) != is_newer(b, a)),
        is_newer(a, b) && is_newer(b, c) ==> is_newer(a, c),
{
}

/// Sequence numbers follow the clock: a later count of nanoseconds gives a larger number
/// while the counts fit, and never a smaller one but where the first count that does not
/// fit comes after the last that does.
pub proof fn law_sequence_numbers_follow_the_clock(earlier: u128, later: u128)
    requires
        earlier <= later,
        !(earlier == u64::MAX && later > u64::MAX),
    ensures
        sequence_of(earlier) <= sequence_of(later),
        earlier < later <= u64::MAX ==> sequence_of(earlier) < sequence_of(later),
{
}

/// News never takes a binding back to an older revision.
pub proof fn law_a_binding_never_goes_back(
    binding: ReplicaBinding,
    target: AffinityTarget,
    revision: AffinityRevision,
)
    ensures
        !is_newer(binding.revision, applied(binding, target, revision).revision),
        !is_newer(revision, applied(binding, target, revision).revision),
{
}

/// The same news twice is news once: the second time changes nothing, and once it has
/// replaced or refreshed the binding it refreshes it.
pub proof fn law_repeated_news_changes_nothing(
    binding: ReplicaBinding,
    target: AffinityTarget,
    revision: AffinityRevision,
)
    ensures
        applied(applied(binding, target, revision), target, revision) == applied(
            binding,
            target,
            revision,
        ),
        !(outcome(binding, target, revision) is IgnoredStale) ==> outcome(
            applied(binding, target, revision),
            target,
            revision,
        ) is Refreshed,
{
}

/// News that is not taken over leaves the binding as it was, and the outcome says so.
pub proof fn law_only_newer_news_replaces(
    binding: ReplicaBinding,
    target: AffinityTarget,
    revision: AffinityRevision,
)
    ensures
        outcome(binding, target, revision) is ReplacedNewer <==> is_newer(
            revision,
            binding.revision,
        ),
        outcome(binding, target, revision) is ReplacedNewer ==> applied(binding, target, revision)
            == (ReplicaBinding { target, revision }),
        !(outcome(binding, target, revision) is ReplacedNewer) ==> applied(
            binding,
            target,
            revision,
        ) == binding,
        outcome(binding, target, revision) is ReplacedNewer || outcome(
            binding,
            target,
            revision,
        ) is Refreshed || outcome(binding, target, revision) is IgnoredStale,
{
}

/// Replicas agree whatever the order in which news reaches them, as long as no two
/// different targets come under one revision.
pub proof fn law_news_may_come_in_any_order(
    binding: ReplicaBinding,
    first: ReplicaBinding,
    second: ReplicaBinding,
)
    requires
        first.revision == second.revision ==> first.target == second.target,
    ensures
        applied(
            applied(binding, first.target, first.revision),
            second.target,
            second.revision,
        ) == applied(
            applied(binding, second.target, second.revision),
            first.target,
            first.revision,
        ),
{
}

} // verus!
