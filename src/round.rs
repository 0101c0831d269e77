use vstd::prelude::*;
use crate::aggregate::{MergeError, RATE_SCALE, merge, merged};
use crate::allocate::{RewardAllocation, allocate, allocation, allocation_shortfall, shortfall};
use crate::ledger::{DistributionLedger, opened};
use crate::model::{GlobalModel, LocalUpdate};
use crate::validate::{QualityPredicate, RejectionReason, ValidationPolicy, rejection, validate};

verus! {

/// Stage of one round of the engine.
#[derive(Clone, Copy, Debug, PartialEq, Eq, Structural)]
pub enum RoundState {
    Received,
    Validated,
    Merged,
    Allocated,
    Distributed,
    Complete,
    Rejected,
}

/// What happened at the current stage.
#[derive(Clone, Copy, Debug, PartialEq, Eq, Structural)]
pub enum RoundEvent {
    ValidationPassed,
    ValidationFailed,
    MergeApplied,
    SchemaMismatch,
    AllocationComputed,
    /// An issuance pass ran, some payouts may be left to retry.
    IssuanceAttempted,
    AllIssued,
}

/// The event does not apply in the current stage.
#[derive(Clone, Copy, Debug, PartialEq, Eq, Structural)]
pub struct InvalidTransition {
    pub state: RoundState,
    pub event: RoundEvent,
}

/// The stage that follows `s` on `e`, if `e` may happen there.
pub open spec fn next_state(s: RoundState, e: RoundEvent) -> Option<RoundState> {
    match (s, e) {
        (RoundState::Received, RoundEvent::ValidationPassed) => Some(RoundState::Validated),
        (RoundState::Received, RoundEvent::ValidationFailed) => Some(RoundState::Rejected),
        (RoundState::Validated, RoundEvent::MergeApplied) => Some(RoundState::Merged),
        (RoundState::Merged, RoundEvent::SchemaMismatch) => Some(RoundState::Rejected),
        (RoundState::Merged, RoundEvent::AllocationComputed) => Some(RoundState::Allocated),
        (RoundState::Allocated, RoundEvent::IssuanceAttempted) => Some(RoundState::Distributed),
        (RoundState::Distributed, RoundEvent::IssuanceAttempted) => Some(RoundState::Distributed),
        (RoundState::Distributed, RoundEvent::AllIssued) => Some(RoundState::Complete),
        _ => None,
    }
}

/// Position of a stage on the way from `Received` to `Complete`.
pub open spec fn stage_rank(s: RoundState) -> int {
    match s {
        RoundState::Received => 0,
        RoundState::Validated => 1,
        RoundState::Merged => 2,
        RoundState::Allocated => 3,
        RoundState::Distributed => 4,
        RoundState::Complete => 5,
        RoundState::Rejected => 6,
    }
}

/// Moves a round to its next stage.
pub fn advance(s: RoundState, e: RoundEvent) -> (r: Result<RoundState, InvalidTransition>)
    ensures
        match next_state(s, e) {
            Some(t) => r == Ok::<RoundState, InvalidTransition>(t),
            None => r == Err::<RoundState, InvalidTransition>(InvalidTransition { state: s, event: e }),
        },
{
    match (s, e) {
        (RoundState::Received, RoundEvent::ValidationPassed) => Ok(RoundState::Validated),
        (RoundState::Received, RoundEvent::ValidationFailed) => Ok(RoundState::Rejected),
        (RoundState::Validated, RoundEvent::MergeApplied) => Ok(RoundState::Merged),
        (RoundState::Merged, RoundEvent::SchemaMismatch) => Ok(RoundState::Rejected),
        (RoundState::Merged, RoundEvent::AllocationComputed) => Ok(RoundState::Allocated),
        (RoundState::Allocated, RoundEvent::IssuanceAttempted) => Ok(RoundState::Distributed),
        (RoundState::Distributed, RoundEvent::IssuanceAttempted) => Ok(RoundState::Distributed),
        (RoundState::Distributed, RoundEvent::AllIssued) => Ok(RoundState::Complete),
        _ => Err(InvalidTransition { state: s, event: e }),
    }
}

/// Rounds move forward one stage at a time: no stage is skipped, nothing
/// leaves `Complete` or `Rejected`, `Rejected` is entered only from `Received`
/// or `Merged`, and the one repeated stage is a retried distribution.
pub proof fn lemma_stages_in_order(s: RoundState, e: RoundEvent)
    ensures
        next_state(s, e) matches Some(t) ==> (
            (t != RoundState::Rejected && stage_rank(t) == stage_rank(s) + 1)
            || (t == RoundState::Rejected && (s == RoundState::Received || s == RoundState::Merged))
            || (s == RoundState::Distributed && t == RoundState::Distributed)),
        s == RoundState::Complete || s == RoundState::Rejected ==> next_state(s, e).is_none(),
{
}

/// Why a round ended without allocations.
#[derive(Clone, Copy, Debug, PartialEq, Eq, Structural)]
pub enum RoundError {
    /// The submission broke the acceptance policy.
    Rejected(RejectionReason),
    /// The submission does not fit the model.
    Schema(MergeError),
    /// The model's sample count would pass the largest `u64`.
    SampleCountOverflow,
}

/// Result of a round up to issuance.
#[derive(Clone, Debug)]
pub struct RoundOutcome {
    /// Reward units per participant, in ascending id order.
    pub allocations: Vec<RewardAllocation>,
    /// Reward units withheld by clamping to the budget; non-zero calls for a warning.
    pub shortfall: u128,
    /// Whether the ledger opened the round now (`false`: opened before).
    pub opened: bool,
}

/// Runs one round up to issuance: validates the submission, merges it into
/// the model, allocates `reward_units` over the updated participants and opens
/// round `round_id` in the ledger. Any failure leaves model and ledger as they
/// were. What remains is to issue the ledger's pending records.
pub fn run_round<Q: QualityPredicate>(
    model: &mut GlobalModel,
    ledger: &mut DistributionLedger,
    update: LocalUpdate,
    policy: ValidationPolicy,
    q: &Q,
    rate: u64,
    batch: u64,
    reward_units: u64,
    round_id: u64,
) -> (r: Result<RoundOutcome, RoundError>)
    requires
        old(model)@.wf(),
        rate <= RATE_SCALE,
        batch > 0,
    ensures
        r is Err ==> final(model)@ == old(model)@ && final(ledger)@ == old(ledger)@,
        rejection(update@, policy, *q) matches Some(e) ==> r == Err::<RoundOutcome, RoundError>(
            RoundError::Rejected(e),
        ),
        rejection(update@, policy, *q) is None && old(model).num_samples + update.num_samples
            > u64::MAX ==> r == Err::<RoundOutcome, RoundError>(RoundError::SampleCountOverflow),
        rejection(update@, policy, *q) is None && old(model).num_samples + update.num_samples
            <= u64::MAX && update@.weights.len() != old(model)@.weights.len() ==> r == Err::<
            RoundOutcome,
            RoundError,
        >(RoundError::Schema(MergeError::SchemaMismatch)),
        rejection(update@, policy, *q) is None && old(model).num_samples + update.num_samples
            <= u64::MAX && update@.weights.len() == old(model)@.weights.len() ==> r is Ok
            && final(model)@ == merged(old(model)@, update@, rate, batch)
            && final(model)@.wf()
            && r->Ok_0.allocations@ == allocation(final(model)@.participants, reward_units)
            && r->Ok_0.shortfall == shortfall(final(model)@.participants, reward_units)
            && final(ledger)@ == opened(old(ledger)@, round_id, r->Ok_0.allocations@)
            && r->Ok_0.opened == !old(ledger)@.rounds.contains(round_id),
{
    let v = match validate(update, policy, q) {
        Ok(v) => v,
        Err(e) => {
            return Err(RoundError::Rejected(e));
        },
    };
    if v.update().num_samples > u64::MAX - model.num_samples {
        return Err(RoundError::SampleCountOverflow);
    }
    let next = match merge(model, &v, rate, batch) {
        Ok(m) => m,
        Err(e) => {
            return Err(RoundError::Schema(e));
        },
    };
    let allocations = allocate(&next.participants, reward_units);
    let withheld = allocation_shortfall(&next.participants, reward_units);
    *model = next;
    let opened_now = ledger.open_round(round_id, &allocations);
    Ok(RoundOutcome { allocations, shortfall: withheld, opened: opened_now })
}

} // verus!
