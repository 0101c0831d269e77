use vstd::prelude::*;
use crate::model::{LocalUpdate, UpdateView};

verus! {

/// Why a submission was refused.
#[derive(Clone, Copy, Debug, PartialEq, Eq, Structural)]
pub enum RejectionReason {
    EmptyWeights,
    SampleCountTooLow,
    NonFiniteWeight,
    SchemaMismatch,
    FailedQualityCheck,
}

/// Acceptance policy for submissions.
#[derive(Clone, Copy, Debug)]
pub struct ValidationPolicy {
    /// Smallest accepted sample count.
    pub min_samples: u64,
    /// Number of weights every submission must carry.
    pub expected_len: usize,
}

/// A screening predicate on submissions (accuracy, malice), supplied by the
/// caller of `validate`.
pub trait QualityPredicate {
    /// What `accepts` answers for an update.
    spec fn accepts_spec(&self, u: UpdateView) -> bool;

    fn accepts(&self, u: &LocalUpdate) -> (r: bool)
        ensures
            r == self.accepts_spec(u@),
    ;
}

/// The predicate that accepts every submission.
#[derive(Clone, Copy, Debug)]
pub struct AcceptAll;

impl QualityPredicate for AcceptAll {
    open spec fn accepts_spec(&self, u: UpdateView) -> bool {
        true
    }

    fn accepts(&self, u: &LocalUpdate) -> (r: bool) {
        true
    }
}

/// Accepts an update only when every weight lies within `[-bound, bound]`
/// (a screen against exploding or poisoned updates).
#[derive(Clone, Copy, Debug)]
pub struct MaxMagnitude {
    pub bound: i64,
}

impl QualityPredicate for MaxMagnitude {
    open spec fn accepts_spec(&self, u: UpdateView) -> bool {
        forall|i: int| 0 <= i < u.weights.len() ==> -self.bound <= #[trigger] u.weights[i] <= self.bound
    }

    fn accepts(&self, u: &LocalUpdate) -> (r: bool) {
        let mut i: usize = 0;
        while i < u.weights.len()
            invariant
                i <= u.weights.len(),
                forall|j: int| 0 <= j < i ==> -self.bound <= #[trigger] u.weights@[j] <= self.bound,
            decreases u.weights.len() - i,
        {
            let w = u.weights[i];
            if w > self.bound || (w as i128) < -(self.bound as i128) {
                assert(!(-self.bound <= u@.weights[i as int] <= self.bound));
                return false;
            }
            i = i + 1;
        }
        true
    }
}

/// An update that passed validation; only `validate` makes one.
#[derive(Clone, Debug)]
pub struct ValidatedUpdate {
    update: LocalUpdate,
}

impl View for ValidatedUpdate {
    type V = UpdateView;

    closed spec fn view(&self) -> UpdateView {
        self.update@
    }
}

impl ValidatedUpdate {
    /// The accepted update.
    pub fn update(&self) -> (r: &LocalUpdate)
        ensures
            r@ == self@,
    {
        &self.update
    }
}

/// The first rule, in checking order, that `u` breaks under `policy`, if any:
/// weights present, enough samples, the expected length, then the predicate.
pub open spec fn rejection<Q: QualityPredicate>(
    u: UpdateView,
    policy: ValidationPolicy,
    q: Q,
) -> Option<RejectionReason> {
    if u.weights.len() == 0 {
        Some(RejectionReason::EmptyWeights)
    } else if u.num_samples < policy.min_samples {
        Some(RejectionReason::SampleCountTooLow)
    } else if u.weights.len() != policy.expected_len {
        Some(RejectionReason::SchemaMismatch)
    } else if !q.accepts_spec(u) {
        Some(RejectionReason::FailedQualityCheck)
    } else {
        None
    }
}

/// Applies the acceptance policy and the quality predicate to a submission.
/// Weights are fixed-point integers and so always finite; a non-finite value
/// is refused where a real-valued weight is converted into one.
pub fn validate<Q: QualityPredicate>(update: LocalUpdate, policy: ValidationPolicy, q: &Q) -> (r:
    Result<ValidatedUpdate, RejectionReason>)
    ensures
        match rejection(update@, policy, *q) {
            Some(e) => r == Err::<ValidatedUpdate, RejectionReason>(e),
            None => r is Ok && r->Ok_0@ == update@,
        },
{
    if update.weights.len() == 0 {
        Err(RejectionReason::EmptyWeights)
    } else if update.num_samples < policy.min_samples {
        Err(RejectionReason::SampleCountTooLow)
    } else if update.weights.len() != policy.expected_len {
        Err(RejectionReason::SchemaMismatch)
    } else if !q.accepts(&update) {
        Err(RejectionReason::FailedQualityCheck)
    } else {
        Ok(ValidatedUpdate { update })
    }
}

} // verus!
