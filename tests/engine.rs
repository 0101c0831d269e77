use solai::aggregate::{merge, MergeError, RATE_SCALE};
use solai::allocate::{allocate, allocation_shortfall, RewardAllocation};
use solai::codec::{decode, encode, DecodeError, FORMAT_VERSION};
use solai::ledger::{DistributionLedger, LedgerError};
use solai::model::{GlobalModel, LocalUpdate, Participant, WEIGHT_SCALE};
use solai::round::{advance, run_round, RoundError, RoundEvent, RoundState};
use solai::validate::{
    validate, AcceptAll, MaxMagnitude, RejectionReason, ValidatedUpdate, ValidationPolicy,
};

const A: u64 = 1;
const B: u64 = 2;
const C: u64 = 3;

fn upd(id: u64, weights: Vec<i64>, n: u64) -> LocalUpdate {
    LocalUpdate { submitter_id: id, weights, num_samples: n }
}

fn accepted(u: LocalUpdate) -> ValidatedUpdate {
    let len = u.weights.len();
    validate(u, ValidationPolicy { min_samples: 1, expected_len: len }, &AcceptAll).unwrap()
}

fn participant(id: u64, samples: u64) -> Participant {
    Participant { id, samples_contributed: samples, rewards_issued: 0 }
}

fn grant(id: u64, amount: u64) -> RewardAllocation {
    RewardAllocation { participant_id: id, amount }
}

// learning rate 0.01
const RATE: u64 = RATE_SCALE / 100;

#[test]
fn scenario_a_merge_step() {
    let g = GlobalModel::new(vec![0, 0]);
    let u = accepted(upd(A, vec![WEIGHT_SCALE, WEIGHT_SCALE], 10));
    let m = merge(&g, &u, RATE, 32).unwrap();
    // 0.0003125 in fixed point
    assert_eq!(m.weights, vec![312_500, 312_500]);
    assert_eq!(m.num_samples, 10);
    assert_eq!(m.participants, vec![participant(A, 10)]);
}

#[test]
fn merge_moves_down_toward_update() {
    let g = GlobalModel::new(vec![WEIGHT_SCALE, -5]);
    let u = accepted(upd(A, vec![0, -5], 4));
    let m = merge(&g, &u, RATE_SCALE / 2, 1).unwrap();
    assert_eq!(m.weights, vec![WEIGHT_SCALE / 2, -5]);
}

#[test]
fn merge_is_deterministic() {
    let g = GlobalModel::new(vec![7, -3, 100]);
    let u = accepted(upd(B, vec![1000, 2000, -4000], 5));
    let m1 = merge(&g, &u, RATE, 32).unwrap();
    let m2 = merge(&g, &u, RATE, 32).unwrap();
    assert_eq!(m1.weights, m2.weights);
    assert_eq!(m1.num_samples, m2.num_samples);
    assert_eq!(m1.participants, m2.participants);
    assert_eq!(encode(&m1), encode(&m2));
}

#[test]
fn merge_rejects_length_mismatch() {
    let g = GlobalModel::new(vec![0, 0]);
    let u = accepted(upd(A, vec![1, 2, 3], 10));
    assert!(matches!(merge(&g, &u, RATE, 32), Err(MergeError::SchemaMismatch)));
}

#[test]
fn merges_conserve_samples() {
    let mut g = GlobalModel::new(vec![0]);
    let updates = vec![upd(B, vec![1], 4), upd(A, vec![2], 6), upd(B, vec![3], 5), upd(C, vec![4], 1)];
    for u in updates {
        g = merge(&g, &accepted(u), RATE, 32).unwrap();
    }
    assert_eq!(g.num_samples, 16);
    assert_eq!(g.participants, vec![participant(A, 6), participant(B, 9), participant(C, 1)]);
    assert_eq!(g.participation(B), Some((9, 16)));
    assert_eq!(g.participation(9), None);
}

#[test]
fn validate_accepts_good_update() {
    let p = ValidationPolicy { min_samples: 5, expected_len: 2 };
    let v = validate(upd(A, vec![1, 2], 5), p, &AcceptAll).unwrap();
    assert_eq!(v.update().weights, vec![1, 2]);
}

#[test]
fn validate_rejects_empty_weights() {
    let p = ValidationPolicy { min_samples: 0, expected_len: 0 };
    let r = validate(upd(A, vec![], 5), p, &AcceptAll);
    assert!(matches!(r, Err(RejectionReason::EmptyWeights)));
}

#[test]
fn validate_rejects_few_samples() {
    let p = ValidationPolicy { min_samples: 5, expected_len: 2 };
    let r = validate(upd(A, vec![1, 2], 4), p, &AcceptAll);
    assert!(matches!(r, Err(RejectionReason::SampleCountTooLow)));
}

#[test]
fn validate_rejects_wrong_length() {
    let p = ValidationPolicy { min_samples: 1, expected_len: 3 };
    let r = validate(upd(A, vec![1, 2], 4), p, &AcceptAll);
    assert!(matches!(r, Err(RejectionReason::SchemaMismatch)));
}

#[test]
fn validate_applies_quality_predicate() {
    let p = ValidationPolicy { min_samples: 1, expected_len: 2 };
    let q = MaxMagnitude { bound: 10 };
    assert!(validate(upd(A, vec![10, -10], 4), p, &q).is_ok());
    let r = validate(upd(A, vec![3, -11], 4), p, &q);
    assert!(matches!(r, Err(RejectionReason::FailedQualityCheck)));
}

#[test]
fn scenario_b_allocation() {
    let ps = vec![participant(A, 7), participant(B, 3)];
    assert_eq!(allocate(&ps, 10), vec![grant(A, 7), grant(B, 3)]);
}

#[test]
fn scenario_c_half_tie_break() {
    let ps = vec![participant(A, 5), participant(B, 5)];
    assert_eq!(allocate(&ps, 1), vec![grant(A, 1), grant(B, 0)]);
}

#[test]
fn allocation_rounds_to_nearest() {
    let ps = vec![participant(A, 1), participant(B, 2)];
    // 33.33 -> 33, 66.67 -> 67
    assert_eq!(allocate(&ps, 100), vec![grant(A, 33), grant(B, 67)]);
}

#[test]
fn allocation_clamped_to_budget() {
    let ps = vec![participant(A, 1), participant(B, 1), participant(C, 1)];
    let r = allocate(&ps, 2);
    assert_eq!(r, vec![grant(A, 1), grant(B, 1), grant(C, 0)]);
    let sum: u64 = r.iter().map(|a| a.amount).sum();
    assert!(sum <= 2);
    // three rounded shares of 1 against a budget of 2
    assert_eq!(allocation_shortfall(&ps, 2), 1);
}

#[test]
fn shortfall_zero_when_shares_fit() {
    assert_eq!(allocation_shortfall(&vec![participant(A, 7), participant(B, 3)], 10), 0);
    assert_eq!(allocation_shortfall(&vec![participant(A, 5), participant(B, 5)], 1), 1);
    assert_eq!(allocation_shortfall(&vec![participant(A, 1), participant(B, 2)], 100), 0);
    assert_eq!(allocation_shortfall(&vec![], 100), 0);
}

#[test]
fn allocation_empty_without_participation() {
    assert_eq!(allocate(&vec![], 10), vec![]);
    let ps = vec![participant(A, 0), participant(B, 0)];
    assert_eq!(allocate(&ps, 10), vec![]);
}

#[test]
fn allocation_large_values() {
    let ps = vec![participant(A, u64::MAX), participant(B, u64::MAX)];
    assert_eq!(allocate(&ps, u64::MAX), vec![grant(A, u64::MAX / 2 + 1), grant(B, u64::MAX / 2)]);
}

#[test]
fn open_round_is_idempotent() {
    let mut l = DistributionLedger::new();
    assert!(l.open_round(7, &vec![grant(A, 3), grant(B, 2)]));
    assert!(!l.open_round(7, &vec![grant(A, 3), grant(B, 2)]));
    assert!(!l.open_round(7, &vec![grant(C, 9)]));
    assert_eq!(l.len(), 2);
    assert!(l.has_round(7));
    assert!(!l.has_round(8));
}

#[test]
fn scenario_d_resume_issues_only_failed() {
    let mut l = DistributionLedger::new();
    l.open_round(1, &vec![grant(A, 7), grant(B, 3)]);
    let first = l.next_pending(1).unwrap();
    assert_eq!(first, 0);
    l.mark_issued(first).unwrap();
    // issuance for B fails: nothing is marked
    assert_eq!(l.next_pending(1), Some(1));
    // retry of the same round
    assert!(!l.open_round(1, &vec![grant(A, 7), grant(B, 3)]));
    let again = l.next_pending(1).unwrap();
    assert_eq!(again, 1);
    let rec = l.mark_issued(again).unwrap();
    assert_eq!(rec.participant_id, B);
    assert_eq!(rec.amount, 3);
    let a = l.record(0).unwrap();
    assert_eq!((a.participant_id, a.amount, a.issued), (A, 7, true));
    assert_eq!(l.next_pending(1), None);
    assert!(l.is_complete(1));
}

#[test]
fn mark_issued_errors() {
    let mut l = DistributionLedger::new();
    l.open_round(1, &vec![grant(A, 7)]);
    assert!(matches!(l.mark_issued(5), Err(LedgerError::UnknownRecord)));
    l.mark_issued(0).unwrap();
    assert!(matches!(l.mark_issued(0), Err(LedgerError::AlreadyIssued)));
    assert_eq!(l.record(0).unwrap().issued, true);
    assert!(l.record(1).is_none());
}

#[test]
fn round_stages() {
    let mut s = RoundState::Received;
    for e in [
        RoundEvent::ValidationPassed,
        RoundEvent::MergeApplied,
        RoundEvent::AllocationComputed,
        RoundEvent::IssuanceAttempted,
        RoundEvent::IssuanceAttempted,
        RoundEvent::AllIssued,
    ] {
        s = advance(s, e).unwrap();
    }
    assert_eq!(s, RoundState::Complete);
    assert_eq!(advance(RoundState::Received, RoundEvent::ValidationFailed).unwrap(), RoundState::Rejected);
    assert_eq!(advance(RoundState::Merged, RoundEvent::SchemaMismatch).unwrap(), RoundState::Rejected);
    let e = advance(RoundState::Received, RoundEvent::AllIssued).unwrap_err();
    assert_eq!(e.state, RoundState::Received);
    assert_eq!(e.event, RoundEvent::AllIssued);
    assert!(advance(RoundState::Complete, RoundEvent::IssuanceAttempted).is_err());
}

#[test]
fn run_round_full() {
    let mut g = GlobalModel::new(vec![0, 0]);
    let mut l = DistributionLedger::new();
    let p = ValidationPolicy { min_samples: 1, expected_len: 2 };
    run_round(&mut g, &mut l, upd(A, vec![WEIGHT_SCALE, 0], 7), p, &AcceptAll, RATE, 32, 0, 1).unwrap();
    let out = run_round(&mut g, &mut l, upd(B, vec![0, WEIGHT_SCALE], 3), p, &AcceptAll, RATE, 32, 10, 2)
        .unwrap();
    assert_eq!(out.allocations, vec![grant(A, 7), grant(B, 3)]);
    assert!(out.opened);
    assert_eq!(out.shortfall, 0);
    assert_eq!(g.num_samples, 10);
    assert_eq!(l.len(), 3);
    assert_eq!(l.next_pending(2), Some(1));
    assert!(g.credit_rewards(A, 7));
    assert_eq!(g.participants[0].rewards_issued, 7);
    assert!(!g.credit_rewards(9, 1));
    assert!(!g.credit_rewards(A, u64::MAX));
}

#[test]
fn run_round_failures_change_nothing() {
    let mut g = GlobalModel::new(vec![0, 0]);
    let mut l = DistributionLedger::new();
    let p = ValidationPolicy { min_samples: 5, expected_len: 2 };
    let r = run_round(&mut g, &mut l, upd(A, vec![1, 1], 4), p, &AcceptAll, RATE, 32, 10, 1);
    assert!(matches!(r, Err(RoundError::Rejected(RejectionReason::SampleCountTooLow))));
    let p3 = ValidationPolicy { min_samples: 1, expected_len: 3 };
    let r = run_round(&mut g, &mut l, upd(A, vec![1, 1, 1], 4), p3, &AcceptAll, RATE, 32, 10, 1);
    assert!(matches!(r, Err(RoundError::Schema(MergeError::SchemaMismatch))));
    run_round(&mut g, &mut l, upd(A, vec![1, 1], u64::MAX), p, &AcceptAll, RATE, 32, 10, 1).unwrap();
    let r = run_round(&mut g, &mut l, upd(B, vec![1, 1], 5), p, &AcceptAll, RATE, 32, 10, 2);
    assert!(matches!(r, Err(RoundError::SampleCountOverflow)));
    assert_eq!(g.num_samples, u64::MAX);
    assert_eq!(l.len(), 1);
}

#[test]
fn encoding_round_trip() {
    let mut g = GlobalModel::new(vec![-1, 0, i64::MAX, i64::MIN]);
    g = merge(&g, &accepted(upd(B, vec![5, 5, 5, 5], 3)), RATE, 32).unwrap();
    g = merge(&g, &accepted(upd(A, vec![9, 9, 9, 9], 2)), RATE, 32).unwrap();
    g.credit_rewards(B, 11);
    let bytes = encode(&g);
    assert_eq!(bytes[0], FORMAT_VERSION);
    assert_eq!(bytes.len(), 1 + 8 * (3 + 4 + 6));
    let back = decode(&bytes).unwrap();
    assert_eq!(back.weights, g.weights);
    assert_eq!(back.num_samples, g.num_samples);
    assert_eq!(back.participants, g.participants);
}

#[test]
fn encoding_layout() {
    let g = GlobalModel::new(vec![-1]);
    let mut expected = vec![FORMAT_VERSION, 1, 0, 0, 0, 0, 0, 0, 0];
    expected.extend_from_slice(&[0xff; 8]);
    expected.extend_from_slice(&[0; 16]);
    assert_eq!(encode(&g), expected);
}

#[test]
fn decode_refusals() {
    let g = GlobalModel::new(vec![1, 2]);
    let mut bytes = encode(&g);
    bytes[0] = 2;
    assert!(matches!(decode(&bytes), Err(DecodeError::UnknownVersion)));
    assert!(matches!(decode(&vec![]), Err(DecodeError::Malformed)));
    let mut short = encode(&g);
    short.pop();
    assert!(matches!(decode(&short), Err(DecodeError::Malformed)));
    // participants out of id order
    let bad = GlobalModel {
        weights: vec![],
        num_samples: 2,
        participants: vec![participant(B, 1), participant(A, 1)],
    };
    assert!(matches!(decode(&encode(&bad)), Err(DecodeError::Malformed)));
    // sample count that differs from the contributions
    let bad = GlobalModel { weights: vec![], num_samples: 3, participants: vec![participant(A, 1)] };
    assert!(matches!(decode(&encode(&bad)), Err(DecodeError::Malformed)));
}
