use vstd::prelude::*;
use crate::allocate::RewardAllocation;

verus! {

/// One participant's payout in one allocation round.
#[derive(Clone, Copy, Debug, PartialEq, Eq, Structural)]
pub struct DistributionRecord {
    pub round_id: u64,
    pub participant_id: u64,
    pub amount: u64,
    /// Set once the issuance service confirmed the payout; never cleared.
    pub issued: bool,
}

/// Why a ledger update was refused; the ledger is left as it was.
#[derive(Clone, Copy, Debug, PartialEq, Eq, Structural)]
pub enum LedgerError {
    /// No record at that position.
    UnknownRecord,
    /// The record was already issued; issuing it again would pay twice.
    AlreadyIssued,
}

/// Records of every opened allocation round, in the order they were made.
#[derive(Debug)]
pub struct DistributionLedger {
    records: Vec<DistributionRecord>,
    rounds: Vec<u64>,
}

/// Mathematical value of a `DistributionLedger`.
pub struct LedgerView {
    pub records: Seq<DistributionRecord>,
    /// Ids of the opened rounds.
    pub rounds: Seq<u64>,
}

impl View for DistributionLedger {
    type V = LedgerView;

    closed spec fn view(&self) -> LedgerView {
        LedgerView { records: self.records@, rounds: self.rounds@ }
    }
}

/// The fresh, unissued records of a round.
pub open spec fn records_for(round_id: u64, allocs: Seq<RewardAllocation>) -> Seq<DistributionRecord> {
    Seq::new(
        allocs.len(),
        |i: int|
            DistributionRecord {
                round_id,
                participant_id: allocs[i].participant_id,
                amount: allocs[i].amount,
                issued: false,
            },
    )
}

/// The ledger after opening round `round_id` with `allocs`: unchanged when the
/// round was opened before, else with the round's records appended.
pub open spec fn opened(l: LedgerView, round_id: u64, allocs: Seq<RewardAllocation>) -> LedgerView {
    if l.rounds.contains(round_id) {
        l
    } else {
        LedgerView { records: l.records + records_for(round_id, allocs), rounds: l.rounds.push(round_id) }
    }
}

/// Whether the record at `i` still waits for issuance in round `round_id`.
pub open spec fn pending(l: LedgerView, round_id: u64, i: int) -> bool {
    0 <= i < l.records.len() && l.records[i].round_id == round_id && !l.records[i].issued
}

/// The ledger after the record at `i` was issued.
pub open spec fn issued_at(l: LedgerView, i: int) -> LedgerView {
    LedgerView { records: l.records.update(i, DistributionRecord { issued: true, ..l.records[i] }), ..l }
}

/// Opening a round is idempotent: opening it again, with any allocations,
/// changes nothing, so no record is created (or paid) twice.
pub proof fn lemma_open_idempotent(
    l: LedgerView,
    round_id: u64,
    first: Seq<RewardAllocation>,
    again: Seq<RewardAllocation>,
)
    ensures
        opened(opened(l, round_id, first), round_id, again) == opened(l, round_id, first),
{
    if !l.rounds.contains(round_id) {
        assert(l.rounds.push(round_id)[l.rounds.len() as int] == round_id);
    }
}

/// Issuing a record removes it from the pending ones and touches no other
/// record, so a record is handed out for issuance at most once.
pub proof fn lemma_issue_once(l: LedgerView, round_id: u64, i: int, j: int)
    requires
        0 <= i < l.records.len(),
    ensures
        !pending(issued_at(l, i), round_id, i),
        j != i ==> pending(issued_at(l, i), round_id, j) == pending(l, round_id, j),
{
}

impl DistributionLedger {
    /// An empty ledger.
    pub fn new() -> (r: DistributionLedger)
        ensures
            r@.records.len() == 0,
            r@.rounds.len() == 0,
    {
        DistributionLedger { records: Vec::new(), rounds: Vec::new() }
    }

    /// Whether round `round_id` was opened.
    pub fn has_round(&self, round_id: u64) -> (r: bool)
        ensures
            r == self@.rounds.contains(round_id),
    {
        let mut i: usize = 0;
        while i < self.rounds.len()
            invariant
                i <= self.rounds.len(),
                forall|j: int| 0 <= j < i ==> self.rounds@[j] != round_id,
            decreases self.rounds.len() - i,
        {
            if self.rounds[i] == round_id {
                assert(self@.rounds[i as int] == round_id);
                return true;
            }
            i = i + 1;
        }
        false
    }

    /// Opens round `round_id` with one unissued record per allocation.
    /// Returns `false`, and changes nothing, when the round was opened before.
    pub fn open_round(&mut self, round_id: u64, allocs: &Vec<RewardAllocation>) -> (r: bool)
        ensures
            final(self)@ == opened(old(self)@, round_id, allocs@),
            r == !old(self)@.rounds.contains(round_id),
    {
        if self.has_round(round_id) {
            return false;
        }
        let ghost start = self.records@;
        let mut i: usize = 0;
        while i < allocs.len()
            invariant
                i <= allocs.len(),
                self.records@ =~= start + records_for(round_id, allocs@).subrange(0, i as int),
                self.rounds@ == old(self)@.rounds,
                start == old(self)@.records,
            decreases allocs.len() - i,
        {
            let a = allocs[i];
            self.records.push(
                DistributionRecord { round_id, participant_id: a.participant_id, amount: a.amount, issued: false },
            );
            i = i + 1;
        }
        assert(records_for(round_id, allocs@).subrange(0, allocs@.len() as int) =~= records_for(round_id, allocs@));
        self.rounds.push(round_id);
        true
    }

    /// Position of the first record of round `round_id` that still waits for
    /// issuance, or `None` when the round is fully issued (or unknown).
    pub fn next_pending(&self, round_id: u64) -> (r: Option<usize>)
        ensures
            match r {
                Some(i) => pending(self@, round_id, i as int) && forall|j: int|
                    0 <= j < i ==> !pending(self@, round_id, j),
                None => forall|j: int| !pending(self@, round_id, j),
            },
    {
        let mut i: usize = 0;
        while i < self.records.len()
            invariant
                i <= self.records.len(),
                forall|j: int| 0 <= j < i ==> !pending(self@, round_id, j),
            decreases self.records.len() - i,
        {
            let rec = self.records[i];
            if rec.round_id == round_id && !rec.issued {
                return Some(i);
            }
            i = i + 1;
        }
        None
    }

    /// Whether every record of round `round_id` was issued.
    pub fn is_complete(&self, round_id: u64) -> (r: bool)
        ensures
            r == forall|j: int| !pending(self@, round_id, j),
    {
        self.next_pending(round_id).is_none()
    }

    /// The record at position `i`, if there is one.
    pub fn record(&self, i: usize) -> (r: Option<DistributionRecord>)
        ensures
            i < self@.records.len() ==> r == Some(self@.records[i as int]),
            i >= self@.records.len() ==> r.is_none(),
    {
        if i < self.records.len() {
            Some(self.records[i])
        } else {
            None
        }
    }

    /// Number of records over all rounds.
    pub fn len(&self) -> (r: usize)
        ensures
            r == self@.records.len(),
    {
        self.records.len()
    }

    /// Marks the record at `i` as issued, after the issuance service confirmed
    /// it. Refused, with the ledger unchanged, for an unknown position or a
    /// record already issued.
    pub fn mark_issued(&mut self, i: usize) -> (r: Result<DistributionRecord, LedgerError>)
        ensures
            i >= old(self)@.records.len() ==> r == Err::<DistributionRecord, LedgerError>(
                LedgerError::UnknownRecord,
            ),
            i < old(self)@.records.len() && old(self)@.records[i as int].issued ==> r == Err::<
                DistributionRecord,
                LedgerError,
            >(LedgerError::AlreadyIssued),
            r is Err ==> final(self)@ == old(self)@,
            i < old(self)@.records.len() && !old(self)@.records[i as int].issued ==> r == Ok::<
                DistributionRecord,
                LedgerError,
            >(old(self)@.records[i as int]) && final(self)@ == issued_at(old(self)@, i as int),
    {
        if i >= self.records.len() {
            return Err(LedgerError::UnknownRecord);
        }
        let rec = self.records[i];
        if rec.issued {
            return Err(LedgerError::AlreadyIssued);
        }
        self.records.set(i, DistributionRecord { issued: true, ..rec });
        Ok(rec)
    }
}

} // verus!
