use vstd::prelude::*;

verus! {

/// Number of fixed-point units in one whole weight unit: a stored weight `w`
/// stands for the real value `w / WEIGHT_SCALE`.
pub const WEIGHT_SCALE: i64 = 1_000_000_000;

/// One participant's ledger entry.
#[derive(Clone, Copy, Debug, PartialEq, Eq, Structural)]
pub struct Participant {
    pub id: u64,
    /// Samples contributed over all accepted updates.
    pub samples_contributed: u64,
    /// Reward units issued so far.
    pub rewards_issued: u64,
}

/// A participant's locally trained contribution.
#[derive(Clone, Debug)]
pub struct LocalUpdate {
    pub submitter_id: u64,
    pub weights: Vec<i64>,
    pub num_samples: u64,
}

/// Mathematical value of a `LocalUpdate`.
pub struct UpdateView {
    pub submitter_id: u64,
    pub weights: Seq<i64>,
    pub num_samples: u64,
}

impl View for LocalUpdate {
    type V = UpdateView;

    open spec fn view(&self) -> UpdateView {
        UpdateView { submitter_id: self.submitter_id, weights: self.weights@, num_samples: self.num_samples }
    }
}

/// The shared global model and its participant ledger.
#[derive(Clone, Debug)]
pub struct GlobalModel {
    pub weights: Vec<i64>,
    /// Cumulative number of samples over all accepted updates.
    pub num_samples: u64,
    /// Participants, in strictly ascending id order.
    pub participants: Vec<Participant>,
}

/// Mathematical value of a `GlobalModel`.
pub struct ModelView {
    pub weights: Seq<i64>,
    pub num_samples: u64,
    pub participants: Seq<Participant>,
}

impl View for GlobalModel {
    type V = ModelView;

    open spec fn view(&self) -> ModelView {
        ModelView { weights: self.weights@, num_samples: self.num_samples, participants: self.participants@ }
    }
}

/// Ids strictly ascending: the participants form a map keyed by id.
pub open spec fn ids_ascending(ps: Seq<Participant>) -> bool {
    forall|i: int, j: int| 0 <= i < j < ps.len() ==> #[trigger] ps[i].id < #[trigger] ps[j].id
}

/// Sum of the samples contributed by the participants.
pub open spec fn total_contributed(ps: Seq<Participant>) -> int
    decreases ps.len(),
{
    if ps.len() == 0 {
        0
    } else {
        total_contributed(ps.drop_last()) + ps.last().samples_contributed
    }
}

proof fn lemma_same_ids_total(a: Seq<Participant>, b: Seq<Participant>)
    requires
        a.len() == b.len(),
        forall|i: int| 0 <= i < a.len() ==> #[trigger] a[i].id == b[i].id && a[i].samples_contributed
            == b[i].samples_contributed,
    ensures
        total_contributed(a) == total_contributed(b),
        ids_ascending(a) ==> ids_ascending(b),
    decreases a.len(),
{
    if a.len() > 0 {
        let (c, d) = (a.drop_last(), b.drop_last());
        assert forall|i: int| 0 <= i < c.len() implies #[trigger] c[i].id == d[i].id
            && c[i].samples_contributed == d[i].samples_contributed by {
            assert(c[i] == a[i] && d[i] == b[i]);
        }
        assert(a[a.len() - 1].id == b[b.len() - 1].id);
        lemma_same_ids_total(c, d);
    }
    if ids_ascending(a) {
        assert forall|i: int, j: int| 0 <= i < j < b.len() implies #[trigger] b[i].id < #[trigger] b[j].id by {
            assert(a[i].id == b[i].id && a[j].id == b[j].id);
        }
    }
}

pub(crate) proof fn lemma_total_nonneg(ps: Seq<Participant>)
    ensures
        total_contributed(ps) >= 0,
    decreases ps.len(),
{
    if ps.len() > 0 {
        lemma_total_nonneg(ps.drop_last());
    }
}

impl ModelView {
    /// A model is well formed when its participants form a map keyed by id and
    /// its sample count is exactly what they contributed.
    pub open spec fn wf(self) -> bool {
        &&& ids_ascending(self.participants)
        &&& self.num_samples == total_contributed(self.participants)
    }

    /// Whether some participant has this id.
    pub open spec fn has_participant(self, id: u64) -> bool {
        exists|i: int| 0 <= i < self.participants.len() && self.participants[i].id == id
    }
}

impl GlobalModel {
    /// A model with the given initial weights, no samples and no participants.
    pub fn new(weights: Vec<i64>) -> (r: GlobalModel)
        ensures
            r@.weights == weights@,
            r@.num_samples == 0,
            r@.participants.len() == 0,
            r@.wf(),
    {
        GlobalModel { weights, num_samples: 0, participants: Vec::new() }
    }

    /// Participation of `id` as the exact fraction `(contributed, total)`,
    /// or `None` when `id` has no entry.
    pub fn participation(&self, id: u64) -> (r: Option<(u64, u64)>)
        ensures
            r.is_none() <==> !self@.has_participant(id),
            r.is_some() ==> exists|i: int|
                0 <= i < self@.participants.len() && self@.participants[i].id == id
                && r == Some((self@.participants[i].samples_contributed, self.num_samples)),
    {
        let mut i: usize = 0;
        while i < self.participants.len()
            invariant
                0 <= i <= self.participants.len(),
                forall|j: int| 0 <= j < i ==> self.participants@[j].id != id,
            decreases self.participants.len() - i,
        {
            if self.participants[i].id == id {
                assert(self@.participants[i as int].id == id);
                return Some((self.participants[i].samples_contributed, self.num_samples));
            }
            i = i + 1;
        }
        None
    }

    /// Adds `amount` to the rewards issued to participant `id`, once the
    /// issuance service confirmed them. Returns `false`, changing nothing, when
    /// `id` has no entry or its total would pass the largest `u64`.
    pub fn credit_rewards(&mut self, id: u64, amount: u64) -> (r: bool)
        requires
            old(self)@.wf(),
        ensures
            final(self)@.weights == old(self)@.weights,
            final(self)@.num_samples == old(self)@.num_samples,
            r == exists|i: int|
                0 <= i < old(self)@.participants.len() && old(self)@.participants[i].id == id
                && old(self)@.participants[i].rewards_issued + amount <= u64::MAX,
            !r ==> final(self)@.participants == old(self)@.participants,
            r ==> exists|i: int|
                0 <= i < old(self)@.participants.len() && old(self)@.participants[i].id == id
                && final(self)@.participants == old(self)@.participants.update(
                    i,
                    Participant {
                        rewards_issued: (old(self)@.participants[i].rewards_issued + amount) as u64,
                        ..old(self)@.participants[i]
                    },
                ),
            final(self)@.wf(),
    {
        let mut i: usize = 0;
        while i < self.participants.len()
            invariant
                0 <= i <= self.participants.len(),
                self.participants@ == old(self).participants@,
                self.weights@ == old(self).weights@,
                self.num_samples == old(self).num_samples,
                old(self)@.wf(),
                forall|j: int| 0 <= j < i ==> self.participants@[j].id != id,
            decreases self.participants.len() - i,
        {
            let p = self.participants[i];
            if p.id == id {
                if p.rewards_issued > u64::MAX - amount {
                    assert forall|j: int|
                        0 <= j < old(self)@.participants.len() && old(self)@.participants[j].id == id
                        implies old(self)@.participants[j].rewards_issued + amount > u64::MAX by {
                        if j != i {
                            assert(old(self)@.participants[j].id != old(self)@.participants[i as int].id);
                        }
                    }
                    return false;
                }
                assert(old(self)@.participants[i as int].id == id);
                let ghost before = self.participants@;
                self.participants.set(i, Participant { rewards_issued: p.rewards_issued + amount, ..p });
                proof {
                    lemma_same_ids_total(before, self.participants@);
                }
                return true;
            }
            i = i + 1;
        }
        false
    }
}

} // verus!
