use vstd::prelude::*;
use crate::model::{
    GlobalModel, ModelView, Participant, UpdateView, ids_ascending, lemma_total_nonneg,
    total_contributed,
};
use crate::validate::ValidatedUpdate;

verus! {

/// Number of fixed-point units in a learning rate of 1: a rate `r` stands for
/// `r / RATE_SCALE`.
pub const RATE_SCALE: u64 = 1_000_000_000;

/// Why a merge was refused; the global model is left as it was.
#[derive(Clone, Copy, Debug, PartialEq, Eq, Structural)]
pub enum MergeError {
    /// The update's weight count differs from the model's.
    SchemaMismatch,
}

/// One coordinate of the merge step: `g + (u - g) * rate / (RATE_SCALE * batch)`,
/// the fractional part of the move dropped (the move is rounded toward `g`).
pub open spec fn step(g: i64, u: i64, rate: u64, batch: u64) -> int {
    let den = RATE_SCALE * batch;
    if u >= g {
        g + (u - g) * rate / den
    } else {
        g - (g - u) * rate / den
    }
}

/// The merged weight vector, coordinate by coordinate.
pub open spec fn merged_weights(g: Seq<i64>, u: Seq<i64>, rate: u64, batch: u64) -> Seq<i64> {
    Seq::new(g.len(), |i: int| step(g[i], u[i], rate, batch) as i64)
}

/// Number of leading participants whose id is below `id`.
pub open spec fn lower_bound(ps: Seq<Participant>, id: u64) -> int
    decreases ps.len(),
{
    if ps.len() == 0 || ps[0].id >= id {
        0
    } else {
        1 + lower_bound(ps.drop_first(), id)
    }
}

/// The participant map after `id` contributed `n` more samples: the entry is
/// incremented, or created in id order.
pub open spec fn credit(ps: Seq<Participant>, id: u64, n: u64) -> Seq<Participant> {
    let k = lower_bound(ps, id);
    if k < ps.len() && ps[k].id == id {
        ps.update(k, Participant { samples_contributed: (ps[k].samples_contributed + n) as u64, ..ps[k] })
    } else {
        ps.insert(k, Participant { id, samples_contributed: n, rewards_issued: 0 })
    }
}

/// The global model after merging `u` with the given rate and batch size.
pub open spec fn merged(g: ModelView, u: UpdateView, rate: u64, batch: u64) -> ModelView {
    ModelView {
        weights: merged_weights(g.weights, u.weights, rate, batch),
        num_samples: (g.num_samples + u.num_samples) as u64,
        participants: credit(g.participants, u.submitter_id, u.num_samples),
    }
}

proof fn lemma_lower_bound(ps: Seq<Participant>, id: u64, k: int)
    requires
        0 <= k <= ps.len(),
        forall|j: int| 0 <= j < k ==> (#[trigger] ps[j]).id < id,
        k < ps.len() ==> ps[k].id >= id,
    ensures
        lower_bound(ps, id) == k,
    decreases k,
{
    if k > 0 {
        assert(ps[0].id < id);
        let t = ps.drop_first();
        assert forall|j: int| 0 <= j < k - 1 implies (#[trigger] t[j]).id < id by {
            assert(t[j] == ps[j + 1]);
        }
        if k - 1 < t.len() {
            assert(t[k - 1] == ps[k]);
        }
        lemma_lower_bound(t, id, k - 1);
    }
}

proof fn lemma_total_concat(a: Seq<Participant>, b: Seq<Participant>)
    ensures
        total_contributed(a + b) == total_contributed(a) + total_contributed(b),
    decreases b.len(),
{
    if b.len() > 0 {
        assert((a + b).drop_last() =~= a + b.drop_last());
        lemma_total_concat(a, b.drop_last());
    }
}

proof fn lemma_total_single(p: Participant)
    ensures
        total_contributed(seq![p]) == p.samples_contributed,
{
    assert(seq![p].drop_last() =~= Seq::<Participant>::empty());
    assert(total_contributed(Seq::<Participant>::empty()) == 0);
}

/// Crediting `n` samples adds `n` to the total and keeps the ids a map.
proof fn lemma_credit(ps: Seq<Participant>, id: u64, n: u64, k: int)
    requires
        ids_ascending(ps),
        lower_bound(ps, id) == k,
        0 <= k <= ps.len(),
        forall|j: int| 0 <= j < k ==> (#[trigger] ps[j]).id < id,
        k < ps.len() ==> ps[k].id >= id,
        k < ps.len() && ps[k].id == id ==> ps[k].samples_contributed + n <= u64::MAX,
    ensures
        total_contributed(credit(ps, id, n)) == total_contributed(ps) + n,
        ids_ascending(credit(ps, id, n)),
{
    let r = credit(ps, id, n);
    lemma_total_concat(ps.subrange(0, k), ps.subrange(k, ps.len() as int));
    assert(ps =~= ps.subrange(0, k) + ps.subrange(k, ps.len() as int));
    if k < ps.len() && ps[k].id == id {
        let x = r[k];
        assert(ps.subrange(k, ps.len() as int) =~= seq![ps[k]] + ps.subrange(k + 1, ps.len() as int));
        assert(r =~= ps.subrange(0, k) + (seq![x] + ps.subrange(k + 1, ps.len() as int)));
        lemma_total_concat(seq![ps[k]], ps.subrange(k + 1, ps.len() as int));
        lemma_total_concat(seq![x], ps.subrange(k + 1, ps.len() as int));
        lemma_total_concat(ps.subrange(0, k), seq![x] + ps.subrange(k + 1, ps.len() as int));
        lemma_total_single(x);
        lemma_total_single(ps[k]);
    } else {
        let x = Participant { id, samples_contributed: n, rewards_issued: 0 };
        assert(r =~= ps.subrange(0, k) + (seq![x] + ps.subrange(k, ps.len() as int)));
        lemma_total_concat(seq![x], ps.subrange(k, ps.len() as int));
        lemma_total_concat(ps.subrange(0, k), seq![x] + ps.subrange(k, ps.len() as int));
        lemma_total_single(x);
        assert forall|i: int, j: int| 0 <= i < j < r.len() implies #[trigger] r[i].id < #[trigger] r[j].id by {
            if j < k {
            } else if j == k {
                assert(r[i] == ps[i]);
            } else if i < k {
                assert(r[j] == ps[j - 1]);
                assert(ps[k].id > id);
                if j - 1 > k {
                    assert(ps[k].id < ps[j - 1].id);
                }
            } else if i == k {
                assert(r[j] == ps[j - 1]);
                if j - 1 > k {
                    assert(ps[k].id < ps[j - 1].id);
                }
            } else {
                assert(r[i] == ps[i - 1]);
                assert(r[j] == ps[j - 1]);
            }
        }
    }
}

proof fn lemma_lower_bound_props(ps: Seq<Participant>, id: u64)
    ensures
        0 <= lower_bound(ps, id) <= ps.len(),
        forall|j: int| 0 <= j < lower_bound(ps, id) ==> (#[trigger] ps[j]).id < id,
        lower_bound(ps, id) < ps.len() ==> ps[lower_bound(ps, id)].id >= id,
    decreases ps.len(),
{
    if ps.len() > 0 && ps[0].id < id {
        let t = ps.drop_first();
        lemma_lower_bound_props(t, id);
        assert forall|j: int| 0 <= j < lower_bound(ps, id) implies (#[trigger] ps[j]).id < id by {
            if j > 0 {
                assert(ps[j] == t[j - 1]);
            }
        }
    }
}

proof fn lemma_member_le_total(ps: Seq<Participant>, k: int)
    requires
        0 <= k < ps.len(),
    ensures
        ps[k].samples_contributed <= total_contributed(ps),
    decreases ps.len(),
{
    lemma_total_nonneg(ps.drop_last());
    if k < ps.len() - 1 {
        lemma_member_le_total(ps.drop_last(), k);
    }
}

/// Merging keeps a model well formed, and its sample count grows by exactly
/// the update's.
pub proof fn lemma_merged_wf(g: ModelView, u: UpdateView, rate: u64, batch: u64)
    requires
        g.wf(),
        g.num_samples + u.num_samples <= u64::MAX,
    ensures
        merged(g, u, rate, batch).wf(),
        merged(g, u, rate, batch).num_samples == g.num_samples + u.num_samples,
{
    let ps = g.participants;
    let id = u.submitter_id;
    lemma_lower_bound_props(ps, id);
    let k = lower_bound(ps, id);
    if k < ps.len() {
        lemma_member_le_total(ps, k);
    }
    lemma_credit(ps, id, u.num_samples, k);
}

/// Merging is a function of its inputs: equal inputs give equal models.
pub proof fn lemma_merge_deterministic(
    g1: ModelView,
    g2: ModelView,
    u1: UpdateView,
    u2: UpdateView,
    rate: u64,
    batch: u64,
)
    requires
        g1 == g2,
        u1 == u2,
    ensures
        merged(g1, u1, rate, batch) == merged(g2, u2, rate, batch),
{
}

/// The model after merging the updates `us` in order.
pub open spec fn merge_all(g: ModelView, us: Seq<UpdateView>, rate: u64, batch: u64) -> ModelView
    decreases us.len(),
{
    if us.len() == 0 {
        g
    } else {
        merged(merge_all(g, us.drop_last(), rate, batch), us.last(), rate, batch)
    }
}

/// Sum of the sample counts of the updates.
pub open spec fn samples_of(us: Seq<UpdateView>) -> int
    decreases us.len(),
{
    if us.len() == 0 {
        0
    } else {
        samples_of(us.drop_last()) + us.last().num_samples
    }
}

proof fn lemma_samples_of_nonneg(us: Seq<UpdateView>)
    ensures
        samples_of(us) >= 0,
    decreases us.len(),
{
    if us.len() > 0 {
        lemma_samples_of_nonneg(us.drop_last());
    }
}

/// Conservation of samples: after merging a run of updates, the model's
/// sample count is its starting count (zero for a fresh model) plus the sum of
/// the updates' counts, and it still equals what the participants contributed.
pub proof fn lemma_conservation(g: ModelView, us: Seq<UpdateView>, rate: u64, batch: u64)
    requires
        g.wf(),
        g.num_samples + samples_of(us) <= u64::MAX,
    ensures
        merge_all(g, us, rate, batch).num_samples == g.num_samples + samples_of(us),
        merge_all(g, us, rate, batch).wf(),
    decreases us.len(),
{
    if us.len() > 0 {
        let init = us.drop_last();
        lemma_samples_of_nonneg(init);
        lemma_conservation(g, init, rate, batch);
        lemma_merged_wf(merge_all(g, init, rate, batch), us.last(), rate, batch);
    }
}

fn step_exec(g: i64, u: i64, rate: u64, batch: u64) -> (r: i64)
    requires
        rate <= RATE_SCALE,
        batch > 0,
    ensures
        r == step(g, u, rate, batch),
{
    let den: u128 = RATE_SCALE as u128 * batch as u128;
    assert(den > 0) by (nonlinear_arith)
        requires den == RATE_SCALE * batch, batch >= 1;
    if u >= g {
        let diff: u128 = (u as i128 - g as i128) as u128;
        assert(diff * rate <= diff * RATE_SCALE) by (nonlinear_arith)
            requires rate <= RATE_SCALE;
        assert(diff * RATE_SCALE <= diff * den) by (nonlinear_arith)
            requires den == RATE_SCALE * batch, batch >= 1;
        let mv: u128 = diff * rate as u128 / den;
        assert(mv <= diff) by (nonlinear_arith)
            requires mv == (diff as int) * (rate as int) / (den as int), diff * rate <= diff * den, den > 0;
        (g as i128 + mv as i128) as i64
    } else {
        let diff: u128 = (g as i128 - u as i128) as u128;
        assert(diff * rate <= diff * RATE_SCALE) by (nonlinear_arith)
            requires rate <= RATE_SCALE;
        assert(diff * RATE_SCALE <= diff * den) by (nonlinear_arith)
            requires den == RATE_SCALE * batch, batch >= 1;
        let mv: u128 = diff * rate as u128 / den;
        assert(mv <= diff) by (nonlinear_arith)
            requires mv == (diff as int) * (rate as int) / (den as int), diff * rate <= diff * den, den > 0;
        (g as i128 - mv as i128) as i64
    }
}

/// Merges an accepted update into the global model: each weight moves from
/// its value toward the update's by `rate / (RATE_SCALE * batch)` of the gap,
/// the sample count grows by the update's, and the submitter's entry is
/// credited (created if new). Participation of every participant is its
/// contributed samples over the new total. A length mismatch leaves the model
/// untouched.
pub fn merge(global: &GlobalModel, update: &ValidatedUpdate, rate: u64, batch: u64) -> (r: Result<
    GlobalModel,
    MergeError,
>)
    requires
        global@.wf(),
        rate <= RATE_SCALE,
        batch > 0,
        global.num_samples + update@.num_samples <= u64::MAX,
    ensures
        update@.weights.len() != global@.weights.len() ==> r == Err::<GlobalModel, MergeError>(
            MergeError::SchemaMismatch,
        ),
        update@.weights.len() == global@.weights.len() ==> r is Ok && r->Ok_0@ == merged(
            global@,
            update@,
            rate,
            batch,
        ) && r->Ok_0@.wf(),
{
    let u = update.update();
    if u.weights.len() != global.weights.len() {
        return Err(MergeError::SchemaMismatch);
    }
    let mut weights: Vec<i64> = Vec::new();
    let mut i: usize = 0;
    while i < global.weights.len()
        invariant
            i <= global.weights.len(),
            u.weights.len() == global.weights.len(),
            rate <= RATE_SCALE,
            batch > 0,
            weights@ =~= merged_weights(global@.weights, u@.weights, rate, batch).subrange(0, i as int),
        decreases global.weights.len() - i,
    {
        let w = step_exec(global.weights[i], u.weights[i], rate, batch);
        weights.push(w);
        i = i + 1;
    }
    assert(weights@ =~= merged_weights(global@.weights, u@.weights, rate, batch));
    let ps = &global.participants;
    let id = u.submitter_id;
    let mut k: usize = 0;
    while k < ps.len() && ps[k].id < id
        invariant
            k <= ps.len(),
            forall|j: int| 0 <= j < k ==> (#[trigger] ps@[j]).id < id,
        decreases ps.len() - k,
    {
        k = k + 1;
    }
    proof {
        lemma_lower_bound(ps@, id, k as int);
    }
    let mut participants: Vec<Participant> = Vec::new();
    let mut j: usize = 0;
    while j < ps.len()
        invariant
            j <= ps.len(),
            participants@ =~= ps@.subrange(0, j as int),
        decreases ps.len() - j,
    {
        participants.push(ps[j]);
        j = j + 1;
    }
    if k < ps.len() && ps[k].id == id {
        let old_p = ps[k];
        proof {
            lemma_total_concat(ps@.subrange(0, k as int), ps@.subrange(k as int, ps@.len() as int));
            assert(ps@ =~= ps@.subrange(0, k as int) + ps@.subrange(k as int, ps@.len() as int));
            lemma_total_concat(seq![old_p], ps@.subrange(k as int + 1, ps@.len() as int));
            assert(ps@.subrange(k as int, ps@.len() as int) =~= seq![old_p] + ps@.subrange(k as int + 1, ps@.len() as int));
            lemma_total_single(old_p);
            lemma_total_nonneg(ps@.subrange(0, k as int));
            lemma_total_nonneg(ps@.subrange(k as int + 1, ps@.len() as int));
        }
        participants.set(k, Participant { samples_contributed: old_p.samples_contributed + u.num_samples, ..old_p });
    } else {
        participants.insert(k, Participant { id, samples_contributed: u.num_samples, rewards_issued: 0 });
    }
    proof {
        lemma_credit(ps@, id, u.num_samples, k as int);
        assert(participants@ =~= credit(ps@, id, u.num_samples));
    }
    let r = GlobalModel { weights, num_samples: global.num_samples + u.num_samples, participants };
    Ok(r)
}

} // verus!
