use vstd::prelude::*;
use crate::model::{Participant, lemma_total_nonneg, total_contributed};

verus! {

/// Reward units for one participant in one allocation round.
#[derive(Clone, Copy, Debug, PartialEq, Eq, Structural)]
pub struct RewardAllocation {
    pub participant_id: u64,
    pub amount: u64,
}

/// `t * s / total` rounded to the nearest integer, halves rounded up (away
/// from zero: every quantity here is non-negative).
pub open spec fn rounded_share(t: u64, s: u64, total: int) -> int {
    let p = t * s;
    p / total + if 2 * (p % total) >= total { 1int } else { 0int }
}

/// The allocations of the first `n` participants, each share clamped to what
/// is left of the budget, together with what is left after them.
pub open spec fn alloc_upto(ps: Seq<Participant>, t: u64, total: int, n: int) -> (Seq<
    RewardAllocation,
>, int)
    decreases n,
{
    if n <= 0 {
        (Seq::empty(), t as int)
    } else {
        let (out, rem) = alloc_upto(ps, t, total, n - 1);
        let share = rounded_share(t, ps[n - 1].samples_contributed, total);
        let a = if share <= rem { share } else { rem };
        (out.push(RewardAllocation { participant_id: ps[n - 1].id, amount: a as u64 }), rem - a)
    }
}

/// The allocation of `t` reward units over the participants: empty when no
/// participation was recorded, else one entry per participant in their order.
pub open spec fn allocation(ps: Seq<Participant>, t: u64) -> Seq<RewardAllocation> {
    let total = total_contributed(ps);
    if total == 0 {
        Seq::empty()
    } else {
        alloc_upto(ps, t, total, ps.len() as int).0
    }
}

/// Sum of the allocated amounts.
pub open spec fn sum_amounts(a: Seq<RewardAllocation>) -> int
    decreases a.len(),
{
    if a.len() == 0 {
        0
    } else {
        sum_amounts(a.drop_last()) + a.last().amount
    }
}

proof fn lemma_alloc_upto(ps: Seq<Participant>, t: u64, total: int, n: int)
    requires
        0 <= n <= ps.len(),
        total > 0,
    ensures
        alloc_upto(ps, t, total, n).0.len() == n,
        0 <= alloc_upto(ps, t, total, n).1 <= t,
        sum_amounts(alloc_upto(ps, t, total, n).0) + alloc_upto(ps, t, total, n).1 == t,
        forall|i: int| 0 <= i < n ==> (#[trigger] alloc_upto(ps, t, total, n).0[i]).participant_id
            == ps[i].id,
    decreases n,
{
    if n > 0 {
        lemma_alloc_upto(ps, t, total, n - 1);
        let (out, rem) = alloc_upto(ps, t, total, n - 1);
        let share = rounded_share(t, ps[n - 1].samples_contributed, total);
        let p = t * ps[n - 1].samples_contributed;
        assert(p >= 0) by (nonlinear_arith)
            requires p == t * ps[n - 1].samples_contributed;
        assert(share >= 0) by (nonlinear_arith)
            requires share == p / total + if 2 * (p % total) >= total { 1int } else { 0int }, p >= 0, total > 0;
        let r = alloc_upto(ps, t, total, n).0;
        assert(r.drop_last() =~= out);
        assert forall|i: int| 0 <= i < n implies (#[trigger] r[i]).participant_id == ps[i].id by {
            if i < n - 1 {
                assert(r[i] == out[i]);
            }
        }
    }
}

/// Budget bound: an allocation of `t` units never hands out more than `t`.
pub proof fn lemma_allocation_within_budget(ps: Seq<Participant>, t: u64)
    ensures
        sum_amounts(allocation(ps, t)) <= t,
{
    let total = total_contributed(ps);
    if total != 0 {
        lemma_total_nonneg(ps);
        lemma_alloc_upto(ps, t, total, ps.len() as int);
    }
}

/// The allocation has one entry per participant, in the participants' order.
pub proof fn lemma_allocation_order(ps: Seq<Participant>, t: u64)
    requires
        total_contributed(ps) != 0,
    ensures
        allocation(ps, t).len() == ps.len(),
        forall|i: int| 0 <= i < ps.len() ==> (#[trigger] allocation(ps, t)[i]).participant_id == ps[i].id,
{
    lemma_total_nonneg(ps);
    lemma_alloc_upto(ps, t, total_contributed(ps), ps.len() as int);
}

/// Zero participation: with no participants, or none that contributed, the
/// allocation is empty.
pub proof fn lemma_zero_participation(ps: Seq<Participant>, t: u64)
    requires
        forall|i: int| 0 <= i < ps.len() ==> (#[trigger] ps[i]).samples_contributed == 0,
    ensures
        allocation(ps, t).len() == 0,
    decreases ps.len(),
{
    if ps.len() > 0 {
        lemma_zero_participation(ps.drop_last(), t);
    }
}

/// Sum of the rounded shares of the first `n` participants, before clamping.
pub open spec fn shares_upto(ps: Seq<Participant>, t: u64, total: int, n: int) -> int
    decreases n,
{
    if n <= 0 {
        0
    } else {
        shares_upto(ps, t, total, n - 1) + rounded_share(t, ps[n - 1].samples_contributed, total)
    }
}

/// What clamping withheld: the rounded shares' excess over the budget `t`
/// (zero when no participation was recorded).
pub open spec fn shortfall(ps: Seq<Participant>, t: u64) -> int {
    let total = total_contributed(ps);
    if total == 0 {
        0
    } else {
        let s = shares_upto(ps, t, total, ps.len() as int);
        if s > t { s - t } else { 0 }
    }
}

proof fn lemma_share_bounds(t: u64, s: u64, total: int)
    requires
        total > 0,
        s <= total,
    ensures
        0 <= rounded_share(t, s, total) <= t + 1,
{
    let p = t * s;
    assert(0 <= p <= t * total) by (nonlinear_arith)
        requires p == t * s, 0 <= s <= total, t >= 0;
    assert(p / total <= t) by (nonlinear_arith)
        requires 0 <= p <= t * total, total > 0;
    assert(p / total >= 0) by (nonlinear_arith)
        requires p >= 0, total > 0;
}

proof fn lemma_remaining(ps: Seq<Participant>, t: u64, total: int, n: int)
    requires
        0 <= n <= ps.len(),
        total > 0,
        total == total_contributed(ps),
    ensures
        alloc_upto(ps, t, total, n).1 == if shares_upto(ps, t, total, n) >= t { 0 } else { t - shares_upto(
            ps,
            t,
            total,
            n,
        ) },
        shares_upto(ps, t, total, n) >= 0,
    decreases n,
{
    if n > 0 {
        lemma_remaining(ps, t, total, n - 1);
        lemma_member_le_total(ps, n - 1);
        lemma_share_bounds(t, ps[n - 1].samples_contributed, total);
    }
}

proof fn lemma_member_le_total(ps: Seq<Participant>, k: int)
    requires
        0 <= k < ps.len(),
    ensures
        ps[k].samples_contributed <= total_contributed(ps),
    decreases ps.len(),
{
    lemma_total_nonneg(ps.drop_last());
    if k < ps.len() - 1 {
        lemma_member_le_total(ps.drop_last(), k);
    }
}

/// Clamping withholds exactly the shortfall: the allocated amounts and the
/// shortfall together make up the sum of the rounded shares, so the amounts
/// sum to the smaller of that sum and the budget.
pub proof fn lemma_allocation_sum(ps: Seq<Participant>, t: u64)
    requires
        total_contributed(ps) != 0,
    ensures
        sum_amounts(allocation(ps, t)) + shortfall(ps, t) == shares_upto(
            ps,
            t,
            total_contributed(ps),
            ps.len() as int,
        ),
{
    let total = total_contributed(ps);
    lemma_total_nonneg(ps);
    lemma_alloc_upto(ps, t, total, ps.len() as int);
    lemma_remaining(ps, t, total, ps.len() as int);
}

/// The reward units that clamping to the budget withheld from `allocate`'s
/// result for the same arguments; non-zero calls for a warning.
pub fn allocation_shortfall(participants: &Vec<Participant>, t: u64) -> (r: u128)
    ensures
        r == shortfall(participants@, t),
{
    let ps = participants;
    let mut total: u128 = 0;
    let mut i: usize = 0;
    while i < ps.len()
        invariant
            i <= ps.len(),
            total == total_contributed(ps@.subrange(0, i as int)),
            total <= i * (u64::MAX as int),
        decreases ps.len() - i,
    {
        assert(ps@.subrange(0, i as int + 1).drop_last() =~= ps@.subrange(0, i as int));
        assert((i + 1) * (u64::MAX as int) <= 0x1_0000_0000_0000_0000 * (u64::MAX as int)) by (nonlinear_arith)
            requires i < 0x1_0000_0000_0000_0000int;
        assert(i * (u64::MAX as int) + u64::MAX == (i + 1) * (u64::MAX as int)) by (nonlinear_arith);
        total = total + ps[i].samples_contributed as u128;
        i = i + 1;
    }
    assert(ps@.subrange(0, ps.len() as int) =~= ps@);
    if total == 0 {
        return 0;
    }
    let ghost tot = total as int;
    let mut sum: u128 = 0;
    let mut j: usize = 0;
    while j < ps.len()
        invariant
            j <= ps.len(),
            total > 0,
            tot == total,
            tot == total_contributed(ps@),
            sum == shares_upto(ps@, t, tot, j as int),
            sum <= j * (t as int + 1),
        decreases ps.len() - j,
    {
        let s = ps[j].samples_contributed;
        proof {
            lemma_member_le_total(ps@, j as int);
            lemma_share_bounds(t, s, tot);
        }
        assert(t * s <= (u64::MAX as int) * (u64::MAX as int)) by (nonlinear_arith)
            requires t <= u64::MAX, s <= u64::MAX, t >= 0, s >= 0;
        let p: u128 = t as u128 * s as u128;
        let q: u128 = p / total;
        let m: u128 = p % total;
        assert(q <= p) by (nonlinear_arith)
            requires q == p / total, total >= 1, p >= 0;
        let share: u128 = if m >= total - m { q + 1 } else { q };
        assert(share == rounded_share(t, s, tot));
        assert((j + 1) * (t as int + 1) <= 0xffff_ffff_ffff_ffff * 0x1_0000_0000_0000_0000) by (nonlinear_arith)
            requires j + 1 <= 0xffff_ffff_ffff_ffffint, t < 0x1_0000_0000_0000_0000int, t >= 0, j >= 0;
        assert(j * (t as int + 1) + t + 1 == (j + 1) * (t as int + 1)) by (nonlinear_arith);
        sum = sum + share;
        j = j + 1;
    }
    if sum > t as u128 {
        sum - t as u128
    } else {
        0
    }
}

/// Allocates `t` reward units in proportion to contributed samples: each
/// participant's share is `t * contributed / total` rounded half up, then
/// clamped in order to what is left of the budget, so the amounts never sum
/// past `t`. The result follows the participants' order (ascending id for a
/// model's participant map); it is empty when the total is zero.
pub fn allocate(participants: &Vec<Participant>, t: u64) -> (r: Vec<RewardAllocation>)
    ensures
        r@ == allocation(participants@, t),
{
    let ps = participants;
    let mut total: u128 = 0;
    let mut i: usize = 0;
    while i < ps.len()
        invariant
            i <= ps.len(),
            total == total_contributed(ps@.subrange(0, i as int)),
            total <= i * (u64::MAX as int),
        decreases ps.len() - i,
    {
        assert(ps@.subrange(0, i as int + 1).drop_last() =~= ps@.subrange(0, i as int));
        assert((i + 1) * (u64::MAX as int) <= 0x1_0000_0000_0000_0000 * (u64::MAX as int)) by (nonlinear_arith)
            requires i < 0x1_0000_0000_0000_0000int;
        assert(i * (u64::MAX as int) + u64::MAX == (i + 1) * (u64::MAX as int)) by (nonlinear_arith);
        total = total + ps[i].samples_contributed as u128;
        i = i + 1;
    }
    assert(ps@.subrange(0, ps.len() as int) =~= ps@);
    let mut out: Vec<RewardAllocation> = Vec::new();
    if total == 0 {
        return out;
    }
    let ghost tot = total as int;
    let mut rem: u64 = t;
    let mut j: usize = 0;
    while j < ps.len()
        invariant
            j <= ps.len(),
            total > 0,
            tot == total,
            tot == total_contributed(ps@),
            (out@, rem as int) == alloc_upto(ps@, t, tot, j as int),
        decreases ps.len() - j,
    {
        let s = ps[j].samples_contributed;
        assert(t * s <= (u64::MAX as int) * (u64::MAX as int)) by (nonlinear_arith)
            requires t <= u64::MAX, s <= u64::MAX, t >= 0, s >= 0;
        let p: u128 = t as u128 * s as u128;
        let q: u128 = p / total;
        let m: u128 = p % total;
        assert(q <= p) by (nonlinear_arith)
            requires q == p / total, total >= 1, p >= 0;
        let share: u128 = if m >= total - m { q + 1 } else { q };
        let a: u64 = if share <= rem as u128 { share as u64 } else { rem };
        out.push(RewardAllocation { participant_id: ps[j].id, amount: a });
        rem = rem - a;
        j = j + 1;
    }
    out
}

} // verus!
