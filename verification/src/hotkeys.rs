//! Sharing a hotkey's epoch emission with its parent hotkeys.
use crate::fixed::{
    clamp, div_exact, fixed_max, floor_num, from_int, fx_checked_div, fx_from_u64,
    fx_saturating_add, fx_saturating_div, fx_saturating_mul, fx_saturating_sub, fx_to_u64,
    lemma_clamp_nonneg, lemma_mul_exact_by_int, lemma_mul_exact_nonneg, mul_exact, one_bits,
};
use crate::nominators::{
    alpha_weight, lemma_proportion, lemma_sum_prefix, lemma_take_proportion,
    lemma_take_proportion_exact, near_exact_share, sat_sub, take_proportion, within_exact_share,
};
use crate::pallet::{get_or, read_u16, Pallet};
use crate::shares::{
    amount_sum, contributions_nonneg, lemma_share_amount_bound, lemma_share_amount_lower, lemma_share_sums,
    lemma_weighted_share,
    pool, share_amount, sum_alpha, sum_global, weighted_share,
};
use crate::types::AccountId;
use vstd::prelude::*;

verus! {

/// A parent of a hotkey on a subnet, as the pallet's parent lookup gives it,
/// with the two stakes of the parent that the coinbase reads.
#[derive(Clone, Copy)]
pub struct ParentStake {
    /// The part of the child that the parent holds, out of `u64::MAX`.
    pub proportion: u64,
    /// The parent hotkey.
    pub parent: AccountId,
    /// The parent's global stake.
    pub global: u64,
    /// The parent's stake on the subnet (alpha).
    pub alpha: u64,
}

/// `a.saturating_add(b)` on `u64`.
pub open spec fn sat_add_u64(a: int, b: int) -> int {
    if a + b > u64::MAX {
        u64::MAX as int
    } else {
        a + b
    }
}

/// The part of the child a parent holds, as a fixed-point proportion.
pub open spec fn parent_proportion(p: ParentStake) -> int {
    clamp(div_exact(from_int(p.proportion as int), from_int(u64::MAX as int)))
}

/// What each parent contributes to the child's stakes: its alpha and its
/// global stake, each scaled by the part of the child it holds.
pub open spec fn parent_contributions(parents: Seq<ParentStake>) -> Seq<(int, int)> {
    Seq::new(
        parents.len(),
        |i: int|
            (
                clamp(mul_exact(from_int(parents[i].alpha as int), parent_proportion(parents[i]))),
                clamp(mul_exact(from_int(parents[i].global as int), parent_proportion(parents[i]))),
            ),
    )
}

/// The sum of the amounts of a list of hotkey emission tuples.
pub open spec fn hotkey_payout_sum(s: Seq<(AccountId, u16, u64)>) -> int
    decreases s.len(),
{
    if s.len() == 0 {
        0
    } else {
        hotkey_payout_sum(s.drop_last()) + s.last().2
    }
}

pub proof fn lemma_hotkey_payout_sum_concat(a: Seq<(AccountId, u16, u64)>, b: Seq<(AccountId, u16, u64)>)
    ensures
        hotkey_payout_sum(a + b) == hotkey_payout_sum(a) + hotkey_payout_sum(b),
    decreases b.len(),
{
    if b.len() == 0 {
        assert(a + b =~= a);
    } else {
        assert((a + b).drop_last() =~= a + b.drop_last());
        lemma_hotkey_payout_sum_concat(a, b.drop_last());
    }
}

/// The tuples paid to the first `n` parents, one per parent, in order.
pub open spec fn parent_payouts(
    netuid: u16,
    parents: Seq<ParentStake>,
    cs: Seq<(int, int)>,
    parent_emission: int,
    global_weight: int,
    ta: int,
    tg: int,
    n: nat,
) -> Seq<(AccountId, u16, u64)>
    decreases n,
{
    if n == 0 {
        Seq::empty()
    } else {
        parent_payouts(netuid, parents, cs, parent_emission, global_weight, ta, tg, (n - 1) as nat).push(
            (
                parents[n - 1].parent,
                netuid,
                share_amount(
                    cs[n - 1],
                    alpha_weight(global_weight),
                    parent_emission,
                    global_weight,
                    parent_emission,
                    ta,
                    tg,
                ) as u64,
            ),
        )
    }
}

/// The emission tuples that sourcing `validating_emission` and `mining_emission`
/// of `hotkey` on `netuid` produces: the hotkey keeps its take of the validating
/// emission; the rest of it goes to the parents by their alpha (weight
/// `1 - global_weight`) and global (weight `global_weight`) contributions; the
/// hotkey's own tuple, last, holds its take, what the parents did not get, and
/// the mining emission.
pub open spec fn hotkey_distribution(
    delegates: Map<AccountId, u16>,
    hotkey: AccountId,
    netuid: u16,
    validating_emission: u64,
    mining_emission: u64,
    parents: Seq<ParentStake>,
    global_weight: int,
) -> Seq<(AccountId, u16, u64)> {
    let v = from_int(validating_emission as int);
    let hotkey_take = clamp(mul_exact(take_proportion(get_or(delegates, hotkey, 0u16)), v));
    let parent_emission = clamp(v - hotkey_take);
    let cs = parent_contributions(parents);
    let paid = parent_payouts(
        netuid,
        parents,
        cs,
        parent_emission,
        global_weight,
        sum_alpha(cs),
        sum_global(cs),
        parents.len(),
    );
    let take_units = floor_num(hotkey_take);
    let remainder = sat_sub(sat_sub(validating_emission as int, hotkey_payout_sum(paid)), take_units);
    paid.push(
        (
            hotkey,
            netuid,
            sat_add_u64(sat_add_u64(take_units, remainder), mining_emission as int) as u64,
        ),
    )
}

/// The largest contribution of one parent: `u64::MAX` as fixed point.
pub open spec fn max_contribution() -> int {
    u64::MAX * one_bits()
}

pub proof fn lemma_parent_contributions_bounded(parents: Seq<ParentStake>)
    ensures
        contributions_nonneg(parent_contributions(parents)),
        forall|i: int|
            0 <= i < parents.len() ==> #[trigger] parent_contributions(parents)[i].0 <= max_contribution()
                && parent_contributions(parents)[i].1 <= max_contribution(),
{
    let cs = parent_contributions(parents);
    assert forall|i: int| 0 <= i < parents.len() implies 0 <= #[trigger] cs[i].0 <= max_contribution()
        && 0 <= cs[i].1 <= max_contribution() by {
        let p = parents[i];
        lemma_proportion(p.proportion as int, u64::MAX as int);
        let pp = parent_proportion(p);
        lemma_mul_exact_nonneg(from_int(p.alpha as int), pp);
        lemma_mul_exact_nonneg(from_int(p.global as int), pp);
        lemma_clamp_nonneg(mul_exact(from_int(p.alpha as int), pp));
        lemma_clamp_nonneg(mul_exact(from_int(p.global as int), pp));
    }
}

/// Sums of contributions each at most `b` are at most `b` times their number.
pub proof fn lemma_sum_bounded(cs: Seq<(int, int)>, b: int)
    requires
        forall|i: int| 0 <= i < cs.len() ==> #[trigger] cs[i].0 <= b && cs[i].1 <= b,
    ensures
        sum_alpha(cs) <= cs.len() * b,
        sum_global(cs) <= cs.len() * b,
    decreases cs.len(),
{
    if cs.len() > 0 {
        let prev = cs.drop_last();
        assert forall|i: int| 0 <= i < prev.len() implies #[trigger] prev[i].0 <= b && prev[i].1 <= b by {
            assert(prev[i] == cs[i]);
        }
        lemma_sum_bounded(prev, b);
        assert(cs.last() == cs[cs.len() - 1]);
        assert(prev.len() * b + b == cs.len() * b) by (nonlinear_arith)
            requires
                prev.len() + 1 == cs.len(),
        ;
    }
}

/// The amounts paid to the first `n` parents add up to the whole units of their shares.
pub proof fn lemma_parent_payouts_sum(
    netuid: u16,
    parents: Seq<ParentStake>,
    cs: Seq<(int, int)>,
    parent_emission: int,
    global_weight: int,
    ta: int,
    tg: int,
    n: nat,
)
    requires
        n <= cs.len(),
        n <= parents.len(),
        forall|i: int|
            0 <= i < n ==> 0 <= #[trigger] share_amount(
                cs[i],
                alpha_weight(global_weight),
                parent_emission,
                global_weight,
                parent_emission,
                ta,
                tg,
            ) <= u64::MAX,
    ensures
        hotkey_payout_sum(parent_payouts(netuid, parents, cs, parent_emission, global_weight, ta, tg, n))
            == amount_sum(
            cs.take(n as int),
            alpha_weight(global_weight),
            parent_emission,
            global_weight,
            parent_emission,
            ta,
            tg,
        ),
    decreases n,
{
    if n > 0 {
        lemma_parent_payouts_sum(netuid, parents, cs, parent_emission, global_weight, ta, tg, (n - 1) as nat);
        assert(cs.take(n as int).drop_last() =~= cs.take(n - 1));
        assert(cs.take(n as int).last() == cs[n - 1]);
        let prev = parent_payouts(netuid, parents, cs, parent_emission, global_weight, ta, tg, (n - 1) as nat);
        let amount = share_amount(cs[n - 1], alpha_weight(global_weight), parent_emission, global_weight, parent_emission, ta, tg);
        assert(prev.push((parents[n - 1].parent, netuid, amount as u64)).drop_last() =~= prev);
    } else {
        assert(cs.take(0) =~= Seq::<(int, int)>::empty());
    }
}

impl Pallet {
    /// Sources the emission of `hotkey` from an epoch on `netuid`: its
    /// `validating_emission` is shared between the hotkey's take and its
    /// `parents`, and the hotkey's own tuple adds its `mining_emission`. Appends
    /// one tuple `(parent, netuid, amount)` per parent, in order, then
    /// `(hotkey, netuid, amount)`, to `hotkey_emission_tuples`.
    ///
    /// The take comes from `Delegates`. `global_weight` is the fixed-point
    /// weight of global stake, between 0 and 1. The number of parents stays
    /// below 2^31, under which the sums of their contributions cannot saturate.
    ///
    /// The tuples appended carry at most `validating_emission + mining_emission`,
    /// and exactly that where it fits in a `u64`.
    pub fn source_hotkey_emission(
        &self,
        hotkey: &AccountId,
        netuid: u16,
        validating_emission: u64,
        mining_emission: u64,
        parents: &Vec<ParentStake>,
        global_weight: i128,
        hotkey_emission_tuples: &mut Vec<(AccountId, u16, u64)>,
    )
        requires
            0 <= global_weight <= one_bits(),
            parents.len() < 0x8000_0000,
        ensures
            final(hotkey_emission_tuples)@ == old(hotkey_emission_tuples)@ + hotkey_distribution(
                self.delegates@,
                *hotkey,
                netuid,
                validating_emission,
                mining_emission,
                parents@,
                global_weight as int,
            ),
            hotkey_payout_sum(final(hotkey_emission_tuples)@) <= hotkey_payout_sum(old(hotkey_emission_tuples)@)
                + validating_emission + mining_emission,
            validating_emission + mining_emission <= u64::MAX ==> hotkey_payout_sum(final(hotkey_emission_tuples)@)
                == hotkey_payout_sum(old(hotkey_emission_tuples)@) + validating_emission + mining_emission,
    {
        let ghost cs = parent_contributions(parents@);
        let ghost v = from_int(validating_emission as int);
        // The hotkey's take of the validating emission.
        let validating_fx: i128 = fx_from_u64(validating_emission);
        let take_proportion_fx: i128 = fx_saturating_div(
            fx_from_u64(read_u16(&self.delegates, hotkey) as u64),
            fx_from_u64(u16::MAX as u64),
        );
        let hotkey_take: i128 = fx_saturating_mul(take_proportion_fx, validating_fx);
        let mut to_parents: u64 = 0;
        let parent_emission: i128 = fx_saturating_sub(validating_fx, hotkey_take);
        proof {
            let tp = take_proportion(get_or(self.delegates@, *hotkey, 0u16));
            lemma_take_proportion(get_or(self.delegates@, *hotkey, 0u16));
            lemma_mul_exact_by_int(tp, validating_emission as int);
            assert(tp * validating_emission <= one_bits() * validating_emission) by (nonlinear_arith)
                requires
                    tp <= one_bits(),
                    0 <= validating_emission,
            ;
            assert(0 <= tp * validating_emission) by (nonlinear_arith)
                requires
                    0 <= tp,
                    0 <= validating_emission,
            ;
            assert(hotkey_take == tp * validating_emission);
            lemma_parent_contributions_bounded(parents@);
            lemma_sum_bounded(cs, max_contribution());
            assert(cs.len() * max_contribution() <= 0x7fff_ffff * max_contribution()) by (nonlinear_arith)
                requires
                    cs.len() <= 0x7fff_ffff,
                    max_contribution() >= 0,
            ;
            assert(0x7fff_ffff * max_contribution() <= fixed_max());
        }
        // The parents' contributions and their totals.
        let mut total_global: i128 = fx_from_u64(0);
        let mut total_alpha: i128 = fx_from_u64(0);
        let mut contributions: Vec<(AccountId, i128, i128)> = Vec::new();
        let mut i: usize = 0;
        while i < parents.len()
            invariant
                cs == parent_contributions(parents@),
                contributions_nonneg(cs),
                forall|j: int| 0 <= j < cs.len() ==> #[trigger] cs[j].0 <= max_contribution() && cs[j].1 <= max_contribution(),
                sum_alpha(cs) <= fixed_max(),
                sum_global(cs) <= fixed_max(),
                i <= parents@.len(),
                contributions@.len() == i,
                forall|j: int|
                    0 <= j < i ==> #[trigger] contributions@[j] == (parents@[j].parent, cs[j].0 as i128, cs[j].1 as i128),
                total_alpha == sum_alpha(cs.take(i as int)),
                total_global == sum_global(cs.take(i as int)),
            decreases parents@.len() - i,
        {
            let p: ParentStake = parents[i];
            let parent_proportion_fx: i128 = fx_saturating_div(fx_from_u64(p.proportion), fx_from_u64(u64::MAX));
            let parent_global: i128 = fx_from_u64(p.global);
            let parent_alpha: i128 = fx_from_u64(p.alpha);
            let parent_alpha_contribution: i128 = fx_saturating_mul(parent_alpha, parent_proportion_fx);
            let parent_global_contribution: i128 = fx_saturating_mul(parent_global, parent_proportion_fx);
            proof {
                assert(cs.take(i + 1).drop_last() =~= cs.take(i as int));
                assert(cs.take(i + 1).last() == cs[i as int]);
                lemma_sum_prefix(cs, i + 1);
            }
            total_global = fx_saturating_add(total_global, parent_global_contribution);
            total_alpha = fx_saturating_add(total_alpha, parent_alpha_contribution);
            contributions.push((p.parent, parent_alpha_contribution, parent_global_contribution));
            i = i + 1;
        }
        proof {
            assert(cs.take(cs.len() as int) =~= cs);
        }
        let ghost ta = total_alpha as int;
        let ghost tg = total_global as int;
        let ghost gw = global_weight as int;
        // The weights of alpha and global stake.
        let alpha_weight_fx: i128 = fx_saturating_sub(fx_from_u64(1), global_weight);
        let ghost aw = alpha_weight_fx as int;
        let ghost start = hotkey_emission_tuples@;
        proof {
            let pe = parent_emission as int;
            lemma_mul_exact_nonneg(aw, pe);
            lemma_mul_exact_nonneg(gw, pe);
            lemma_clamp_nonneg(mul_exact(aw, pe));
            lemma_clamp_nonneg(mul_exact(gw, pe));
            let pa = pool(aw, pe);
            let pg = pool(gw, pe);
            assert((pa + pg) * one_bits() <= (aw + gw) * pe) by (nonlinear_arith)
                requires
                    pa * one_bits() <= aw * pe,
                    pg * one_bits() <= gw * pe,
            ;
            assert((aw + gw) * pe == one_bits() * pe) by (nonlinear_arith)
                requires
                    aw + gw == one_bits(),
            ;
        }
        // Distribute to the parents by their contributions.
        let mut k: usize = 0;
        while k < contributions.len()
            invariant
                cs == parent_contributions(parents@),
                contributions_nonneg(cs),
                forall|j: int| 0 <= j < cs.len() ==> #[trigger] cs[j].0 <= max_contribution() && cs[j].1 <= max_contribution(),
                contributions@.len() == parents@.len() == cs.len(),
                forall|j: int|
                    0 <= j < cs.len() ==> #[trigger] contributions@[j] == (parents@[j].parent, cs[j].0 as i128, cs[j].1 as i128),
                ta == sum_alpha(cs),
                tg == sum_global(cs),
                ta == total_alpha,
                tg == total_global,
                aw == alpha_weight(gw),
                alpha_weight_fx == aw,
                gw == global_weight,
                0 <= gw <= one_bits(),
                aw + gw == one_bits(),
                0 <= parent_emission <= v,
                v == validating_emission * one_bits(),
                pool(aw, parent_emission as int) + pool(gw, parent_emission as int) <= parent_emission,
                k <= cs.len(),
                hotkey_emission_tuples@ == start + parent_payouts(netuid, parents@, cs, parent_emission as int, gw, ta, tg, k as nat),
                to_parents == amount_sum(cs.take(k as int), aw, parent_emission as int, gw, parent_emission as int, ta, tg),
                to_parents * one_bits() <= parent_emission,
                forall|j: int|
                    0 <= j < k ==> 0 <= #[trigger] share_amount(cs[j], aw, parent_emission as int, gw, parent_emission as int, ta, tg) <= u64::MAX,
            decreases cs.len() - k,
        {
            let (parent, alpha_contribution, global_contribution) = contributions[k];
            let alpha_emission: i128 = match fx_checked_div(
                fx_saturating_mul(fx_saturating_mul(alpha_weight_fx, parent_emission), alpha_contribution),
                total_alpha,
            ) {
                Some(x) => x,
                None => fx_from_u64(0),
            };
            let global_emission: i128 = match fx_checked_div(
                fx_saturating_mul(fx_saturating_mul(global_weight, parent_emission), global_contribution),
                total_global,
            ) {
                Some(x) => x,
                None => fx_from_u64(0),
            };
            proof {
                let pe = parent_emission as int;
                assert(cs.take(k + 1).drop_last() =~= cs.take(k as int));
                assert(cs.take(k + 1).last() == cs[k as int]);
                lemma_sum_prefix(cs, k + 1);
                lemma_sum_prefix(cs, k as int);
                assert(contributions_nonneg(cs.take(k + 1)));
                lemma_share_sums(cs.take(k + 1), aw, pe, gw, pe, ta, tg);
                lemma_weighted_share(aw, pe, cs[k as int].0, ta);
                lemma_weighted_share(gw, pe, cs[k as int].1, tg);
                assert(alpha_emission == weighted_share(aw, pe, cs[k as int].0, ta));
                assert(global_emission == weighted_share(gw, pe, cs[k as int].1, tg));
                let x = alpha_emission + global_emission;
                assert(0 <= x <= validating_emission * one_bits());
                vstd::arithmetic::div_mod::lemma_div_is_ordered(x, validating_emission * one_bits(), one_bits());
                vstd::arithmetic::div_mod::lemma_div_multiples_vanish(validating_emission as int, one_bits());
                vstd::arithmetic::div_mod::lemma_div_pos_is_pos(x, one_bits());
                let s = amount_sum(cs.take(k + 1), aw, pe, gw, pe, ta, tg);
                assert(s * one_bits() <= pe);
                assert(s <= validating_emission) by (nonlinear_arith)
                    requires
                        s * one_bits() <= pe,
                        pe <= validating_emission * one_bits(),
                ;
            }
            let total_emission: u64 = fx_to_u64(fx_saturating_add(alpha_emission, global_emission));
            hotkey_emission_tuples.push((parent, netuid, total_emission));
            to_parents = to_parents + total_emission;
            k = k + 1;
        }
        proof {
            let pe = parent_emission as int;
            lemma_parent_payouts_sum(netuid, parents@, cs, pe, gw, ta, tg, cs.len());
            assert(cs.take(cs.len() as int) =~= cs);
        }
        // The hotkey keeps its take, what the parents did not get, and its mining emission.
        let remainder: u64 = fx_to_u64(validating_fx).saturating_sub(to_parents).saturating_sub(
            fx_to_u64(hotkey_take),
        );
        let hotkey_take_u64: u64 = fx_to_u64(hotkey_take);
        let final_hotkey_emission: u64 = hotkey_take_u64.saturating_add(remainder).saturating_add(
            mining_emission,
        );
        hotkey_emission_tuples.push((*hotkey, netuid, final_hotkey_emission));
        proof {
            let pe = parent_emission as int;
            let paid = parent_payouts(netuid, parents@, cs, pe, gw, ta, tg, cs.len());
            assert(to_parents == hotkey_payout_sum(paid));
            vstd::arithmetic::div_mod::lemma_fundamental_div_mod(hotkey_take as int, one_bits());
            vstd::arithmetic::div_mod::lemma_mod_bound(hotkey_take as int, one_bits());
            assert(hotkey_take_u64 * one_bits() <= hotkey_take);
            assert(pe == v - hotkey_take);
            assert(to_parents + hotkey_take_u64 <= validating_emission) by (nonlinear_arith)
                requires
                    to_parents * one_bits() <= pe,
                    hotkey_take_u64 * one_bits() <= hotkey_take,
                    pe == v - hotkey_take,
                    v == validating_emission * one_bits(),
            ;
            let d = hotkey_distribution(
                self.delegates@,
                *hotkey,
                netuid,
                validating_emission,
                mining_emission,
                parents@,
                global_weight as int,
            );
            assert(d.drop_last() =~= paid);
            assert(d.last().2 == final_hotkey_emission);
            assert(hotkey_emission_tuples@ =~= old(hotkey_emission_tuples)@ + d);
            lemma_hotkey_payout_sum_concat(old(hotkey_emission_tuples)@, d);
        }
    }
}


/// The part of the child that a parent holds, as fixed-point bits:
/// `proportion * 2^32 / u64::MAX`, rounded down.
pub open spec fn held_part(p: ParentStake) -> int {
    (p.proportion * one_bits()) / (u64::MAX as int)
}

/// The parents' alpha, each weighted by the part of the child it holds.
pub open spec fn parents_alpha_total(parents: Seq<ParentStake>) -> int
    decreases parents.len(),
{
    if parents.len() == 0 {
        0
    } else {
        parents_alpha_total(parents.drop_last()) + parents.last().alpha * held_part(parents.last())
    }
}

/// The parents' global stake, each weighted by the part of the child it holds.
pub open spec fn parents_global_total(parents: Seq<ParentStake>) -> int
    decreases parents.len(),
{
    if parents.len() == 0 {
        0
    } else {
        parents_global_total(parents.drop_last()) + parents.last().global * held_part(parents.last())
    }
}

/// A parent contributes its alpha and its global stake, each times the part it
/// holds, and the totals of the contributions are the parents' totals.
pub proof fn lemma_parent_totals(parents: Seq<ParentStake>)
    ensures
        forall|i: int|
            0 <= i < parents.len() ==> #[trigger] parent_contributions(parents)[i] == (
                parents[i].alpha * held_part(parents[i]),
                parents[i].global * held_part(parents[i]),
            ),
        sum_alpha(parent_contributions(parents)) == parents_alpha_total(parents),
        sum_global(parent_contributions(parents)) == parents_global_total(parents),
    decreases parents.len(),
{
    let o = one_bits();
    let cs = parent_contributions(parents);
    assert forall|i: int| 0 <= i < parents.len() implies #[trigger] cs[i] == (
        parents[i].alpha * held_part(parents[i]),
        parents[i].global * held_part(parents[i]),
    ) by {
        let p = parents[i];
        let n = from_int(p.proportion as int);
        let m = from_int(u64::MAX as int);
        crate::fixed::lemma_div_exact_nonneg(n, m);
        assert(n * o == (p.proportion * o) * o);
        assert(m == (u64::MAX as int) * o);
        crate::fixed::lemma_div_cancel(p.proportion * o, u64::MAX as int, o);
        lemma_proportion(p.proportion as int, u64::MAX as int);
        let h = held_part(p);
        assert(parent_proportion(p) == h);
        assert((p.alpha * o) * h == (p.alpha * h) * o) by (nonlinear_arith);
        assert(from_int(p.alpha as int) == p.alpha * o);
        assert((p.global * o) * h == (p.global * h) * o) by (nonlinear_arith);
        assert(from_int(p.global as int) == p.global * o);
        vstd::arithmetic::div_mod::lemma_div_multiples_vanish(p.alpha * h, o);
        vstd::arithmetic::div_mod::lemma_div_multiples_vanish(p.global * h, o);
        assert(0 <= p.alpha * h <= u64::MAX * o) by (nonlinear_arith)
            requires
                0 <= h <= o,
                0 <= p.alpha <= u64::MAX,
        ;
        assert(0 <= p.global * h <= u64::MAX * o) by (nonlinear_arith)
            requires
                0 <= h <= o,
                0 <= p.global <= u64::MAX,
        ;
    }
    if parents.len() > 0 {
        let prev = parents.drop_last();
        lemma_parent_totals(prev);
        assert(cs.drop_last() =~= parent_contributions(prev));
        assert(cs.last() == cs[cs.len() - 1]);
        assert(parents.last() == parents[parents.len() - 1]);
    }
}

/// The tuple paid to each of the first `n` parents is its share amount, in order.
pub proof fn lemma_parent_payouts_index(
    netuid: u16,
    parents: Seq<ParentStake>,
    cs: Seq<(int, int)>,
    parent_emission: int,
    global_weight: int,
    ta: int,
    tg: int,
    n: nat,
)
    requires
        n <= parents.len(),
        n <= cs.len(),
    ensures
        parent_payouts(netuid, parents, cs, parent_emission, global_weight, ta, tg, n).len() == n,
        forall|i: int|
            0 <= i < n ==> #[trigger] parent_payouts(netuid, parents, cs, parent_emission, global_weight, ta, tg, n)[i]
                == (
                parents[i].parent,
                netuid,
                share_amount(
                    cs[i],
                    alpha_weight(global_weight),
                    parent_emission,
                    global_weight,
                    parent_emission,
                    ta,
                    tg,
                ) as u64,
            ),
    decreases n,
{
    if n > 0 {
        lemma_parent_payouts_index(netuid, parents, cs, parent_emission, global_weight, ta, tg, (n - 1) as nat);
    }
}

/// Each parent is paid at most its exact share of the validating emission left
/// after the hotkey's take: `(1 - global_weight)` of it shared by each
/// parent's alpha, `global_weight` of it by each parent's global stake, each
/// stake weighted by the part of the child the parent holds. Each parent gets
/// one tuple, in order, and the hotkey's own tuple comes last.
pub proof fn lemma_parent_payouts_within_exact_shares(
    delegates: Map<AccountId, u16>,
    hotkey: AccountId,
    netuid: u16,
    validating_emission: u64,
    mining_emission: u64,
    parents: Seq<ParentStake>,
    global_weight: int,
)
    requires
        0 <= global_weight <= one_bits(),
        parents.len() < 0x8000_0000,
    ensures
        ({
            let d = hotkey_distribution(
                delegates,
                hotkey,
                netuid,
                validating_emission,
                mining_emission,
                parents,
                global_weight,
            );
            let tp = (get_or(delegates, hotkey, 0u16) * one_bits()) / 65535;
            let left = validating_emission * one_bits() - tp * validating_emission;
            &&& d.len() == parents.len() + 1
            &&& d.last().0 == hotkey
            &&& d.last().1 == netuid
            &&& forall|i: int|
                0 <= i < parents.len() ==> #[trigger] d[i].0 == parents[i].parent && d[i].1 == netuid
                    && within_exact_share(
                    d[i].2 as int,
                    left,
                    one_bits() - global_weight,
                    global_weight,
                    parents[i].alpha * held_part(parents[i]),
                    parents[i].global * held_part(parents[i]),
                    parents_alpha_total(parents),
                    parents_global_total(parents),
                )
        }),
{
    let o = one_bits();
    let ve = validating_emission as int;
    let take = get_or(delegates, hotkey, 0u16);
    let tp = (take * o) / 65535;
    lemma_take_proportion_exact(take);
    lemma_take_proportion(take);
    let v = from_int(ve);
    lemma_mul_exact_by_int(tp, ve);
    assert(0 <= tp * ve <= o * ve) by (nonlinear_arith)
        requires
            0 <= tp <= o,
            0 <= ve,
    ;
    let ht = clamp(mul_exact(take_proportion(take), v));
    assert(ht == tp * ve);
    let left = ve * o - tp * ve;
    assert(clamp(v - ht) == left);
    let gw = global_weight;
    let aw = alpha_weight(gw);
    assert(aw == o - gw);
    let cs = parent_contributions(parents);
    lemma_parent_totals(parents);
    lemma_parent_contributions_bounded(parents);
    let ta = sum_alpha(cs);
    let tg = sum_global(cs);
    crate::nominators::lemma_sum_nonneg(cs);
    lemma_mul_exact_nonneg(aw, left);
    lemma_mul_exact_nonneg(gw, left);
    lemma_clamp_nonneg(mul_exact(aw, left));
    lemma_clamp_nonneg(mul_exact(gw, left));
    let pa = pool(aw, left);
    let pg = pool(gw, left);
    assert((pa + pg) * o <= left * o) by (nonlinear_arith)
        requires
            pa * o <= aw * left,
            pg * o <= gw * left,
            aw + gw == o,
    ;
    let n = parents.len();
    lemma_parent_payouts_index(netuid, parents, cs, left, gw, ta, tg, n);
    let d = hotkey_distribution(delegates, hotkey, netuid, validating_emission, mining_emission, parents, gw);
    let paid = parent_payouts(netuid, parents, cs, left, gw, ta, tg, n);
    assert(d.drop_last() =~= paid);
    assert forall|i: int| 0 <= i < parents.len() implies #[trigger] d[i].0 == parents[i].parent && d[i].1 == netuid
        && within_exact_share(
        d[i].2 as int,
        left,
        o - gw,
        gw,
        parents[i].alpha * held_part(parents[i]),
        parents[i].global * held_part(parents[i]),
        parents_alpha_total(parents),
        parents_global_total(parents),
    ) by {
        assert(d[i] == paid[i]);
        let c = cs[i];
        lemma_sum_prefix(cs, i + 1);
        lemma_sum_prefix(cs, i);
        assert(cs.take(i + 1).drop_last() =~= cs.take(i));
        assert(cs.take(i + 1).last() == cs[i]);
        lemma_share_amount_bound(c, aw, left, gw, left, ta, tg);
        lemma_weighted_share(aw, left, c.0, ta);
        lemma_weighted_share(gw, left, c.1, tg);
        let a = share_amount(c, aw, left, gw, left, ta, tg);
        let x = clamp(weighted_share(aw, left, c.0, ta) + weighted_share(gw, left, c.1, tg));
        lemma_clamp_nonneg(weighted_share(aw, left, c.0, ta) + weighted_share(gw, left, c.1, tg));
        vstd::arithmetic::div_mod::lemma_fundamental_div_mod(x, o);
        vstd::arithmetic::div_mod::lemma_mod_bound(x, o);
        assert(a * o <= left);
        assert(left <= ve * o);
        assert(a * o <= ve * o);
        vstd::arithmetic::mul::lemma_mul_inequality_converse(a, ve, o);
        assert(d[i].2 == a);
        assert(aw * left * c.0 * tg == left * aw * c.0 * tg) by (nonlinear_arith);
        assert(gw * left * c.1 * ta == left * gw * c.1 * ta) by (nonlinear_arith);
        assert(aw * left * c.0 == left * aw * c.0) by (nonlinear_arith);
        assert(gw * left * c.1 == left * gw * c.1) by (nonlinear_arith);
    }
}

/// Where the fixed-point products stay in range, no parent is paid four units
/// less than its exact share of the validating emission left after the
/// hotkey's take (as in `lemma_parent_payouts_within_exact_shares`).
pub proof fn lemma_parent_payouts_near_exact_shares(
    delegates: Map<AccountId, u16>,
    hotkey: AccountId,
    netuid: u16,
    validating_emission: u64,
    mining_emission: u64,
    parents: Seq<ParentStake>,
    global_weight: int,
)
    requires
        0 <= global_weight <= one_bits(),
        parents.len() < 0x8000_0000,
    ensures
        ({
            let d = hotkey_distribution(
                delegates,
                hotkey,
                netuid,
                validating_emission,
                mining_emission,
                parents,
                global_weight,
            );
            let tp = (get_or(delegates, hotkey, 0u16) * one_bits()) / 65535;
            let left = validating_emission * one_bits() - tp * validating_emission;
            validating_emission * parents_alpha_total(parents) <= fixed_max()
                && validating_emission * parents_global_total(parents) <= fixed_max() ==> forall|i: int|
                #![trigger d[i]]
                0 <= i < parents.len() ==> near_exact_share(
                    d[i].2 as int,
                    left,
                    one_bits() - global_weight,
                    global_weight,
                    parents[i].alpha * held_part(parents[i]),
                    parents[i].global * held_part(parents[i]),
                    parents_alpha_total(parents),
                    parents_global_total(parents),
                )
        }),
{
    let o = one_bits();
    let ve = validating_emission as int;
    let take = get_or(delegates, hotkey, 0u16);
    let tp = (take * o) / 65535;
    lemma_take_proportion_exact(take);
    lemma_take_proportion(take);
    let v = from_int(ve);
    lemma_mul_exact_by_int(tp, ve);
    assert(0 <= tp * ve <= o * ve) by (nonlinear_arith)
        requires
            0 <= tp <= o,
            0 <= ve,
    ;
    let ht = clamp(mul_exact(take_proportion(take), v));
    assert(ht == tp * ve);
    let left = ve * o - tp * ve;
    assert(clamp(v - ht) == left);
    let gw = global_weight;
    let aw = alpha_weight(gw);
    assert(aw == o - gw);
    let cs = parent_contributions(parents);
    lemma_parent_totals(parents);
    lemma_parent_contributions_bounded(parents);
    let ta = sum_alpha(cs);
    let tg = sum_global(cs);
    crate::nominators::lemma_sum_nonneg(cs);
    lemma_mul_exact_nonneg(aw, left);
    lemma_mul_exact_nonneg(gw, left);
    lemma_clamp_nonneg(mul_exact(aw, left));
    lemma_clamp_nonneg(mul_exact(gw, left));
    let pa = pool(aw, left);
    let pg = pool(gw, left);
    assert((pa + pg) * o <= left * o) by (nonlinear_arith)
        requires
            pa * o <= aw * left,
            pg * o <= gw * left,
            aw + gw == o,
    ;
    let n = parents.len();
    lemma_parent_payouts_index(netuid, parents, cs, left, gw, ta, tg, n);
    let d = hotkey_distribution(delegates, hotkey, netuid, validating_emission, mining_emission, parents, gw);
    let paid = parent_payouts(netuid, parents, cs, left, gw, ta, tg, n);
    assert(d.drop_last() =~= paid);
    if ve * ta <= fixed_max() && ve * tg <= fixed_max() {
        assert(aw * left + gw * left <= fixed_max() * o) by (nonlinear_arith)
            requires
                aw + gw == o,
                0 <= left <= ve * o,
                0 <= ve <= u64::MAX,
                o == 0x1_0000_0000,
                fixed_max() == 0x7fff_ffff_ffff_ffff_ffff_ffff_ffff_ffff,
        ;
        assert(aw * left * ta <= fixed_max() * o * o) by (nonlinear_arith)
            requires
                0 <= aw <= o,
                0 <= left <= ve * o,
                0 <= ta,
                ve * ta <= fixed_max(),
                o > 0,
        ;
        assert(gw * left * tg <= fixed_max() * o * o) by (nonlinear_arith)
            requires
                0 <= gw <= o,
                0 <= left <= ve * o,
                0 <= tg,
                ve * tg <= fixed_max(),
                o > 0,
        ;
        assert forall|i: int| #![trigger d[i]] 0 <= i < parents.len() implies near_exact_share(
            d[i].2 as int,
            left,
            o - gw,
            gw,
            parents[i].alpha * held_part(parents[i]),
            parents[i].global * held_part(parents[i]),
            parents_alpha_total(parents),
            parents_global_total(parents),
        ) by {
            assert(d[i] == paid[i]);
            let c = cs[i];
            lemma_sum_prefix(cs, i + 1);
            lemma_sum_prefix(cs, i);
            assert(cs.take(i + 1).drop_last() =~= cs.take(i));
            assert(cs.take(i + 1).last() == cs[i]);
            lemma_share_amount_bound(c, aw, left, gw, left, ta, tg);
            lemma_share_amount_lower(c, aw, left, gw, left, ta, tg);
            lemma_weighted_share(aw, left, c.0, ta);
            lemma_weighted_share(gw, left, c.1, tg);
            let a = share_amount(c, aw, left, gw, left, ta, tg);
            let x = clamp(weighted_share(aw, left, c.0, ta) + weighted_share(gw, left, c.1, tg));
            lemma_clamp_nonneg(weighted_share(aw, left, c.0, ta) + weighted_share(gw, left, c.1, tg));
            vstd::arithmetic::div_mod::lemma_fundamental_div_mod(x, o);
            vstd::arithmetic::div_mod::lemma_mod_bound(x, o);
            assert(a * o <= ve * o);
            vstd::arithmetic::mul::lemma_mul_inequality_converse(a, ve, o);
            assert(d[i].2 == a);
            assert(aw * left * c.0 * tg == left * aw * c.0 * tg) by (nonlinear_arith);
            assert(gw * left * c.1 * ta == left * gw * c.1 * ta) by (nonlinear_arith);
            assert(aw * left * c.0 == left * aw * c.0) by (nonlinear_arith);
            assert(gw * left * c.1 == left * gw * c.1) by (nonlinear_arith);
        }
    }
}

} // verus!
