//! Draining a hotkey's emission through to its nominators.
use crate::fixed::{
    clamp, floor_num, from_int, fx_add_assign, fx_checked_div, fx_from_u64, fx_saturating_add,
    fx_saturating_div, fx_saturating_mul, fx_saturating_sub, fx_to_u64, lemma_clamp_nonneg,
    lemma_mul_exact_by_int, lemma_mul_exact_nonneg, mul_exact, one_bits, fixed_max, div_exact,
};
use crate::pallet::{get_or, read_u16, read_u64, Pallet};
use crate::shares::{
    amount_sum, contributions_nonneg, lemma_share_amount_bound, lemma_share_amount_lower, lemma_share_sums, lemma_weighted_share, pool, share_amount,
    sum_alpha, sum_global, weighted_share,
};
use crate::types::AccountId;
use vstd::prelude::*;

verus! {

/// `a.saturating_sub(b)` on unsigned integers.
pub open spec fn sat_sub(a: int, b: int) -> int {
    if a >= b {
        a - b
    } else {
        0
    }
}

/// A hotkey's take as a fixed-point proportion: `take / u16::MAX`.
pub open spec fn take_proportion(take: u16) -> int {
    clamp(div_exact(from_int(take as int), from_int(u16::MAX as int)))
}

/// The proportion of the emission that goes by alpha stake: `1 - global_weight`.
pub open spec fn alpha_weight(global_weight: int) -> int {
    clamp(one_bits() - global_weight)
}

/// A proportion `n / d` of two whole numbers with `n <= d` lies between 0 and 1.
pub proof fn lemma_proportion(n: int, d: int)
    requires
        0 <= n <= d,
        0 < d,
    ensures
        0 <= clamp(div_exact(from_int(n), from_int(d))) <= one_bits(),
{
    let dd = from_int(d);
    let nn = from_int(n);
    crate::fixed::lemma_div_exact_nonneg(nn, dd);
    assert(nn * one_bits() <= dd * one_bits()) by (nonlinear_arith)
        requires
            nn <= dd,
    ;
    vstd::arithmetic::div_mod::lemma_div_is_ordered(nn * one_bits(), dd * one_bits(), dd);
    vstd::arithmetic::div_mod::lemma_div_multiples_vanish(one_bits(), dd);
    assert(dd * one_bits() == one_bits() * dd) by (nonlinear_arith);
}

/// The take never exceeds the whole: `0 <= take_proportion <= 1`.
pub proof fn lemma_take_proportion(take: u16)
    ensures
        0 <= take_proportion(take) <= one_bits(),
{
    lemma_proportion(take as int, u16::MAX as int);
}

/// The sum of the amounts of a list of emission tuples.
pub open spec fn payout_sum(s: Seq<(AccountId, AccountId, u16, u64)>) -> int
    decreases s.len(),
{
    if s.len() == 0 {
        0
    } else {
        payout_sum(s.drop_last()) + s.last().3
    }
}

pub proof fn lemma_payout_sum_concat(a: Seq<(AccountId, AccountId, u16, u64)>, b: Seq<(AccountId, AccountId, u16, u64)>)
    ensures
        payout_sum(a + b) == payout_sum(a) + payout_sum(b),
    decreases b.len(),
{
    if b.len() == 0 {
        assert(a + b =~= a);
    } else {
        assert((a + b).drop_last() =~= a + b.drop_last());
        lemma_payout_sum_concat(a, b.drop_last());
    }
}

/// The contribution of each nominator: its alpha on the subnet (read from
/// `Alpha`) and its global stake, as fixed-point numbers.
pub proof fn lemma_nominator_contributions_bounded(
    alpha: Map<(AccountId, AccountId, u16), u64>,
    hotkey: AccountId,
    netuid: u16,
    nominators: Seq<(AccountId, u64)>,
)
    ensures
        contributions_nonneg(nominator_contributions(alpha, hotkey, netuid, nominators)),
        forall|i: int|
            0 <= i < nominators.len() ==> #[trigger] nominator_contributions(alpha, hotkey, netuid, nominators)[i].0
                <= u64::MAX * one_bits() && nominator_contributions(alpha, hotkey, netuid, nominators)[i].1
                <= u64::MAX * one_bits(),
{
}

pub open spec fn nominator_contributions(
    alpha: Map<(AccountId, AccountId, u16), u64>,
    hotkey: AccountId,
    netuid: u16,
    nominators: Seq<(AccountId, u64)>,
) -> Seq<(int, int)> {
    Seq::new(
        nominators.len(),
        |i: int|
            (
                from_int(get_or(alpha, (hotkey, nominators[i].0, netuid), 0u64) as int),
                from_int(nominators[i].1 as int),
            ),
    )
}

/// The tuples paid to the first `n` nominators: each nominator whose amount is
/// not zero, in order.
pub open spec fn nominator_payouts(
    hotkey: AccountId,
    netuid: u16,
    nominators: Seq<(AccountId, u64)>,
    cs: Seq<(int, int)>,
    pool_bits: int,
    global_weight: int,
    ta: int,
    tg: int,
    n: nat,
) -> Seq<(AccountId, AccountId, u16, u64)>
    decreases n,
{
    if n == 0 {
        Seq::empty()
    } else {
        let prev = nominator_payouts(
            hotkey,
            netuid,
            nominators,
            cs,
            pool_bits,
            global_weight,
            ta,
            tg,
            (n - 1) as nat,
        );
        let amount = share_amount(
            cs[n - 1],
            pool_bits,
            alpha_weight(global_weight),
            pool_bits,
            global_weight,
            ta,
            tg,
        );
        if amount > 0 {
            prev.push((hotkey, nominators[n - 1].0, netuid, amount as u64))
        } else {
            prev
        }
    }
}

/// The emission tuples that draining `emission` of `hotkey` on `netuid` produces:
/// the hotkey keeps its take; the rest is shared among the nominators by alpha
/// (weight `1 - global_weight`) and by global stake (weight `global_weight`);
/// what is not paid to a nominator goes to the hotkey's owner, last.
pub open spec fn nominator_distribution(
    delegates: Map<AccountId, u16>,
    owner: Map<AccountId, AccountId>,
    alpha: Map<(AccountId, AccountId, u16), u64>,
    hotkey: AccountId,
    netuid: u16,
    emission: u64,
    nominators: Seq<(AccountId, u64)>,
    global_weight: int,
) -> Seq<(AccountId, AccountId, u16, u64)> {
    let e = from_int(emission as int);
    let hotkey_take = clamp(mul_exact(take_proportion(get_or(delegates, hotkey, 0u16)), e));
    let pool_bits = clamp(e - hotkey_take);
    let cs = nominator_contributions(alpha, hotkey, netuid, nominators);
    let ta = sum_alpha(cs);
    let tg = sum_global(cs);
    let paid = if ta > 0 || tg > 0 {
        nominator_payouts(hotkey, netuid, nominators, cs, pool_bits, global_weight, ta, tg, nominators.len())
    } else {
        Seq::empty()
    };
    let take_units = floor_num(hotkey_take);
    let remainder = sat_sub(sat_sub(emission as int, take_units), payout_sum(paid));
    paid.push(
        (
            hotkey,
            get_or(owner, hotkey, AccountId { id: 0, hash: 0 }),
            netuid,
            (take_units + remainder) as u64,
        ),
    )
}

/// The sums of a prefix of nonnegative contributions never exceed the sums of the whole.
pub proof fn lemma_sum_prefix(cs: Seq<(int, int)>, i: int)
    requires
        contributions_nonneg(cs),
        0 <= i <= cs.len(),
    ensures
        0 <= sum_alpha(cs.take(i)) <= sum_alpha(cs),
        0 <= sum_global(cs.take(i)) <= sum_global(cs),
    decreases cs.len(),
{
    if i == cs.len() {
        assert(cs.take(i) =~= cs);
        lemma_sum_nonneg(cs);
    } else {
        let prev = cs.drop_last();
        assert(contributions_nonneg(prev)) by {
            assert forall|j: int| 0 <= j < prev.len() implies 0 <= #[trigger] prev[j].0 && 0
                <= prev[j].1 by {
                assert(prev[j] == cs[j]);
            }
        }
        lemma_sum_prefix(prev, i);
        assert(prev.take(i) =~= cs.take(i));
        assert(cs.last() == cs[cs.len() - 1]);
        assert(0 <= cs.last().0 && 0 <= cs.last().1);
        assert(sum_alpha(cs) == sum_alpha(prev) + cs.last().0);
        assert(sum_global(cs) == sum_global(prev) + cs.last().1);
    }
}

pub proof fn lemma_sum_nonneg(cs: Seq<(int, int)>)
    requires
        contributions_nonneg(cs),
    ensures
        0 <= sum_alpha(cs),
        0 <= sum_global(cs),
    decreases cs.len(),
{
    if cs.len() > 0 {
        let prev = cs.drop_last();
        assert(contributions_nonneg(prev)) by {
            assert forall|j: int| 0 <= j < prev.len() implies 0 <= #[trigger] prev[j].0 && 0
                <= prev[j].1 by {
                assert(prev[j] == cs[j]);
            }
        }
        lemma_sum_nonneg(prev);
        assert(cs.last() == cs[cs.len() - 1]);
    }
}

/// The amounts paid to the first `n` nominators add up to the whole units of their shares.
pub proof fn lemma_payouts_sum(
    hotkey: AccountId,
    netuid: u16,
    nominators: Seq<(AccountId, u64)>,
    cs: Seq<(int, int)>,
    pool_bits: int,
    global_weight: int,
    ta: int,
    tg: int,
    n: nat,
)
    requires
        n <= cs.len(),
        n <= nominators.len(),
        forall|i: int|
            0 <= i < n ==> 0 <= #[trigger] share_amount(
                cs[i],
                pool_bits,
                alpha_weight(global_weight),
                pool_bits,
                global_weight,
                ta,
                tg,
            ) <= u64::MAX,
    ensures
        payout_sum(
            nominator_payouts(hotkey, netuid, nominators, cs, pool_bits, global_weight, ta, tg, n),
        ) == amount_sum(cs.take(n as int), pool_bits, alpha_weight(global_weight), pool_bits, global_weight, ta, tg),
    decreases n,
{
    if n > 0 {
        lemma_payouts_sum(hotkey, netuid, nominators, cs, pool_bits, global_weight, ta, tg, (n - 1) as nat);
        assert(cs.take(n as int).drop_last() =~= cs.take(n - 1));
        assert(cs.take(n as int).last() == cs[n - 1]);
        let amount = share_amount(cs[n - 1], pool_bits, alpha_weight(global_weight), pool_bits, global_weight, ta, tg);
        let prev = nominator_payouts(hotkey, netuid, nominators, cs, pool_bits, global_weight, ta, tg, (n - 1) as nat);
        if amount > 0 {
            assert(prev.push((hotkey, nominators[n - 1].0, netuid, amount as u64)).drop_last() =~= prev);
        }
    } else {
        assert(cs.take(0) =~= Seq::<(int, int)>::empty());
    }
}

impl Pallet {
    /// Distributes `emission` of `hotkey` on `netuid` to its nominators and to the
    /// hotkey's owner, appending one tuple `(hotkey, coldkey, netuid, amount)` per
    /// payee to `emission_tuples`.
    ///
    /// `nominators` lists, in the order of the `Stake` prefix of `hotkey`, each
    /// nominating coldkey with its global stake on the hotkey; the alpha of each
    /// comes from `Alpha`, the take from `Delegates`, the owner from `Owner`.
    /// `global_weight` is the fixed-point weight of global stake, between 0 and 1.
    ///
    /// The tuples appended carry exactly `emission` in all.
    pub fn source_nominator_emission(
        &self,
        hotkey: &AccountId,
        netuid: u16,
        emission: u64,
        _block_number: u64,
        nominators: &Vec<(AccountId, u64)>,
        global_weight: i128,
        emission_tuples: &mut Vec<(AccountId, AccountId, u16, u64)>,
    )
        requires
            0 <= global_weight <= one_bits(),
            sum_alpha(nominator_contributions(self.alpha@, *hotkey, netuid, nominators@)) <= fixed_max(),
            sum_global(nominator_contributions(self.alpha@, *hotkey, netuid, nominators@)) <= fixed_max(),
        ensures
            final(emission_tuples)@ == old(emission_tuples)@ + nominator_distribution(
                self.delegates@,
                self.owner@,
                self.alpha@,
                *hotkey,
                netuid,
                emission,
                nominators@,
                global_weight as int,
            ),
            payout_sum(final(emission_tuples)@) == payout_sum(old(emission_tuples)@) + emission,
    {
        let ghost cs = nominator_contributions(self.alpha@, *hotkey, netuid, nominators@);
        let ghost e = from_int(emission as int);
        // The hotkey's take.
        let emission_fx: i128 = fx_from_u64(emission);
        let take_proportion_fx: i128 = fx_saturating_div(
            fx_from_u64(read_u16(&self.delegates, hotkey) as u64),
            fx_from_u64(u16::MAX as u64),
        );
        let hotkey_take: i128 = fx_saturating_mul(take_proportion_fx, emission_fx);
        let mut to_nominators: u64 = 0;
        let nominator_emission: i128 = fx_saturating_sub(emission_fx, hotkey_take);
        proof {
            let tp = take_proportion(get_or(self.delegates@, *hotkey, 0u16));
            lemma_take_proportion(get_or(self.delegates@, *hotkey, 0u16));
            lemma_mul_exact_by_int(tp, emission as int);
            assert(tp * emission <= one_bits() * emission) by (nonlinear_arith)
                requires
                    tp <= one_bits(),
                    0 <= emission,
            ;
            assert(0 <= tp * emission) by (nonlinear_arith)
                requires
                    0 <= tp,
                    0 <= emission,
            ;
            assert(hotkey_take == tp * emission);
        }
        // The nominators' contributions and their totals.
        let mut total_global: i128 = 0;
        let mut total_alpha: i128 = 0;
        let mut contributions: Vec<(AccountId, i128, i128)> = Vec::new();
        proof {
            lemma_nominator_contributions_bounded(self.alpha@, *hotkey, netuid, nominators@);
        }
        let mut i: usize = 0;
        while i < nominators.len()
            invariant
                cs == nominator_contributions(self.alpha@, *hotkey, netuid, nominators@),
                contributions_nonneg(cs),
                forall|j: int| 0 <= j < cs.len() ==> #[trigger] cs[j].0 <= u64::MAX * one_bits() && cs[j].1 <= u64::MAX * one_bits(),
                sum_alpha(cs) <= fixed_max(),
                sum_global(cs) <= fixed_max(),
                i <= nominators@.len(),
                contributions@.len() == i,
                forall|j: int|
                    0 <= j < i ==> #[trigger] contributions@[j] == (nominators@[j].0, cs[j].0 as i128, cs[j].1 as i128),
                total_alpha == sum_alpha(cs.take(i as int)),
                total_global == sum_global(cs.take(i as int)),
            decreases nominators@.len() - i,
        {
            let (nominator, global) = nominators[i];
            let alpha_contribution: i128 = fx_from_u64(read_u64(&self.alpha, &(*hotkey, nominator, netuid)));
            let global_contribution: i128 = fx_from_u64(global);
            proof {
                assert(cs.take(i + 1).drop_last() =~= cs.take(i as int));
                assert(cs.take(i + 1).last() == cs[i as int]);
                lemma_sum_prefix(cs, i + 1);
            }
            fx_add_assign(&mut total_global, global_contribution);
            fx_add_assign(&mut total_alpha, alpha_contribution);
            contributions.push((nominator, alpha_contribution, global_contribution));
            i = i + 1;
        }
        proof {
            assert(cs.take(cs.len() as int) =~= cs);
        }
        let ghost ta = total_alpha as int;
        let ghost tg = total_global as int;
        let ghost gw = global_weight as int;
        // The weights of alpha and global stake.
        let alpha_weight_fx: i128 = fx_saturating_sub(fx_from_u64(1), global_weight);
        let ghost aw = alpha_weight_fx as int;
        let ghost start = emission_tuples@;
        proof {
            lemma_mul_exact_nonneg(nominator_emission as int, aw);
            lemma_mul_exact_nonneg(nominator_emission as int, gw);
            lemma_clamp_nonneg(mul_exact(nominator_emission as int, aw));
            lemma_clamp_nonneg(mul_exact(nominator_emission as int, gw));
            let pa = pool(nominator_emission as int, aw);
            let pg = pool(nominator_emission as int, gw);
            let ne = nominator_emission as int;
            assert((pa + pg) * one_bits() <= ne * (aw + gw)) by (nonlinear_arith)
                requires
                    pa * one_bits() <= ne * aw,
                    pg * one_bits() <= ne * gw,
            ;
            assert(ne * (aw + gw) == ne * one_bits()) by (nonlinear_arith)
                requires
                    aw + gw == one_bits(),
            ;
        }
        // Distribute to the nominators by their contributions.
        if total_alpha > fx_from_u64(0) || total_global > fx_from_u64(0) {
            let mut k: usize = 0;
            while k < contributions.len()
                invariant
                    cs == nominator_contributions(self.alpha@, *hotkey, netuid, nominators@),
                    contributions_nonneg(cs),
                    forall|j: int| 0 <= j < cs.len() ==> #[trigger] cs[j].0 <= u64::MAX * one_bits() && cs[j].1 <= u64::MAX * one_bits(),
                    contributions@.len() == nominators@.len() == cs.len(),
                    forall|j: int|
                        0 <= j < cs.len() ==> #[trigger] contributions@[j] == (nominators@[j].0, cs[j].0 as i128, cs[j].1 as i128),
                    ta == sum_alpha(cs),
                    tg == sum_global(cs),
                    ta == total_alpha,
                    tg == total_global,
                    ta <= fixed_max(),
                    tg <= fixed_max(),
                    aw == alpha_weight(gw),
                    alpha_weight_fx == aw,
                    gw == global_weight,
                    0 <= gw <= one_bits(),
                    aw + gw == one_bits(),
                    0 <= nominator_emission <= e,
                    e == emission * one_bits(),
                    pool(nominator_emission as int, aw) + pool(nominator_emission as int, gw) <= nominator_emission,
                    k <= cs.len(),
                    emission_tuples@ == start + nominator_payouts(*hotkey, netuid, nominators@, cs, nominator_emission as int, gw, ta, tg, k as nat),
                    to_nominators == amount_sum(cs.take(k as int), nominator_emission as int, aw, nominator_emission as int, gw, ta, tg),
                    to_nominators * one_bits() <= nominator_emission,
                    forall|j: int|
                        0 <= j < k ==> 0 <= #[trigger] share_amount(cs[j], nominator_emission as int, aw, nominator_emission as int, gw, ta, tg) <= u64::MAX,
                decreases cs.len() - k,
            {
                let (nominator, alpha_contribution, global_contribution) = contributions[k];
                let alpha_emission: i128 = match fx_checked_div(
                    fx_saturating_mul(fx_saturating_mul(nominator_emission, alpha_weight_fx), alpha_contribution),
                    total_alpha,
                ) {
                    Some(x) => x,
                    None => fx_from_u64(0),
                };
                let global_emission: i128 = match fx_checked_div(
                    fx_saturating_mul(fx_saturating_mul(nominator_emission, global_weight), global_contribution),
                    total_global,
                ) {
                    Some(x) => x,
                    None => fx_from_u64(0),
                };
                proof {
                    let ne = nominator_emission as int;
                    assert(cs.take(k + 1).drop_last() =~= cs.take(k as int));
                    assert(cs.take(k + 1).last() == cs[k as int]);
                    lemma_sum_prefix(cs, k + 1);
                    lemma_sum_prefix(cs, k as int);
                    assert(contributions_nonneg(cs.take(k + 1)));
                    lemma_share_sums(cs.take(k + 1), ne, aw, ne, gw, ta, tg);
                    lemma_weighted_share(ne, aw, cs[k as int].0, ta);
                    lemma_weighted_share(ne, gw, cs[k as int].1, tg);
                    assert(alpha_contribution == cs[k as int].0);
                    assert(total_alpha == ta);
                    assert(alpha_weight_fx == aw);
                    assert(alpha_emission == weighted_share(ne, aw, cs[k as int].0, ta));
                    assert(global_emission == weighted_share(ne, gw, cs[k as int].1, tg));
                    let x = alpha_emission + global_emission;
                    assert(0 <= x <= emission * one_bits());
                    vstd::arithmetic::div_mod::lemma_div_is_ordered(x, emission * one_bits(), one_bits());
                    vstd::arithmetic::div_mod::lemma_div_multiples_vanish(emission as int, one_bits());
                    vstd::arithmetic::div_mod::lemma_div_pos_is_pos(x, one_bits());
                    let s = amount_sum(cs.take(k + 1), ne, aw, ne, gw, ta, tg);
                    assert(s * one_bits() <= ne);
                    assert(s <= emission) by (nonlinear_arith)
                        requires
                            s * one_bits() <= ne,
                            ne <= emission * one_bits(),
                    ;
                }
                let total_emission: u64 = fx_to_u64(fx_saturating_add(alpha_emission, global_emission));
                if total_emission > 0 {
                    to_nominators = to_nominators + total_emission;
                    emission_tuples.push((*hotkey, nominator, netuid, total_emission));
                }
                k = k + 1;
            }
        }
        proof {
            let ne = nominator_emission as int;
            if ta > 0 || tg > 0 {
                assert(forall|j: int| 0 <= j < cs.len() ==> 0 <= #[trigger] share_amount(cs[j], ne, aw, ne, gw, ta, tg) <= u64::MAX);
                lemma_payouts_sum(*hotkey, netuid, nominators@, cs, ne, gw, ta, tg, cs.len());
                assert(cs.take(cs.len() as int) =~= cs);
            }
        }
        // The rest goes to the hotkey's owner.
        let hotkey_owner: AccountId = match self.owner.get(hotkey) {
            Some(o) => *o,
            None => AccountId::zero(),
        };
        let take_units: u64 = fx_to_u64(hotkey_take);
        let remainder: u64 = fx_to_u64(emission_fx).saturating_sub(take_units).saturating_sub(to_nominators);
        let final_hotkey_emission: u64 = take_units + remainder;
        emission_tuples.push((*hotkey, hotkey_owner, netuid, final_hotkey_emission));
        proof {
            let ne = nominator_emission as int;
            let paid = if ta > 0 || tg > 0 {
                nominator_payouts(*hotkey, netuid, nominators@, cs, ne, gw, ta, tg, cs.len())
            } else {
                Seq::empty()
            };
            assert(to_nominators == payout_sum(paid));
            assert(to_nominators * one_bits() <= ne);
            vstd::arithmetic::div_mod::lemma_fundamental_div_mod(hotkey_take as int, one_bits());
            vstd::arithmetic::div_mod::lemma_mod_bound(hotkey_take as int, one_bits());
            assert(take_units * one_bits() <= hotkey_take);
            assert(ne == e - hotkey_take);
            assert(to_nominators + take_units <= emission) by (nonlinear_arith)
                requires
                    to_nominators * one_bits() <= ne,
                    take_units * one_bits() <= hotkey_take,
                    ne == e - hotkey_take,
                    e == emission * one_bits(),
            ;
            let d = nominator_distribution(
                self.delegates@,
                self.owner@,
                self.alpha@,
                *hotkey,
                netuid,
                emission,
                nominators@,
                global_weight as int,
            );
            assert(d.drop_last() =~= paid);
            assert(d.last().3 == final_hotkey_emission);
            assert(payout_sum(d) == emission);
            assert(emission_tuples@ =~= old(emission_tuples)@ + d);
            lemma_payout_sum_concat(old(emission_tuples)@, nominator_distribution(
                self.delegates@,
                self.owner@,
                self.alpha@,
                *hotkey,
                netuid,
                emission,
                nominators@,
                global_weight as int,
            ));
        }
    }
}

/// An amount is within a payee's exact share: out of a pool (fixed-point bits),
/// the alpha part `(1 - global_weight)` goes by alpha `a` out of `ta`, the global
/// part `global_weight` by global stake `g` out of `tg` (each pair in one unit
/// of its own), and the amount, in whole units, is at most the exact sum of the
/// two, with a part over a zero total counting as nothing.
pub open spec fn within_exact_share(
    amount: int,
    pool: int,
    alpha_weight: int,
    global_weight: int,
    a: int,
    g: int,
    ta: int,
    tg: int,
) -> bool {
    let o = one_bits();
    &&& 0 <= amount
    &&& amount * o * o * ta * tg <= pool * alpha_weight * a * tg + pool * global_weight * g * ta
    &&& ta == 0 ==> amount * o * o * tg <= pool * global_weight * g
    &&& tg == 0 ==> amount * o * o * ta <= pool * alpha_weight * a
    &&& ta == 0 && tg == 0 ==> amount == 0
}

/// An amount, in whole units, falls short of a payee's exact share (as in
/// `within_exact_share`) by less than four units, for each total that is not zero.
pub open spec fn near_exact_share(
    amount: int,
    pool: int,
    alpha_weight: int,
    global_weight: int,
    a: int,
    g: int,
    ta: int,
    tg: int,
) -> bool {
    let o = one_bits();
    &&& ta > 0 && tg > 0 ==> (amount + 4) * o * o * ta * tg > pool * alpha_weight * a * tg + pool
        * global_weight * g * ta
    &&& ta == 0 && tg > 0 ==> (amount + 4) * o * o * tg > pool * global_weight * g
    &&& ta > 0 && tg == 0 ==> (amount + 4) * o * o * ta > pool * alpha_weight * a
}

/// The alpha of the nominators of `hotkey` on `netuid`, from `Alpha`, in whole units.
pub open spec fn nominators_alpha_total(
    alpha: Map<(AccountId, AccountId, u16), u64>,
    hotkey: AccountId,
    netuid: u16,
    nominators: Seq<(AccountId, u64)>,
) -> int
    decreases nominators.len(),
{
    if nominators.len() == 0 {
        0
    } else {
        nominators_alpha_total(alpha, hotkey, netuid, nominators.drop_last()) + get_or(
            alpha,
            (hotkey, nominators.last().0, netuid),
            0u64,
        )
    }
}

/// The global stake of the nominators, as given, in whole units.
pub open spec fn nominators_global_total(nominators: Seq<(AccountId, u64)>) -> int
    decreases nominators.len(),
{
    if nominators.len() == 0 {
        0
    } else {
        nominators_global_total(nominators.drop_last()) + nominators.last().1
    }
}

/// A take out of `u16::MAX` is the fixed-point proportion `take * 2^32 / 65535`, rounded down.
pub proof fn lemma_take_proportion_exact(take: u16)
    ensures
        take_proportion(take) == (take * one_bits()) / 65535,
{
    let o = one_bits();
    let n = from_int(take as int);
    let d = from_int(u16::MAX as int);
    crate::fixed::lemma_div_exact_nonneg(n, d);
    assert(n * o == (take * o) * o);
    crate::fixed::lemma_div_cancel(take * o, 65535, o);
    lemma_take_proportion(take);
}

/// Each nominator contributes its `Alpha` and its given global stake, and the
/// totals of the contributions are the nominators' totals, as fixed point.
pub proof fn lemma_nominator_totals(
    alpha: Map<(AccountId, AccountId, u16), u64>,
    hotkey: AccountId,
    netuid: u16,
    nominators: Seq<(AccountId, u64)>,
)
    ensures
        sum_alpha(nominator_contributions(alpha, hotkey, netuid, nominators)) == nominators_alpha_total(
            alpha,
            hotkey,
            netuid,
            nominators,
        ) * one_bits(),
        sum_global(nominator_contributions(alpha, hotkey, netuid, nominators)) == nominators_global_total(
            nominators,
        ) * one_bits(),
        forall|i: int|
            0 <= i < nominators.len() ==> #[trigger] nominator_contributions(alpha, hotkey, netuid, nominators)[i]
                == (get_or(alpha, (hotkey, nominators[i].0, netuid), 0u64) * one_bits(), nominators[i].1
                * one_bits()),
    decreases nominators.len(),
{
    if nominators.len() > 0 {
        let prev = nominators.drop_last();
        lemma_nominator_totals(alpha, hotkey, netuid, prev);
        let cs = nominator_contributions(alpha, hotkey, netuid, nominators);
        assert(cs.drop_last() =~= nominator_contributions(alpha, hotkey, netuid, prev));
        assert(cs.last() == cs[cs.len() - 1]);
        assert(nominators.last() == nominators[nominators.len() - 1]);
    }
}

/// Every tuple paid to a nominator is that nominator's share amount, and not zero.
pub proof fn lemma_payouts_from_nominators(
    hotkey: AccountId,
    netuid: u16,
    nominators: Seq<(AccountId, u64)>,
    cs: Seq<(int, int)>,
    pool_bits: int,
    global_weight: int,
    ta: int,
    tg: int,
    n: nat,
)
    requires
        n <= nominators.len(),
        n <= cs.len(),
    ensures
        forall|j: int|
            #![trigger nominator_payouts(hotkey, netuid, nominators, cs, pool_bits, global_weight, ta, tg, n)[j]]
            0 <= j < nominator_payouts(hotkey, netuid, nominators, cs, pool_bits, global_weight, ta, tg, n).len()
                ==> exists|i: int|
                #![trigger nominators[i]]
                0 <= i < n && nominator_payouts(
                    hotkey,
                    netuid,
                    nominators,
                    cs,
                    pool_bits,
                    global_weight,
                    ta,
                    tg,
                    n,
                )[j] == (
                    hotkey,
                    nominators[i].0,
                    netuid,
                    share_amount(cs[i], pool_bits, alpha_weight(global_weight), pool_bits, global_weight, ta, tg) as u64,
                ) && share_amount(cs[i], pool_bits, alpha_weight(global_weight), pool_bits, global_weight, ta, tg)
                    > 0,
    decreases n,
{
    if n > 0 {
        lemma_payouts_from_nominators(hotkey, netuid, nominators, cs, pool_bits, global_weight, ta, tg, (n - 1) as nat);
        let prev = nominator_payouts(hotkey, netuid, nominators, cs, pool_bits, global_weight, ta, tg, (n - 1) as nat);
        let cur = nominator_payouts(hotkey, netuid, nominators, cs, pool_bits, global_weight, ta, tg, n);
        assert forall|j: int| #![trigger cur[j]] 0 <= j < cur.len() implies exists|i: int|
            #![trigger nominators[i]]
            0 <= i < n && cur[j] == (
                hotkey,
                nominators[i].0,
                netuid,
                share_amount(cs[i], pool_bits, alpha_weight(global_weight), pool_bits, global_weight, ta, tg) as u64,
            ) && share_amount(cs[i], pool_bits, alpha_weight(global_weight), pool_bits, global_weight, ta, tg) > 0 by {
            if j < prev.len() {
                assert(cur[j] == prev[j]);
                let i = choose|i: int|
                    #![trigger nominators[i]]
                    0 <= i < n - 1 && prev[j] == (
                        hotkey,
                        nominators[i].0,
                        netuid,
                        share_amount(cs[i], pool_bits, alpha_weight(global_weight), pool_bits, global_weight, ta, tg) as u64,
                    ) && share_amount(cs[i], pool_bits, alpha_weight(global_weight), pool_bits, global_weight, ta, tg)
                        > 0;
                assert(cur[j] == (
                    hotkey,
                    nominators[i].0,
                    netuid,
                    share_amount(cs[i], pool_bits, alpha_weight(global_weight), pool_bits, global_weight, ta, tg) as u64,
                ));
            } else {
                let i = n - 1;
                assert(cur[j] == (
                    hotkey,
                    nominators[i].0,
                    netuid,
                    share_amount(cs[i], pool_bits, alpha_weight(global_weight), pool_bits, global_weight, ta, tg) as u64,
                ));
            }
        }
    }
}


/// A nominator whose share amount is not zero is paid it, in some tuple.
pub proof fn lemma_payouts_cover_nominators(
    hotkey: AccountId,
    netuid: u16,
    nominators: Seq<(AccountId, u64)>,
    cs: Seq<(int, int)>,
    pool_bits: int,
    global_weight: int,
    ta: int,
    tg: int,
    n: nat,
)
    requires
        n <= nominators.len(),
        n <= cs.len(),
    ensures
        forall|i: int|
            #![trigger nominators[i]]
            0 <= i < n && share_amount(cs[i], pool_bits, alpha_weight(global_weight), pool_bits, global_weight, ta, tg)
                > 0 ==> nominator_payouts(hotkey, netuid, nominators, cs, pool_bits, global_weight, ta, tg, n).contains(
                (
                    hotkey,
                    nominators[i].0,
                    netuid,
                    share_amount(cs[i], pool_bits, alpha_weight(global_weight), pool_bits, global_weight, ta, tg) as u64,
                ),
            ),
    decreases n,
{
    if n > 0 {
        lemma_payouts_cover_nominators(hotkey, netuid, nominators, cs, pool_bits, global_weight, ta, tg, (n - 1) as nat);
        let prev = nominator_payouts(hotkey, netuid, nominators, cs, pool_bits, global_weight, ta, tg, (n - 1) as nat);
        let cur = nominator_payouts(hotkey, netuid, nominators, cs, pool_bits, global_weight, ta, tg, n);
        assert forall|i: int|
            #![trigger nominators[i]]
            0 <= i < n && share_amount(cs[i], pool_bits, alpha_weight(global_weight), pool_bits, global_weight, ta, tg)
                > 0 implies cur.contains(
                (
                    hotkey,
                    nominators[i].0,
                    netuid,
                    share_amount(cs[i], pool_bits, alpha_weight(global_weight), pool_bits, global_weight, ta, tg) as u64,
                ),
            ) by {
            let x = (
                hotkey,
                nominators[i].0,
                netuid,
                share_amount(cs[i], pool_bits, alpha_weight(global_weight), pool_bits, global_weight, ta, tg) as u64,
            );
            if i < n - 1 {
                assert(prev.contains(x));
                let j = choose|j: int| 0 <= j < prev.len() && prev[j] == x;
                assert(cur[j] == prev[j]);
            } else {
                assert(cur =~= prev.push(x));
                assert(cur[prev.len() as int] == x);
            }
        }
    }
}

/// Nearness to an exact share does not depend on the unit in which the stakes
/// and their totals are counted.
pub proof fn lemma_near_exact_share_scaled(
    amount: int,
    pool: int,
    alpha_weight: int,
    global_weight: int,
    a: int,
    g: int,
    ta: int,
    tg: int,
    k: int,
)
    requires
        k > 0,
        0 <= ta,
        0 <= tg,
        near_exact_share(amount, pool, alpha_weight, global_weight, a * k, g * k, ta * k, tg * k),
    ensures
        near_exact_share(amount, pool, alpha_weight, global_weight, a, g, ta, tg),
{
    let o = one_bits();
    let kk = k * k;
    assert(kk > 0) by (nonlinear_arith)
        requires
            kk == k * k,
            k > 0,
    ;
    if ta > 0 && tg > 0 {
        assert(ta * k > 0 && tg * k > 0) by (nonlinear_arith)
            requires
                ta > 0,
                tg > 0,
                k > 0,
        ;
        let l = (amount + 4) * o * o * ta * tg;
        let ra = pool * alpha_weight * a * tg;
        let rg = pool * global_weight * g * ta;
        assert((amount + 4) * o * o * (ta * k) * (tg * k) == l * kk) by {
            let m = (amount + 4) * o * o;
            assert(m * (ta * k) * (tg * k) == (m * ta * tg) * (k * k)) by (nonlinear_arith);
        }
        assert(pool * alpha_weight * (a * k) * (tg * k) == ra * kk) by {
            let m = pool * alpha_weight;
            assert(m * (a * k) * (tg * k) == (m * a * tg) * (k * k)) by (nonlinear_arith);
        }
        assert(pool * global_weight * (g * k) * (ta * k) == rg * kk) by {
            let m = pool * global_weight;
            assert(m * (g * k) * (ta * k) == (m * g * ta) * (k * k)) by (nonlinear_arith);
        }
        assert(ra * kk + rg * kk == (ra + rg) * kk) by (nonlinear_arith);
        vstd::arithmetic::mul::lemma_mul_strict_inequality_converse(ra + rg, l, kk);
    }
    if ta == 0 && tg > 0 {
        assert(tg * k > 0) by (nonlinear_arith)
            requires
                tg > 0,
                k > 0,
        ;
        let l = (amount + 4) * o * o * tg;
        let r = pool * global_weight * g;
        assert((amount + 4) * o * o * (tg * k) == l * k) by (nonlinear_arith)
            requires
                l == (amount + 4) * o * o * tg,
        ;
        assert(pool * global_weight * (g * k) == r * k) by (nonlinear_arith)
            requires
                r == pool * global_weight * g,
        ;
        vstd::arithmetic::mul::lemma_mul_strict_inequality_converse(r, l, k);
    }
    if ta > 0 && tg == 0 {
        assert(ta * k > 0) by (nonlinear_arith)
            requires
                ta > 0,
                k > 0,
        ;
        let l = (amount + 4) * o * o * ta;
        let r = pool * alpha_weight * a;
        assert((amount + 4) * o * o * (ta * k) == l * k) by (nonlinear_arith)
            requires
                l == (amount + 4) * o * o * ta,
        ;
        assert(pool * alpha_weight * (a * k) == r * k) by (nonlinear_arith)
            requires
                r == pool * alpha_weight * a,
        ;
        vstd::arithmetic::mul::lemma_mul_strict_inequality_converse(r, l, k);
    }
}

/// No nominator is paid more than its exact share of the emission left after
/// the hotkey's take: `(1 - global_weight)` of it shared by each nominator's
/// `Alpha`, `global_weight` of it by each nominator's global stake as given.
/// The last tuple goes to the hotkey's owner.
pub proof fn lemma_nominator_payouts_within_exact_shares(
    delegates: Map<AccountId, u16>,
    owner: Map<AccountId, AccountId>,
    alpha: Map<(AccountId, AccountId, u16), u64>,
    hotkey: AccountId,
    netuid: u16,
    emission: u64,
    nominators: Seq<(AccountId, u64)>,
    global_weight: int,
)
    requires
        0 <= global_weight <= one_bits(),
        nominators_alpha_total(alpha, hotkey, netuid, nominators) * one_bits() <= fixed_max(),
        nominators_global_total(nominators) * one_bits() <= fixed_max(),
    ensures
        ({
            let d = nominator_distribution(delegates, owner, alpha, hotkey, netuid, emission, nominators, global_weight);
            let tp = (get_or(delegates, hotkey, 0u16) * one_bits()) / 65535;
            let pool = emission * one_bits() - tp * emission;
            &&& d.len() >= 1
            &&& d.last().0 == hotkey
            &&& d.last().1 == get_or(owner, hotkey, AccountId { id: 0, hash: 0 })
            &&& d.last().2 == netuid
            &&& forall|j: int|
                #![trigger d[j]]
                0 <= j < d.len() - 1 ==> exists|i: int|
                    #![trigger nominators[i]]
                    0 <= i < nominators.len() && d[j] == (
                        hotkey,
                        nominators[i].0,
                        netuid,
                        d[j].3,
                    ) && within_exact_share(
                        d[j].3 as int,
                        pool,
                        one_bits() - global_weight,
                        global_weight,
                        get_or(alpha, (hotkey, nominators[i].0, netuid), 0u64) as int,
                        nominators[i].1 as int,
                        nominators_alpha_total(alpha, hotkey, netuid, nominators),
                        nominators_global_total(nominators),
                    )
        }),
{
    let o = one_bits();
    let d = nominator_distribution(delegates, owner, alpha, hotkey, netuid, emission, nominators, global_weight);
    let take = get_or(delegates, hotkey, 0u16);
    let tp = (take * o) / 65535;
    lemma_take_proportion_exact(take);
    lemma_take_proportion(take);
    let e = from_int(emission as int);
    lemma_mul_exact_by_int(tp, emission as int);
    assert(0 <= tp * emission <= o * emission) by (nonlinear_arith)
        requires
            0 <= tp <= o,
            0 <= emission,
    ;
    let ht = clamp(mul_exact(take_proportion(take), e));
    assert(ht == tp * emission);
    let left = emission * o - tp * emission;
    assert(clamp(e - ht) == left);
    let gw = global_weight;
    let aw = alpha_weight(gw);
    assert(aw == o - gw);
    let cs = nominator_contributions(alpha, hotkey, netuid, nominators);
    lemma_nominator_totals(alpha, hotkey, netuid, nominators);
    lemma_nominator_contributions_bounded(alpha, hotkey, netuid, nominators);
    let big_ta = nominators_alpha_total(alpha, hotkey, netuid, nominators);
    let big_tg = nominators_global_total(nominators);
    let ta = sum_alpha(cs);
    let tg = sum_global(cs);
    lemma_sum_nonneg(cs);
    // The two pools together never exceed what is left after the take.
    lemma_mul_exact_nonneg(left, aw);
    lemma_mul_exact_nonneg(left, gw);
    lemma_clamp_nonneg(mul_exact(left, aw));
    lemma_clamp_nonneg(mul_exact(left, gw));
    let pa = pool(left, aw);
    let pg = pool(left, gw);
    assert((pa + pg) * o <= left * o) by (nonlinear_arith)
        requires
            pa * o <= left * aw,
            pg * o <= left * gw,
            aw + gw == o,
    ;
    if ta > 0 || tg > 0 {
        let n = nominators.len();
        lemma_payouts_from_nominators(hotkey, netuid, nominators, cs, left, gw, ta, tg, n);
        let paid = nominator_payouts(hotkey, netuid, nominators, cs, left, gw, ta, tg, n);
        assert(d.drop_last() =~= paid);
        assert forall|j: int| #![trigger d[j]] 0 <= j < d.len() - 1 implies exists|i: int|
            #![trigger nominators[i]]
            0 <= i < nominators.len() && d[j] == (
                hotkey,
                nominators[i].0,
                netuid,
                d[j].3,
            ) && within_exact_share(
                d[j].3 as int,
                left,
                o - gw,
                gw,
                get_or(alpha, (hotkey, nominators[i].0, netuid), 0u64) as int,
                nominators[i].1 as int,
                big_ta,
                big_tg,
            ) by {
            assert(d[j] == paid[j]);
            let i = choose|i: int|
                #![trigger nominators[i]]
                0 <= i < n && paid[j] == (
                    hotkey,
                    nominators[i].0,
                    netuid,
                    share_amount(cs[i], left, aw, left, gw, ta, tg) as u64,
                ) && share_amount(cs[i], left, aw, left, gw, ta, tg) > 0;
            let c = cs[i];
            let big_a = get_or(alpha, (hotkey, nominators[i].0, netuid), 0u64) as int;
            let big_g = nominators[i].1 as int;
            assert(c == (big_a * o, big_g * o));
            lemma_sum_prefix(cs, i + 1);
            lemma_sum_prefix(cs, i);
            assert(cs.take(i + 1).drop_last() =~= cs.take(i));
            assert(cs.take(i + 1).last() == cs[i]);
            lemma_share_amount_bound(c, left, aw, left, gw, ta, tg);
            lemma_weighted_share(left, aw, c.0, ta);
            lemma_weighted_share(left, gw, c.1, tg);
            let a = share_amount(c, left, aw, left, gw, ta, tg);
            let x = clamp(weighted_share(left, aw, c.0, ta) + weighted_share(left, gw, c.1, tg));
            lemma_clamp_nonneg(weighted_share(left, aw, c.0, ta) + weighted_share(left, gw, c.1, tg));
            vstd::arithmetic::div_mod::lemma_fundamental_div_mod(x, o);
            vstd::arithmetic::div_mod::lemma_mod_bound(x, o);
            assert(a * o <= left);
            assert(left <= emission * o);
            assert(a * o <= emission * o);
            vstd::arithmetic::mul::lemma_mul_inequality_converse(a, emission as int, o);
            assert(d[j].3 == a);
            assert(ta == big_ta * o && tg == big_tg * o);
            let oo = o * o;
            let lhs = a * o * o * big_ta * big_tg;
            let rhs = left * aw * big_a * big_tg + left * gw * big_g * big_ta;
            assert(a * o * o * ta * tg == lhs * oo) by (nonlinear_arith)
                requires
                    ta == big_ta * o,
                    tg == big_tg * o,
                    lhs == a * o * o * big_ta * big_tg,
                    oo == o * o,
            ;
            let r_a = left * aw * big_a * big_tg;
            let r_g = left * gw * big_g * big_ta;
            assert(left * aw * c.0 * tg == r_a * oo) by {
                let p = left * aw;
                assert(p * (big_a * o) * (big_tg * o) == (p * big_a * big_tg) * (o * o)) by (nonlinear_arith);
            }
            assert(left * gw * c.1 * ta == r_g * oo) by {
                let p = left * gw;
                assert(p * (big_g * o) * (big_ta * o) == (p * big_g * big_ta) * (o * o)) by (nonlinear_arith);
            }
            assert(rhs * oo == r_a * oo + r_g * oo) by (nonlinear_arith)
                requires
                    rhs == r_a + r_g,
            ;
            assert(oo > 0) by (nonlinear_arith)
                requires
                    oo == o * o,
                    o > 0,
            ;
            vstd::arithmetic::mul::lemma_mul_inequality_converse(lhs, rhs, oo);
            if big_ta == 0 {
                let l1 = a * o * o * big_tg;
                let r1 = left * gw * big_g;
                assert(a * o * o * tg == l1 * o) by (nonlinear_arith)
                    requires
                        tg == big_tg * o,
                        l1 == a * o * o * big_tg,
                ;
                assert(left * gw * c.1 == r1 * o) by (nonlinear_arith)
                    requires
                        c.1 == big_g * o,
                        r1 == left * gw * big_g,
                ;
                vstd::arithmetic::mul::lemma_mul_inequality_converse(l1, r1, o);
            }
            if big_tg == 0 {
                let l2 = a * o * o * big_ta;
                let r2 = left * aw * big_a;
                assert(a * o * o * ta == l2 * o) by (nonlinear_arith)
                    requires
                        ta == big_ta * o,
                        l2 == a * o * o * big_ta,
                ;
                assert(left * aw * c.0 == r2 * o) by (nonlinear_arith)
                    requires
                        c.0 == big_a * o,
                        r2 == left * aw * big_a,
                ;
                vstd::arithmetic::mul::lemma_mul_inequality_converse(l2, r2, o);
            }
        }
    } else {
        assert(d.len() == 1);
    }
}

/// Where the fixed-point products stay in range, every nominator is paid its
/// exact share of the emission left after the hotkey's take less under four
/// units, `(1 - global_weight)` of it shared by `Alpha` and `global_weight` by
/// the given global stakes; a nominator is left unpaid only where that exact
/// share is under four units.
pub proof fn lemma_nominator_payouts_near_exact_shares(
    delegates: Map<AccountId, u16>,
    owner: Map<AccountId, AccountId>,
    alpha: Map<(AccountId, AccountId, u16), u64>,
    hotkey: AccountId,
    netuid: u16,
    emission: u64,
    nominators: Seq<(AccountId, u64)>,
    global_weight: int,
)
    requires
        0 <= global_weight <= one_bits(),
        nominators_alpha_total(alpha, hotkey, netuid, nominators) * one_bits() <= fixed_max(),
        nominators_global_total(nominators) * one_bits() <= fixed_max(),
    ensures
        ({
            let d = nominator_distribution(delegates, owner, alpha, hotkey, netuid, emission, nominators, global_weight);
            let tp = (get_or(delegates, hotkey, 0u16) * one_bits()) / 65535;
            let pool = emission * one_bits() - tp * emission;
            let big_ta = nominators_alpha_total(alpha, hotkey, netuid, nominators);
            let big_tg = nominators_global_total(nominators);
            emission * big_ta * one_bits() <= fixed_max() && emission * big_tg * one_bits() <= fixed_max()
                ==> forall|i: int|
                #![trigger nominators[i]]
                0 <= i < nominators.len() ==> near_exact_share(
                    0,
                    pool,
                    one_bits() - global_weight,
                    global_weight,
                    get_or(alpha, (hotkey, nominators[i].0, netuid), 0u64) as int,
                    nominators[i].1 as int,
                    big_ta,
                    big_tg,
                ) || exists|j: int|
                    #![trigger d[j]]
                    0 <= j < d.len() - 1 && d[j] == (hotkey, nominators[i].0, netuid, d[j].3) && near_exact_share(
                        d[j].3 as int,
                        pool,
                        one_bits() - global_weight,
                        global_weight,
                        get_or(alpha, (hotkey, nominators[i].0, netuid), 0u64) as int,
                        nominators[i].1 as int,
                        big_ta,
                        big_tg,
                    )
        }),
{
    let o = one_bits();
    let d = nominator_distribution(delegates, owner, alpha, hotkey, netuid, emission, nominators, global_weight);
    let take = get_or(delegates, hotkey, 0u16);
    let tp = (take * o) / 65535;
    lemma_take_proportion_exact(take);
    lemma_take_proportion(take);
    let e = from_int(emission as int);
    lemma_mul_exact_by_int(tp, emission as int);
    assert(0 <= tp * emission <= o * emission) by (nonlinear_arith)
        requires
            0 <= tp <= o,
            0 <= emission,
    ;
    let ht = clamp(mul_exact(take_proportion(take), e));
    assert(ht == tp * emission);
    let left = emission * o - tp * emission;
    assert(clamp(e - ht) == left);
    let gw = global_weight;
    let aw = alpha_weight(gw);
    assert(aw == o - gw);
    let cs = nominator_contributions(alpha, hotkey, netuid, nominators);
    lemma_nominator_totals(alpha, hotkey, netuid, nominators);
    lemma_nominator_contributions_bounded(alpha, hotkey, netuid, nominators);
    let big_ta = nominators_alpha_total(alpha, hotkey, netuid, nominators);
    let big_tg = nominators_global_total(nominators);
    let ta = sum_alpha(cs);
    let tg = sum_global(cs);
    lemma_sum_nonneg(cs);
    // The two pools together never exceed what is left after the take.
    lemma_mul_exact_nonneg(left, aw);
    lemma_mul_exact_nonneg(left, gw);
    lemma_clamp_nonneg(mul_exact(left, aw));
    lemma_clamp_nonneg(mul_exact(left, gw));
    let pa = pool(left, aw);
    let pg = pool(left, gw);
    assert((pa + pg) * o <= left * o) by (nonlinear_arith)
        requires
            pa * o <= left * aw,
            pg * o <= left * gw,
            aw + gw == o,
    ;
    if emission * big_ta * o <= fixed_max() && emission * big_tg * o <= fixed_max() {
        assert(left * aw + left * gw <= fixed_max() * o) by (nonlinear_arith)
            requires
                aw + gw == o,
                0 <= left <= emission * o,
                0 <= emission <= u64::MAX,
                o == 0x1_0000_0000,
                fixed_max() == 0x7fff_ffff_ffff_ffff_ffff_ffff_ffff_ffff,
        ;
        assert(left * aw * ta <= fixed_max() * o * o) by (nonlinear_arith)
            requires
                0 <= aw <= o,
                0 <= left <= emission * o,
                ta == big_ta * o,
                0 <= big_ta,
                emission * big_ta * o <= fixed_max(),
                o > 0,
        ;
        assert(left * gw * tg <= fixed_max() * o * o) by (nonlinear_arith)
            requires
                0 <= gw <= o,
                0 <= left <= emission * o,
                tg == big_tg * o,
                0 <= big_tg,
                emission * big_tg * o <= fixed_max(),
                o > 0,
        ;
        let n = nominators.len();
        lemma_payouts_cover_nominators(hotkey, netuid, nominators, cs, left, gw, ta, tg, n);
        let paid = nominator_payouts(hotkey, netuid, nominators, cs, left, gw, ta, tg, n);
        assert forall|i: int| #![trigger nominators[i]] 0 <= i < nominators.len() implies near_exact_share(
            0,
            left,
            o - gw,
            gw,
            get_or(alpha, (hotkey, nominators[i].0, netuid), 0u64) as int,
            nominators[i].1 as int,
            big_ta,
            big_tg,
        ) || exists|j: int|
            #![trigger d[j]]
            0 <= j < d.len() - 1 && d[j] == (hotkey, nominators[i].0, netuid, d[j].3) && near_exact_share(
                d[j].3 as int,
                left,
                o - gw,
                gw,
                get_or(alpha, (hotkey, nominators[i].0, netuid), 0u64) as int,
                nominators[i].1 as int,
                big_ta,
                big_tg,
            ) by {
            let c = cs[i];
            let big_a = get_or(alpha, (hotkey, nominators[i].0, netuid), 0u64) as int;
            let big_g = nominators[i].1 as int;
            assert(c == (big_a * o, big_g * o));
            lemma_sum_prefix(cs, i + 1);
            lemma_sum_prefix(cs, i);
            assert(cs.take(i + 1).drop_last() =~= cs.take(i));
            assert(cs.take(i + 1).last() == cs[i]);
            lemma_share_amount_bound(c, left, aw, left, gw, ta, tg);
            lemma_share_amount_lower(c, left, aw, left, gw, ta, tg);
            let a = share_amount(c, left, aw, left, gw, ta, tg);
            assert(near_exact_share(a, left, o - gw, gw, c.0, c.1, ta, tg));
            lemma_near_exact_share_scaled(a, left, o - gw, gw, big_a, big_g, big_ta, big_tg, o);
            if a > 0 {
                assert(ta > 0 || tg > 0);
                assert(d.drop_last() =~= paid);
                lemma_weighted_share(left, aw, c.0, ta);
                lemma_weighted_share(left, gw, c.1, tg);
                let x = clamp(weighted_share(left, aw, c.0, ta) + weighted_share(left, gw, c.1, tg));
                lemma_clamp_nonneg(weighted_share(left, aw, c.0, ta) + weighted_share(left, gw, c.1, tg));
                vstd::arithmetic::div_mod::lemma_fundamental_div_mod(x, o);
                vstd::arithmetic::div_mod::lemma_mod_bound(x, o);
                assert(a * o <= emission * o);
                vstd::arithmetic::mul::lemma_mul_inequality_converse(a, emission as int, o);
                let t = (hotkey, nominators[i].0, netuid, a as u64);
                assert(paid.contains(t));
                let j = choose|j: int| 0 <= j < paid.len() && paid[j] == t;
                assert(d[j] == paid[j]);
                assert(d[j].3 as int == a);
            }
        }
    }
}

} // verus!
