//! The coinbase: block emission into subnets, subnet emission through epochs
//! to hotkeys, and hotkey emission through to nominators.
use crate::fixed::{
    clamp, div_exact, floor_num, from_int, fx_checked_div, fx_checked_mul, fx_from_u64,
    fx_saturating_div, fx_saturating_mul, fx_to_u64, in_range, lemma_div_exact_nonneg,
    lemma_mul_exact_by_int, mul_exact, one_bits, fixed_max,
};
use crate::hotkeys::{hotkey_distribution, hotkey_payout_sum, sat_add_u64, ParentStake};
use crate::nominators::{nominator_contributions, nominator_distribution, payout_sum};
use crate::shares::{sum_alpha, sum_global};
use crate::pallet::{get_or, read_u64, Pallet};
use crate::schedule::{drains_at, epoch_countdown};
use crate::table::{keys_distinct, seq_has_key, Table};
use crate::types::AccountId;
use vstd::prelude::*;

verus! {

/// The pending hotkey emission after adding each tuple's amount to the entry of
/// its (hotkey, netuid), in order, saturating.
pub open spec fn accumulate_pending(
    m: Map<(AccountId, u16), u64>,
    tuples: Seq<(AccountId, u16, u64)>,
) -> Map<(AccountId, u16), u64>
    decreases tuples.len(),
{
    if tuples.len() == 0 {
        m
    } else {
        let m1 = accumulate_pending(m, tuples.drop_last());
        let t = tuples.last();
        m1.insert((t.0, t.1), sat_add_u64(get_or(m1, (t.0, t.1), 0u64) as int, t.2 as int) as u64)
    }
}

/// The sum of the amounts of the tuples for one (hotkey, netuid).
pub open spec fn key_emission_sum(tuples: Seq<(AccountId, u16, u64)>, key: (AccountId, u16)) -> int
    decreases tuples.len(),
{
    if tuples.len() == 0 {
        0
    } else {
        key_emission_sum(tuples.drop_last(), key) + if (tuples.last().0, tuples.last().1) == key {
            tuples.last().2 as int
        } else {
            0
        }
    }
}

/// Accumulating hotkey emission adds to each (hotkey, netuid) the sum of its
/// tuples, saturating at `u64::MAX`, whatever the order of the tuples; keys
/// without a tuple keep their value.
pub proof fn lemma_accumulate_pending(
    m: Map<(AccountId, u16), u64>,
    tuples: Seq<(AccountId, u16, u64)>,
    key: (AccountId, u16),
)
    ensures
        get_or(accumulate_pending(m, tuples), key, 0u64) == if get_or(m, key, 0u64) + key_emission_sum(
            tuples,
            key,
        ) > u64::MAX {
            u64::MAX as int
        } else {
            get_or(m, key, 0u64) + key_emission_sum(tuples, key)
        },
        key_emission_sum(tuples, key) >= 0,
    decreases tuples.len(),
{
    if tuples.len() > 0 {
        lemma_accumulate_pending(m, tuples.drop_last(), key);
    }
}

/// Some tuple names (hotkey, netuid) `key`.
pub open spec fn key_named(tuples: Seq<(AccountId, u16, u64)>, key: (AccountId, u16)) -> bool {
    exists|i: int| 0 <= i < tuples.len() && (#[trigger] tuples[i].0, tuples[i].1) == key
}

/// Accumulating two lists one after the other is accumulating their
/// concatenation; accumulating nothing changes nothing.
pub proof fn lemma_accumulate_concat(
    m: Map<(AccountId, u16), u64>,
    a: Seq<(AccountId, u16, u64)>,
    b: Seq<(AccountId, u16, u64)>,
)
    ensures
        accumulate_pending(m, Seq::empty()) == m,
        accumulate_pending(m, a + b) == accumulate_pending(accumulate_pending(m, a), b),
    decreases b.len(),
{
    if b.len() == 0 {
        assert(a + b =~= a);
    } else {
        lemma_accumulate_concat(m, a, b.drop_last());
        assert((a + b).drop_last() =~= a + b.drop_last());
        assert((a + b).last() == b.last());
    }
}

/// A key is in the accumulated pending emission exactly when it was there or a tuple names it.
pub proof fn lemma_accumulate_keys(
    m: Map<(AccountId, u16), u64>,
    tuples: Seq<(AccountId, u16, u64)>,
    key: (AccountId, u16),
)
    ensures
        accumulate_pending(m, tuples).contains_key(key) <==> m.contains_key(key) || key_named(tuples, key),
    decreases tuples.len(),
{
    if tuples.len() > 0 {
        let prev = tuples.drop_last();
        lemma_accumulate_keys(m, prev, key);
        let t = tuples.last();
        assert(t == tuples[tuples.len() - 1]);
        if key_named(prev, key) {
            let i = choose|i: int| 0 <= i < prev.len() && (#[trigger] prev[i].0, prev[i].1) == key;
            assert(tuples[i] == prev[i]);
        }
        if key_named(tuples, key) && (t.0, t.1) != key {
            let i = choose|i: int| 0 <= i < tuples.len() && (#[trigger] tuples[i].0, tuples[i].1) == key;
            assert(prev[i] == tuples[i]);
        }
    }
}

/// Taking one tuple out of a list takes its amount out of its key's sum.
pub proof fn lemma_key_sum_remove(tuples: Seq<(AccountId, u16, u64)>, j: int, key: (AccountId, u16))
    requires
        0 <= j < tuples.len(),
    ensures
        key_emission_sum(tuples, key) == key_emission_sum(tuples.remove(j), key) + if (
        tuples[j].0, tuples[j].1) == key {
            tuples[j].2 as int
        } else {
            0
        },
    decreases tuples.len(),
{
    if j == tuples.len() - 1 {
        assert(tuples.remove(j) =~= tuples.drop_last());
    } else {
        lemma_key_sum_remove(tuples.drop_last(), j, key);
        assert(tuples.remove(j).drop_last() =~= tuples.drop_last().remove(j));
        assert(tuples.remove(j).last() == tuples.last());
    }
}

/// Lists with the same tuples, in any order, give each key the same sum and name the same keys.
pub proof fn lemma_key_sum_permutation(
    s1: Seq<(AccountId, u16, u64)>,
    s2: Seq<(AccountId, u16, u64)>,
    key: (AccountId, u16),
)
    requires
        s1.to_multiset() == s2.to_multiset(),
    ensures
        key_emission_sum(s1, key) == key_emission_sum(s2, key),
        key_named(s1, key) <==> key_named(s2, key),
    decreases s1.len(),
{
    broadcast use vstd::seq_lib::group_to_multiset_ensures;
    assert(s1.to_multiset().len() == s1.len());
    assert(s2.to_multiset().len() == s2.len());
    assert(s1.len() == s2.len());
    if key_named(s1, key) {
        let i = choose|i: int| 0 <= i < s1.len() && (#[trigger] s1[i].0, s1[i].1) == key;
        assert(s1.contains(s1[i]));
        assert(s2.to_multiset().count(s1[i]) > 0);
        assert(s2.contains(s1[i]));
        let j = choose|j: int| 0 <= j < s2.len() && s2[j] == s1[i];
        assert((s2[j].0, s2[j].1) == key);
    }
    if key_named(s2, key) {
        let i = choose|i: int| 0 <= i < s2.len() && (#[trigger] s2[i].0, s2[i].1) == key;
        assert(s2.contains(s2[i]));
        assert(s1.to_multiset().count(s2[i]) > 0);
        assert(s1.contains(s2[i]));
        let j = choose|j: int| 0 <= j < s1.len() && s1[j] == s2[i];
        assert((s1[j].0, s1[j].1) == key);
    }
    if s1.len() > 0 {
        let x = s1.last();
        let p1 = s1.drop_last();
        assert(p1.push(x) =~= s1);
        assert(s1.to_multiset() =~= p1.to_multiset().insert(x));
        assert(s1.contains(x));
        assert(s2.to_multiset().count(x) > 0);
        assert(s2.contains(x));
        let j = choose|j: int| 0 <= j < s2.len() && s2[j] == x;
        let p2 = s2.remove(j);
        assert(p2.to_multiset() =~= s2.to_multiset().remove(x));
        assert(p1.to_multiset() =~= p1.to_multiset().insert(x).remove(x));
        assert(p1.to_multiset() == p2.to_multiset());
        lemma_key_sum_permutation(p1, p2, key);
        lemma_key_sum_remove(s2, j, key);
    } else {
        assert(s2.len() == 0);
    }
}

/// Accumulating the same tuples in any order leaves the same pending emission.
pub proof fn lemma_accumulate_permutation(
    m: Map<(AccountId, u16), u64>,
    s1: Seq<(AccountId, u16, u64)>,
    s2: Seq<(AccountId, u16, u64)>,
)
    requires
        s1.to_multiset() == s2.to_multiset(),
    ensures
        accumulate_pending(m, s1) == accumulate_pending(m, s2),
{
    let r1 = accumulate_pending(m, s1);
    let r2 = accumulate_pending(m, s2);
    assert forall|k: (AccountId, u16)| #[trigger] r1.contains_key(k) == r2.contains_key(k) && (r1.contains_key(k) ==> r1[k] == r2[k]) by {
        lemma_key_sum_permutation(s1, s2, k);
        lemma_accumulate_keys(m, s1, k);
        lemma_accumulate_keys(m, s2, k);
        lemma_accumulate_pending(m, s1, k);
        lemma_accumulate_pending(m, s2, k);
    }
    assert(r1 =~= r2);
}

/// `Alpha` after emitting each nominator tuple into its (hotkey, coldkey, netuid), saturating.
pub open spec fn emit_alpha(
    alpha: Map<(AccountId, AccountId, u16), u64>,
    tuples: Seq<(AccountId, AccountId, u16, u64)>,
) -> Map<(AccountId, AccountId, u16), u64>
    decreases tuples.len(),
{
    if tuples.len() == 0 {
        alpha
    } else {
        let m = emit_alpha(alpha, tuples.drop_last());
        let t = tuples.last();
        m.insert((t.0, t.1, t.2), sat_add_u64(get_or(m, (t.0, t.1, t.2), 0u64) as int, t.3 as int) as u64)
    }
}

/// `TotalHotkeyAlpha` after emitting each nominator tuple into its (hotkey, netuid), saturating.
pub open spec fn emit_total_hotkey_alpha(
    total: Map<(AccountId, u16), u64>,
    tuples: Seq<(AccountId, AccountId, u16, u64)>,
) -> Map<(AccountId, u16), u64>
    decreases tuples.len(),
{
    if tuples.len() == 0 {
        total
    } else {
        let m = emit_total_hotkey_alpha(total, tuples.drop_last());
        let t = tuples.last();
        m.insert((t.0, t.2), sat_add_u64(get_or(m, (t.0, t.2), 0u64) as int, t.3 as int) as u64)
    }
}

/// A subnet's share of the issuance: `subnet_tao / total_issuance` with
/// `checked_div`, zero where it has no result.
pub open spec fn subnet_proportion(subnet_tao: u64, total_issuance: u64) -> int {
    let q = div_exact(from_int(subnet_tao as int), from_int(total_issuance as int));
    if total_issuance != 0 && in_range(q) {
        q
    } else {
        0
    }
}

/// A subnet's TAO emission in a block: its proportion of `block_emission`,
/// with `checked_mul` (zero where it has no result), cut to an integer.
pub open spec fn subnet_tao_emission(subnet_tao: u64, total_issuance: u64, block_emission: u64) -> int {
    let p = mul_exact(subnet_proportion(subnet_tao, total_issuance), from_int(block_emission as int));
    floor_num(if in_range(p) { p } else { 0 })
}

/// `SubnetTAO` after the block emission reached the subnets of `subnets`, in order.
pub open spec fn subnet_tao_after(
    tao: Map<u16, u64>,
    subnets: Seq<u16>,
    total_issuance: u64,
    block_emission: u64,
) -> Map<u16, u64>
    decreases subnets.len(),
{
    if subnets.len() == 0 {
        tao
    } else {
        let m = subnet_tao_after(tao, subnets.drop_last(), total_issuance, block_emission);
        let n = subnets.last();
        if n == 0 {
            m
        } else {
            m.insert(
                n,
                sat_add_u64(
                    get_or(m, n, 0u64) as int,
                    subnet_tao_emission(get_or(m, n, 0u64), total_issuance, block_emission),
                ) as u64,
            )
        }
    }
}

/// The TAO emission of the last subnet of `subnets`, from `SubnetTAO` as the
/// subnets before it left it.
pub open spec fn last_tao_emission(
    tao: Map<u16, u64>,
    subnets: Seq<u16>,
    total_issuance: u64,
    block_emission: u64,
) -> int {
    subnet_tao_emission(
        get_or(
            subnet_tao_after(tao, subnets.drop_last(), total_issuance, block_emission),
            subnets.last(),
            0u64,
        ),
        total_issuance,
        block_emission,
    )
}

/// No subnet's TAO emission overflows a `u64` (where it would, `to_num` panics).
pub open spec fn tao_emissions_fit(
    tao: Map<u16, u64>,
    subnets: Seq<u16>,
    total_issuance: u64,
    block_emission: u64,
) -> bool {
    forall|i: int|
        0 <= i < subnets.len() && subnets[i] != 0 ==> #[trigger] last_tao_emission(
            tao,
            subnets.take(i + 1),
            total_issuance,
            block_emission,
        ) <= u64::MAX
}

/// `EmissionValues` after the block emission reached `subnets`.
pub open spec fn emission_values_after(
    values: Map<u16, u64>,
    tao: Map<u16, u64>,
    subnets: Seq<u16>,
    total_issuance: u64,
    block_emission: u64,
) -> Map<u16, u64>
    decreases subnets.len(),
{
    if subnets.len() == 0 {
        values
    } else {
        let m = emission_values_after(values, tao, subnets.drop_last(), total_issuance, block_emission);
        if subnets.last() == 0 {
            m
        } else {
            m.insert(subnets.last(), last_tao_emission(tao, subnets, total_issuance, block_emission) as u64)
        }
    }
}

/// A total (`TotalStake` or `TotalIssuance`) after each subnet's TAO emission was added, saturating.
pub open spec fn total_after(
    total: u64,
    tao: Map<u16, u64>,
    subnets: Seq<u16>,
    total_issuance: u64,
    block_emission: u64,
) -> u64
    decreases subnets.len(),
{
    if subnets.len() == 0 {
        total
    } else {
        let t = total_after(total, tao, subnets.drop_last(), total_issuance, block_emission);
        if subnets.last() == 0 {
            t
        } else {
            sat_add_u64(t as int, last_tao_emission(tao, subnets, total_issuance, block_emission)) as u64
        }
    }
}

/// `SubnetAlphaIn` after the block emission: each dynamic subnet (mechanism 1)
/// gets the whole block emission into its pool, saturating.
pub open spec fn alpha_in_after(
    alpha_in: Map<u16, u64>,
    mechanism: Map<u16, u16>,
    subnets: Seq<u16>,
    block_emission: u64,
) -> Map<u16, u64>
    decreases subnets.len(),
{
    if subnets.len() == 0 {
        alpha_in
    } else {
        let m = alpha_in_after(alpha_in, mechanism, subnets.drop_last(), block_emission);
        let n = subnets.last();
        if n != 0 && get_or(mechanism, n, 0u16) == 1 {
            m.insert(n, sat_add_u64(get_or(m, n, 0u64) as int, block_emission as int) as u64)
        } else {
            m
        }
    }
}

/// `PendingEmission` after the block emission: a dynamic subnet gains the whole
/// block emission, any other its TAO emission, saturating.
pub open spec fn pending_emission_after(
    pending: Map<u16, u64>,
    mechanism: Map<u16, u16>,
    tao: Map<u16, u64>,
    subnets: Seq<u16>,
    total_issuance: u64,
    block_emission: u64,
) -> Map<u16, u64>
    decreases subnets.len(),
{
    if subnets.len() == 0 {
        pending
    } else {
        let m = pending_emission_after(
            pending,
            mechanism,
            tao,
            subnets.drop_last(),
            total_issuance,
            block_emission,
        );
        let n = subnets.last();
        if n == 0 {
            m
        } else if get_or(mechanism, n, 0u16) == 1 {
            m.insert(n, sat_add_u64(get_or(m, n, 0u64) as int, block_emission as int) as u64)
        } else {
            m.insert(
                n,
                sat_add_u64(
                    get_or(m, n, 0u64) as int,
                    last_tao_emission(tao, subnets, total_issuance, block_emission),
                ) as u64,
            )
        }
    }
}

/// A subnet whose TAO does not exceed the total issuance never gets more than
/// the block emission.
pub proof fn lemma_subnet_emission_within_block(subnet_tao: u64, total_issuance: u64, block_emission: u64)
    requires
        subnet_tao <= total_issuance,
    ensures
        0 <= subnet_tao_emission(subnet_tao, total_issuance, block_emission) <= block_emission,
{
    let q = subnet_proportion(subnet_tao, total_issuance);
    if total_issuance != 0 {
        crate::nominators::lemma_proportion(subnet_tao as int, total_issuance as int);
        lemma_div_exact_nonneg(from_int(subnet_tao as int), from_int(total_issuance as int));
    }
    assert(0 <= q <= one_bits());
    lemma_mul_exact_by_int(q, block_emission as int);
    let p = q * block_emission;
    assert(0 <= p <= one_bits() * block_emission) by (nonlinear_arith)
        requires
            0 <= q <= one_bits(),
            0 <= block_emission,
            p == q * block_emission,
    ;
    vstd::arithmetic::div_mod::lemma_div_is_ordered(p, one_bits() * block_emission, one_bits());
    vstd::arithmetic::div_mod::lemma_div_pos_is_pos(p, one_bits());
    assert(one_bits() * block_emission == block_emission * one_bits()) by (nonlinear_arith);
    vstd::arithmetic::div_mod::lemma_div_multiples_vanish(block_emission as int, one_bits());
}

/// The root network (subnet 0) receives none of the block emission: its
/// `SubnetTAO`, `EmissionValues`, `SubnetAlphaIn` and `PendingEmission` stay as they were.
pub proof fn lemma_root_gets_no_block_emission(
    tao: Map<u16, u64>,
    values: Map<u16, u64>,
    alpha_in: Map<u16, u64>,
    pending: Map<u16, u64>,
    mechanism: Map<u16, u16>,
    subnets: Seq<u16>,
    total_issuance: u64,
    block_emission: u64,
)
    ensures
        get_or(subnet_tao_after(tao, subnets, total_issuance, block_emission), 0, 0u64) == get_or(tao, 0, 0u64),
        get_or(emission_values_after(values, tao, subnets, total_issuance, block_emission), 0, 0u64)
            == get_or(values, 0, 0u64),
        get_or(alpha_in_after(alpha_in, mechanism, subnets, block_emission), 0, 0u64) == get_or(alpha_in, 0, 0u64),
        get_or(pending_emission_after(pending, mechanism, tao, subnets, total_issuance, block_emission), 0, 0u64)
            == get_or(pending, 0, 0u64),
    decreases subnets.len(),
{
    if subnets.len() > 0 {
        lemma_root_gets_no_block_emission(
            tao,
            values,
            alpha_in,
            pending,
            mechanism,
            subnets.drop_last(),
            total_issuance,
            block_emission,
        );
    }
}

/// A subnet not among `subnets` keeps its pending emission.
pub proof fn lemma_pending_untouched(
    pending: Map<u16, u64>,
    mechanism: Map<u16, u16>,
    tao: Map<u16, u64>,
    subnets: Seq<u16>,
    total_issuance: u64,
    block_emission: u64,
    n: u16,
)
    requires
        !subnets.contains(n),
    ensures
        get_or(pending_emission_after(pending, mechanism, tao, subnets, total_issuance, block_emission), n, 0u64)
            == get_or(pending, n, 0u64),
    decreases subnets.len(),
{
    if subnets.len() > 0 {
        let prev = subnets.drop_last();
        assert(!prev.contains(n)) by {
            if prev.contains(n) {
                let i = choose|i: int| 0 <= i < prev.len() && prev[i] == n;
                assert(subnets[i] == n);
            }
        }
        assert(subnets.last() != n) by {
            assert(subnets[subnets.len() - 1] == subnets.last());
        }
        lemma_pending_untouched(pending, mechanism, tao, prev, total_issuance, block_emission, n);
    }
}

/// The block emission never takes pending emission away from a subnet.
pub proof fn lemma_pending_never_decreases(
    pending: Map<u16, u64>,
    mechanism: Map<u16, u16>,
    tao: Map<u16, u64>,
    subnets: Seq<u16>,
    total_issuance: u64,
    block_emission: u64,
    n: u16,
)
    ensures
        get_or(pending_emission_after(pending, mechanism, tao, subnets, total_issuance, block_emission), n, 0u64)
            >= get_or(pending, n, 0u64),
    decreases subnets.len(),
{
    if subnets.len() > 0 {
        lemma_pending_never_decreases(pending, mechanism, tao, subnets.drop_last(), total_issuance, block_emission, n);
        lemma_subnet_emission_nonneg(
            get_or(subnet_tao_after(tao, subnets.drop_last(), total_issuance, block_emission), subnets.last(), 0u64),
            total_issuance,
            block_emission,
        );
    }
}

/// A dynamic subnet (mechanism 1, not the root) listed once gains the whole
/// block emission on top of what it had pending, saturating.
pub proof fn lemma_dynamic_pending_gains_block(
    pending: Map<u16, u64>,
    mechanism: Map<u16, u16>,
    tao: Map<u16, u64>,
    subnets: Seq<u16>,
    total_issuance: u64,
    block_emission: u64,
    n: u16,
)
    requires
        n != 0,
        get_or(mechanism, n, 0u16) == 1,
        subnets.contains(n),
        subnets.no_duplicates(),
    ensures
        get_or(pending_emission_after(pending, mechanism, tao, subnets, total_issuance, block_emission), n, 0u64)
            == if get_or(pending, n, 0u64) + block_emission > u64::MAX {
            u64::MAX as int
        } else {
            get_or(pending, n, 0u64) + block_emission
        },
    decreases subnets.len(),
{
    let prev = subnets.drop_last();
    assert(subnets[subnets.len() - 1] == subnets.last());
    assert(prev.no_duplicates()) by {
        assert forall|i: int, j: int| 0 <= i < prev.len() && 0 <= j < prev.len() && i != j implies prev[i] != prev[j] by {
            assert(prev[i] == subnets[i] && prev[j] == subnets[j]);
        }
    }
    if subnets.last() == n {
        assert(!prev.contains(n)) by {
            if prev.contains(n) {
                let i = choose|i: int| 0 <= i < prev.len() && prev[i] == n;
                assert(subnets[i] == subnets[subnets.len() - 1]);
            }
        }
        lemma_pending_untouched(pending, mechanism, tao, prev, total_issuance, block_emission, n);
    } else {
        assert(prev.contains(n)) by {
            let i = choose|i: int| 0 <= i < subnets.len() && subnets[i] == n;
            assert(i != subnets.len() - 1);
            assert(prev[i] == n);
        }
        lemma_dynamic_pending_gains_block(pending, mechanism, tao, prev, total_issuance, block_emission, n);
    }
}

/// A subnet's TAO emission is never negative.
pub proof fn lemma_subnet_emission_nonneg(subnet_tao: u64, total_issuance: u64, block_emission: u64)
    ensures
        0 <= subnet_tao_emission(subnet_tao, total_issuance, block_emission),
{
    let q = subnet_proportion(subnet_tao, total_issuance);
    if total_issuance != 0 {
        lemma_div_exact_nonneg(from_int(subnet_tao as int), from_int(total_issuance as int));
    }
    assert(0 <= q);
    lemma_mul_exact_by_int(q, block_emission as int);
    let p = q * block_emission;
    assert(0 <= p) by (nonlinear_arith)
        requires
            0 <= q,
            0 <= block_emission,
            p == q * block_emission,
    ;
    vstd::arithmetic::div_mod::lemma_div_pos_is_pos(p, one_bits());
}

/// The owners' cut of a subnet's emission: `emission * cut / u16::MAX` in fixed
/// point, saturating, cut to an integer.
pub open spec fn owner_cut_of(emission: u64, cut: u16) -> int {
    floor_num(
        clamp(
            div_exact(
                clamp(mul_exact(from_int(emission as int), from_int(cut as int))),
                from_int(u16::MAX as int),
            ),
        ),
    )
}

/// The owners' cut never exceeds the emission it is cut from.
pub proof fn lemma_owner_cut(emission: u64, cut: u16)
    ensures
        0 <= owner_cut_of(emission, cut) <= emission,
{
    let e = from_int(emission as int);
    lemma_mul_exact_by_int(e, cut as int);
    let x = e * cut;
    assert(0 <= x <= e * u16::MAX) by (nonlinear_arith)
        requires
            x == e * cut,
            0 <= e,
            0 <= cut <= u16::MAX,
    ;
    assert(e * u16::MAX <= fixed_max());
    let d = from_int(u16::MAX as int);
    lemma_div_exact_nonneg(x, d);
    let q = div_exact(x, d);
    assert(x * one_bits() <= e * d) by (nonlinear_arith)
        requires
            x <= e * u16::MAX,
            d == u16::MAX * one_bits(),
            0 <= x,
    ;
    vstd::arithmetic::div_mod::lemma_div_is_ordered(x * one_bits(), e * d, d);
    vstd::arithmetic::div_mod::lemma_div_multiples_vanish(e, d);
    assert(e * d == d * e) by (nonlinear_arith);
    assert(q <= e);
    vstd::arithmetic::div_mod::lemma_div_is_ordered(q, e, one_bits());
    vstd::arithmetic::div_mod::lemma_div_multiples_vanish(emission as int, one_bits());
    vstd::arithmetic::div_mod::lemma_div_pos_is_pos(q, one_bits());
}

/// The owners' cut is the emission times the cut over `u16::MAX`, rounded down:
/// `c * 65535 <= emission * cut < (c + 1) * 65535`.
pub proof fn lemma_owner_cut_exact(emission: u64, cut: u16)
    ensures
        owner_cut_of(emission, cut) == (emission * cut) / (u16::MAX as int),
        owner_cut_of(emission, cut) * 65535 <= emission * cut < (owner_cut_of(emission, cut) + 1) * 65535,
{
    let e = emission as int;
    let k = cut as int;
    let o = one_bits();
    lemma_mul_exact_by_int(from_int(e), k);
    let x = from_int(e) * k;
    assert(x == (e * k) * o) by (nonlinear_arith)
        requires
            x == from_int(e) * k,
            from_int(e) == e * o,
    ;
    assert(0 <= e * k <= 0xffff_ffff_ffff_ffff * 0xffff) by (nonlinear_arith)
        requires
            0 <= e <= 0xffff_ffff_ffff_ffff,
            0 <= k <= 0xffff,
    ;
    assert(clamp(x) == x);
    let d = from_int(u16::MAX as int);
    lemma_div_exact_nonneg(x, d);
    // (e k o o) / (65535 o) == (e k o) / 65535
    assert(x * o == (e * k * o) * o) by (nonlinear_arith)
        requires
            x == (e * k) * o,
    ;
    crate::fixed::lemma_div_cancel(e * k * o, 65535, o);
    let y = (e * k * o) / 65535;
    assert(div_exact(x, d) == y);
    assert(0 <= y <= e * k * o) by {
        vstd::arithmetic::div_mod::lemma_div_pos_is_pos(e * k * o, 65535);
        vstd::arithmetic::div_mod::lemma_div_is_ordered_by_denominator(e * k * o, 1, 65535);
    }
    assert(clamp(y) == y);
    vstd::arithmetic::div_mod::lemma_div_denominator(e * k * o, 65535, o);
    crate::fixed::lemma_div_cancel(e * k, 65535, o);
    assert(owner_cut_of(emission, cut) == (e * k) / 65535);
    vstd::arithmetic::div_mod::lemma_fundamental_div_mod(e * k, 65535);
    vstd::arithmetic::div_mod::lemma_mod_bound(e * k, 65535);
}

/// The hotkey tuples that sourcing each epoch output produces, in order: output
/// `i` is `(hotkey, mining_emission, validator_emission)` and has `parents[i]`.
pub open spec fn epoch_tuples(
    delegates: Map<AccountId, u16>,
    netuid: u16,
    outputs: Seq<(AccountId, u64, u64)>,
    parents: Seq<Vec<ParentStake>>,
    global_weight: int,
) -> Seq<(AccountId, u16, u64)>
    decreases outputs.len(),
{
    if outputs.len() == 0 {
        Seq::empty()
    } else {
        let o = outputs.last();
        epoch_tuples(delegates, netuid, outputs.drop_last(), parents, global_weight) + hotkey_distribution(
            delegates,
            o.0,
            netuid,
            o.2,
            o.1,
            parents[outputs.len() - 1]@,
            global_weight,
        )
    }
}

/// The emission limit after each epoch output added its validator and mining
/// emission, saturating.
pub open spec fn hotkey_limit_after(limit: u64, outputs: Seq<(AccountId, u64, u64)>) -> u64
    decreases outputs.len(),
{
    if outputs.len() == 0 {
        limit
    } else {
        let o = outputs.last();
        sat_add_u64(
            hotkey_limit_after(limit, outputs.drop_last()) as int,
            sat_add_u64(o.2 as int, o.1 as int),
        ) as u64
    }
}

/// The pending entries that a drain at `block` leaves, in order.
pub open spec fn kept_entries(s: Seq<((AccountId, u16), u64)>, block: u64, emit_tempo: u64) -> Seq<
    ((AccountId, u16), u64),
>
    decreases s.len(),
{
    if s.len() == 0 {
        Seq::empty()
    } else {
        let prev = kept_entries(s.drop_last(), block, emit_tempo);
        if drains_at(s.last().0.0.hash, block, emit_tempo) {
            prev
        } else {
            prev.push(s.last())
        }
    }
}

/// The pending entries that a drain at `block` takes, as `(hotkey, netuid, amount)`, in order.
pub open spec fn drained_entries(s: Seq<((AccountId, u16), u64)>, block: u64, emit_tempo: u64) -> Seq<
    (AccountId, u16, u64),
>
    decreases s.len(),
{
    if s.len() == 0 {
        Seq::empty()
    } else {
        let prev = drained_entries(s.drop_last(), block, emit_tempo);
        let e = s.last();
        if drains_at(e.0.0.hash, block, emit_tempo) {
            prev.push((e.0.0, e.0.1, e.1))
        } else {
            prev
        }
    }
}

/// `LastHotkeyEmissionDrain` after recording `block` for each hotkey of the
/// pending entries `s` that drains at `block`.
pub open spec fn drain_records(
    last: Map<AccountId, u64>,
    s: Seq<((AccountId, u16), u64)>,
    block: u64,
    emit_tempo: u64,
) -> Map<AccountId, u64>
    decreases s.len(),
{
    if s.len() == 0 {
        last
    } else {
        let m = drain_records(last, s.drop_last(), block, emit_tempo);
        if drains_at(s.last().0.0.hash, block, emit_tempo) {
            m.insert(s.last().0.0, block)
        } else {
            m
        }
    }
}

/// The sum of the amounts of pending entries.
pub open spec fn pending_sum(s: Seq<((AccountId, u16), u64)>) -> int
    decreases s.len(),
{
    if s.len() == 0 {
        0
    } else {
        pending_sum(s.drop_last()) + s.last().1
    }
}

/// Draining moves pending emission out, never creating or losing any: what is
/// drained and what is kept add up to what was pending.
pub proof fn lemma_drain_conserves(s: Seq<((AccountId, u16), u64)>, block: u64, emit_tempo: u64)
    ensures
        pending_sum(kept_entries(s, block, emit_tempo)) + hotkey_payout_sum(
            drained_entries(s, block, emit_tempo),
        ) == pending_sum(s),
    decreases s.len(),
{
    if s.len() > 0 {
        lemma_drain_conserves(s.drop_last(), block, emit_tempo);
        let kp = kept_entries(s.drop_last(), block, emit_tempo);
        let dp = drained_entries(s.drop_last(), block, emit_tempo);
        let e = s.last();
        if drains_at(e.0.0.hash, block, emit_tempo) {
            assert(dp.push((e.0.0, e.0.1, e.1)).drop_last() =~= dp);
        } else {
            assert(kp.push(e).drop_last() =~= kp);
        }
    }
}

/// Every entry that a drain keeps is an entry of the table, and none of them drains.
pub proof fn lemma_kept_entries(s: Seq<((AccountId, u16), u64)>, block: u64, emit_tempo: u64)
    ensures
        forall|k: int|
            0 <= k < kept_entries(s, block, emit_tempo).len() ==> exists|j: int|
                0 <= j < s.len() && s[j] == #[trigger] kept_entries(s, block, emit_tempo)[k],
        forall|k: int|
            0 <= k < kept_entries(s, block, emit_tempo).len() ==> !drains_at(
                #[trigger] kept_entries(s, block, emit_tempo)[k].0.0.hash,
                block,
                emit_tempo,
            ),
    decreases s.len(),
{
    if s.len() > 0 {
        let prev = s.drop_last();
        lemma_kept_entries(prev, block, emit_tempo);
        let kp = kept_entries(prev, block, emit_tempo);
        let kk = kept_entries(s, block, emit_tempo);
        assert forall|k: int| 0 <= k < kk.len() implies exists|j: int|
            0 <= j < s.len() && s[j] == #[trigger] kk[k] by {
            if k < kp.len() {
                assert(kk[k] == kp[k]);
                let j = choose|j: int| 0 <= j < prev.len() && prev[j] == #[trigger] kp[k];
                assert(s[j] == prev[j]);
            } else {
                assert(kk[k] == s[s.len() - 1]);
            }
        }
        assert forall|k: int| 0 <= k < kk.len() implies !drains_at(
            #[trigger] kk[k].0.0.hash,
            block,
            emit_tempo,
        ) by {
            if k < kp.len() {
                assert(kk[k] == kp[k]);
            }
        }
    }
}

/// The nominator tuples that sourcing each drained entry produces, in order:
/// entry `i` is `(hotkey, netuid, amount)` and has `nominators[i]`.
pub open spec fn drained_tuples(
    delegates: Map<AccountId, u16>,
    owner: Map<AccountId, AccountId>,
    alpha: Map<(AccountId, AccountId, u16), u64>,
    drained: Seq<(AccountId, u16, u64)>,
    nominators: Seq<Vec<(AccountId, u64)>>,
    global_weight: int,
) -> Seq<(AccountId, AccountId, u16, u64)>
    decreases drained.len(),
{
    if drained.len() == 0 {
        Seq::empty()
    } else {
        let d = drained.last();
        drained_tuples(delegates, owner, alpha, drained.drop_last(), nominators, global_weight)
            + nominator_distribution(
            delegates,
            owner,
            alpha,
            d.0,
            d.1,
            d.2,
            nominators[drained.len() - 1]@,
            global_weight,
        )
    }
}

/// The nominator emission limit after each drained entry added its amount, saturating.
pub open spec fn nominator_limit_after(limit: u64, drained: Seq<(AccountId, u16, u64)>) -> u64
    decreases drained.len(),
{
    if drained.len() == 0 {
        limit
    } else {
        sat_add_u64(nominator_limit_after(limit, drained.drop_last()) as int, drained.last().2 as int) as u64
    }
}

impl Pallet {
    /// The TAO emission of subnet `netuid` in the last block (`EmissionValues`).
    pub fn get_subnet_emission_value(&self, netuid: u16) -> (r: u64)
        ensures
            r == get_or(self.emission_values@, netuid, 0u64),
    {
        read_u64(&self.emission_values, &netuid)
    }

    /// The emission pending for `hotkey` on subnet `netuid`
    /// (`PendingdHotkeyEmissionOnNetuid`), accumulated by the coinbase until the
    /// hotkey is drained.
    pub fn get_pending_hotkey_emission_on_netuid(&self, hotkey: &AccountId, netuid: u16) -> (r: u64)
        ensures
            r == get_or(self.pending_hotkey_emission@, (*hotkey, netuid), 0u64),
    {
        read_u64(&self.pending_hotkey_emission, &(*hotkey, netuid))
    }

    /// Steps 5.1 to 5.3 of the coinbase for one subnet: where subnet `netuid`
    /// runs its epoch at `current_block`, drains its `PendingEmission`, resets
    /// its `BlocksSinceLastStep`, records `current_block` as its last step, and
    /// returns the owners' cut of the drained emission and what remains for the
    /// epoch. Otherwise changes nothing and returns `None`.
    pub fn drain_subnet_emission(&mut self, netuid: u16, current_block: u64) -> (r: Option<(u64, u64)>)
        ensures
            epoch_countdown(netuid, get_or(old(self).tempo@, netuid, 0u16), current_block) == 0 ==> {
                let e = get_or(old(self).pending_emission@, netuid, 0u64);
                let cut = owner_cut_of(e, old(self).subnet_owner_cut);
                &&& r == Some((cut as u64, (e - cut) as u64))
                &&& final(self).pending_emission@ == old(self).pending_emission@.insert(netuid, 0)
                &&& final(self).blocks_since_last_step@ == old(self).blocks_since_last_step@.insert(netuid, 0)
                &&& final(self).last_mechanism_step_block@ == old(self).last_mechanism_step_block@.insert(
                    netuid,
                    current_block,
                )
                &&& *final(self) == (Pallet {
                    pending_emission: final(self).pending_emission,
                    blocks_since_last_step: final(self).blocks_since_last_step,
                    last_mechanism_step_block: final(self).last_mechanism_step_block,
                    ..*old(self)
                })
            },
            epoch_countdown(netuid, get_or(old(self).tempo@, netuid, 0u16), current_block) != 0 ==> r
                is None && *final(self) == *old(self),
            r matches Some((cut, remaining)) ==> cut + remaining == get_or(
                old(self).pending_emission@,
                netuid,
                0u64,
            ),
            r matches Some((cut, remaining)) ==> cut * 65535 <= get_or(old(self).pending_emission@, netuid, 0u64)
                * old(self).subnet_owner_cut < (cut + 1) * 65535,
    {
        if self.should_run_epoch(netuid, current_block) {
            let subnet_emission: u64 = read_u64(&self.pending_emission, &netuid);
            self.pending_emission.insert(netuid, 0);
            self.blocks_since_last_step.insert(netuid, 0);
            self.last_mechanism_step_block.insert(netuid, current_block);
            proof {
                lemma_owner_cut(subnet_emission, self.subnet_owner_cut);
                lemma_owner_cut_exact(subnet_emission, self.subnet_owner_cut);
                lemma_mul_exact_by_int(from_int(subnet_emission as int), self.subnet_owner_cut as int);
            }
            let owner_cut: u64 = fx_to_u64(
                fx_saturating_div(
                    fx_saturating_mul(fx_from_u64(subnet_emission), fx_from_u64(self.subnet_owner_cut as u64)),
                    fx_from_u64(u16::MAX as u64),
                ),
            );
            let remaining_emission: u64 = subnet_emission.saturating_sub(owner_cut);
            Some((owner_cut, remaining_emission))
        } else {
            None
        }
    }

    /// Step 5.4 of the coinbase for one subnet: sources the emission of each
    /// epoch output `(hotkey, mining_emission, validator_emission)` through
    /// `source_hotkey_emission`, with `parents[i]` the parents of output `i`,
    /// appending to `hotkey_emission_tuples`; `hotkey_emission_limit` grows by
    /// each output's validator plus mining emission, saturating.
    ///
    /// Where the tuples so far stay within the limit, they still do after, or
    /// the limit has saturated.
    pub fn source_epoch_emission(
        &self,
        netuid: u16,
        hotkey_emission: &Vec<(AccountId, u64, u64)>,
        parents: &Vec<Vec<ParentStake>>,
        global_weight: i128,
        hotkey_emission_tuples: &mut Vec<(AccountId, u16, u64)>,
        hotkey_emission_limit: &mut u64,
    )
        requires
            0 <= global_weight <= one_bits(),
            parents.len() == hotkey_emission.len(),
            forall|i: int| 0 <= i < parents.len() ==> #[trigger] parents[i].len() < 0x8000_0000,
        ensures
            final(hotkey_emission_tuples)@ == old(hotkey_emission_tuples)@ + epoch_tuples(
                self.delegates@,
                netuid,
                hotkey_emission@,
                parents@,
                global_weight as int,
            ),
            *final(hotkey_emission_limit) == hotkey_limit_after(*old(hotkey_emission_limit), hotkey_emission@),
            hotkey_payout_sum(old(hotkey_emission_tuples)@) <= *old(hotkey_emission_limit) ==> (
            hotkey_payout_sum(final(hotkey_emission_tuples)@) <= *final(hotkey_emission_limit)
                || *final(hotkey_emission_limit) == u64::MAX),
    {
        let ghost start = hotkey_emission_tuples@;
        let mut i: usize = 0;
        while i < hotkey_emission.len()
            invariant
                0 <= global_weight <= one_bits(),
                parents.len() == hotkey_emission.len(),
                forall|i: int| 0 <= i < parents.len() ==> #[trigger] parents[i].len() < 0x8000_0000,
                i <= hotkey_emission@.len(),
                start == old(hotkey_emission_tuples)@,
                hotkey_emission_tuples@ == start + epoch_tuples(
                    self.delegates@,
                    netuid,
                    hotkey_emission@.take(i as int),
                    parents@,
                    global_weight as int,
                ),
                *hotkey_emission_limit == hotkey_limit_after(*old(hotkey_emission_limit), hotkey_emission@.take(i as int)),
                hotkey_payout_sum(start) <= *old(hotkey_emission_limit) ==> (hotkey_payout_sum(hotkey_emission_tuples@)
                    <= *hotkey_emission_limit || *hotkey_emission_limit == u64::MAX),
            decreases hotkey_emission@.len() - i,
        {
            let (hotkey, mining_emission, validator_emission) = hotkey_emission[i];
            let ghost before = hotkey_emission_tuples@;
            let ghost limit_before = *hotkey_emission_limit;
            self.source_hotkey_emission(
                &hotkey,
                netuid,
                validator_emission,
                mining_emission,
                &parents[i],
                global_weight,
                hotkey_emission_tuples,
            );
            *hotkey_emission_limit = (*hotkey_emission_limit).saturating_add(
                validator_emission.saturating_add(mining_emission),
            );
            proof {
                let outs = hotkey_emission@.take(i + 1);
                assert(outs.drop_last() =~= hotkey_emission@.take(i as int));
                assert(outs.last() == hotkey_emission@[i as int]);
                assert(outs.len() - 1 == i);
                vstd::seq_lib::lemma_concat_associative(start, epoch_tuples(self.delegates@, netuid, hotkey_emission@.take(i as int), parents@, global_weight as int), hotkey_distribution(self.delegates@, hotkey, netuid, validator_emission, mining_emission, parents@[i as int]@, global_weight as int));
            }
            i = i + 1;
        }
        proof {
            assert(hotkey_emission@.take(hotkey_emission@.len() as int) =~= hotkey_emission@);
        }
    }

    /// Step 6 of the coinbase, first part: takes out of
    /// `PendingdHotkeyEmissionOnNetuid` every entry whose hotkey drains at
    /// `current_block`, and returns them as `(hotkey, netuid, amount)`, in the
    /// table's order. The other entries stay, in their order. Each drained
    /// hotkey gets `current_block` as its `LastHotkeyEmissionDrain`.
    pub fn drain_hotkey_emission(&mut self, current_block: u64, emission_tempo: u64) -> (drained: Vec<
        (AccountId, u16, u64),
    >)
        ensures
            drained@ == drained_entries(old(self).pending_hotkey_emission.entries(), current_block, emission_tempo),
            final(self).pending_hotkey_emission.entries() == kept_entries(
                old(self).pending_hotkey_emission.entries(),
                current_block,
                emission_tempo,
            ),
            forall|k: (AccountId, u16)| #[trigger] final(self).pending_hotkey_emission@.contains_key(k) ==> !drains_at(
                k.0.hash,
                current_block,
                emission_tempo,
            ),
            final(self).last_hotkey_emission_drain@ == drain_records(
                old(self).last_hotkey_emission_drain@,
                old(self).pending_hotkey_emission.entries(),
                current_block,
                emission_tempo,
            ),
            *final(self) == (Pallet {
                pending_hotkey_emission: final(self).pending_hotkey_emission,
                last_hotkey_emission_drain: final(self).last_hotkey_emission_drain,
                ..*old(self)
            }),
    {
        let ghost s = self.pending_hotkey_emission.entries();
        let mut kept: Table<(AccountId, u16), u64> = Table::new();
        let mut drained: Vec<(AccountId, u16, u64)> = Vec::new();
        let n = self.pending_hotkey_emission.len();
        let mut i: usize = 0;
        while i < n
            invariant
                s == self.pending_hotkey_emission.entries(),
                s == old(self).pending_hotkey_emission.entries(),
                *self == (Pallet { last_hotkey_emission_drain: self.last_hotkey_emission_drain, ..*old(self) }),
                self.last_hotkey_emission_drain@ == drain_records(
                    old(self).last_hotkey_emission_drain@,
                    s.take(i as int),
                    current_block,
                    emission_tempo,
                ),
                keys_distinct(s),
                n == s.len(),
                i <= n,
                kept.entries() == kept_entries(s.take(i as int), current_block, emission_tempo),
                drained@ == drained_entries(s.take(i as int), current_block, emission_tempo),
            decreases n - i,
        {
            let e: &((AccountId, u16), u64) = self.pending_hotkey_emission.entry(i);
            let ((hotkey, netuid), amount) = *e;
            proof {
                assert(s.take(i + 1).drop_last() =~= s.take(i as int));
                assert(s.take(i + 1).last() == s[i as int]);
                lemma_kept_entries(s.take(i as int), current_block, emission_tempo);
                if seq_has_key(kept.entries(), (hotkey, netuid)) {
                    let k = choose|k: int| 0 <= k < kept.entries().len() && #[trigger] kept.entries()[k].0 == (hotkey, netuid);
                    let j = choose|j: int| 0 <= j < s.take(i as int).len() && s.take(i as int)[j] == #[trigger] kept_entries(s.take(i as int), current_block, emission_tempo)[k];
                    assert(s[j].0 == s[i as int].0);
                }
            }
            if Self::should_drain_hotkey(&hotkey, current_block, emission_tempo) {
                drained.push((hotkey, netuid, amount));
                self.last_hotkey_emission_drain.insert(hotkey, current_block);
            } else {
                kept.insert((hotkey, netuid), amount);
            }
            i = i + 1;
        }
        proof {
            assert(s.take(n as int) =~= s);
            lemma_kept_entries(s, current_block, emission_tempo);
        }
        self.pending_hotkey_emission = kept;
        proof {
            let ks = kept_entries(s, current_block, emission_tempo);
            assert forall|k: (AccountId, u16)| #[trigger] self.pending_hotkey_emission@.contains_key(k) implies !drains_at(
                k.0.hash,
                current_block,
                emission_tempo,
            ) by {
                let j = choose|j: int| 0 <= j < ks.len() && #[trigger] ks[j].0 == k;
                assert(!drains_at(ks[j].0.0.hash, current_block, emission_tempo));
            }
        }
        drained
    }

    /// Step 6 of the coinbase, second part: sources each drained entry
    /// `(hotkey, netuid, amount)` through `source_nominator_emission`, with
    /// `nominators[i]` the nominators of entry `i`, appending to
    /// `nominator_emission`; `nominator_emission_limit` grows by each amount,
    /// saturating.
    ///
    /// The tuples appended carry exactly the drained amounts; where the tuples
    /// so far stay within the limit, they still do after, or the limit has saturated.
    pub fn source_drained_emission(
        &self,
        drained: &Vec<(AccountId, u16, u64)>,
        nominators: &Vec<Vec<(AccountId, u64)>>,
        global_weight: i128,
        current_block: u64,
        nominator_emission: &mut Vec<(AccountId, AccountId, u16, u64)>,
        nominator_emission_limit: &mut u64,
    )
        requires
            0 <= global_weight <= one_bits(),
            nominators.len() == drained.len(),
            forall|i: int|
                0 <= i < drained.len() ==> sum_alpha(
                    nominator_contributions(self.alpha@, #[trigger] drained[i].0, drained[i].1, nominators[i]@),
                ) <= crate::fixed::fixed_max() && sum_global(
                    nominator_contributions(self.alpha@, drained[i].0, drained[i].1, nominators[i]@),
                ) <= crate::fixed::fixed_max(),
        ensures
            final(nominator_emission)@ == old(nominator_emission)@ + drained_tuples(
                self.delegates@,
                self.owner@,
                self.alpha@,
                drained@,
                nominators@,
                global_weight as int,
            ),
            *final(nominator_emission_limit) == nominator_limit_after(*old(nominator_emission_limit), drained@),
            payout_sum(old(nominator_emission)@) <= *old(nominator_emission_limit) ==> (payout_sum(
                final(nominator_emission)@,
            ) <= *final(nominator_emission_limit) || *final(nominator_emission_limit) == u64::MAX),
    {
        let ghost start = nominator_emission@;
        let mut i: usize = 0;
        while i < drained.len()
            invariant
                0 <= global_weight <= one_bits(),
                nominators.len() == drained.len(),
                forall|i: int|
                    0 <= i < drained.len() ==> sum_alpha(
                        nominator_contributions(self.alpha@, #[trigger] drained[i].0, drained[i].1, nominators[i]@),
                    ) <= crate::fixed::fixed_max() && sum_global(
                        nominator_contributions(self.alpha@, drained[i].0, drained[i].1, nominators[i]@),
                    ) <= crate::fixed::fixed_max(),
                i <= drained@.len(),
                start == old(nominator_emission)@,
                nominator_emission@ == start + drained_tuples(
                    self.delegates@,
                    self.owner@,
                    self.alpha@,
                    drained@.take(i as int),
                    nominators@,
                    global_weight as int,
                ),
                *nominator_emission_limit == nominator_limit_after(*old(nominator_emission_limit), drained@.take(i as int)),
                payout_sum(start) <= *old(nominator_emission_limit) ==> (payout_sum(nominator_emission@)
                    <= *nominator_emission_limit || *nominator_emission_limit == u64::MAX),
            decreases drained@.len() - i,
        {
            let (hotkey, netuid, hotkey_emission) = drained[i];
            proof {
                assert(drained[i as int].0 == hotkey);
            }
            self.source_nominator_emission(
                &hotkey,
                netuid,
                hotkey_emission,
                current_block,
                &nominators[i],
                global_weight,
                nominator_emission,
            );
            *nominator_emission_limit = (*nominator_emission_limit).saturating_add(hotkey_emission);
            proof {
                let ds = drained@.take(i + 1);
                assert(ds.drop_last() =~= drained@.take(i as int));
                assert(ds.last() == drained@[i as int]);
                vstd::seq_lib::lemma_concat_associative(
                    start,
                    drained_tuples(self.delegates@, self.owner@, self.alpha@, drained@.take(i as int), nominators@, global_weight as int),
                    nominator_distribution(self.delegates@, self.owner@, self.alpha@, hotkey, netuid, hotkey_emission, nominators@[i as int]@, global_weight as int),
                );
            }
            i = i + 1;
        }
        proof {
            assert(drained@.take(drained@.len() as int) =~= drained@);
        }
    }

    /// Step 4 of the coinbase: hands `block_emission` to the subnets. Each
    /// subnet of `subnets` but the root (0) gets its share of the block emission
    /// by its TAO over the total issuance (read once, before any change); that
    /// TAO emission is recorded in `EmissionValues` and added to `SubnetTAO`,
    /// `TotalStake` and `TotalIssuance`. A dynamic subnet (mechanism 1) gets the
    /// whole block emission into `SubnetAlphaIn` and `PendingEmission`; any other
    /// subnet gets its TAO emission into `PendingEmission`. All additions saturate.
    ///
    /// A TAO emission that does not fit in a `u64` makes `to_num` panic; here the
    /// function stops at that subnet and returns it as `Err`, the subnets before
    /// it served.
    pub fn distribute_block_emission(&mut self, subnets: &Vec<u16>, block_emission: u64) -> (r: Result<(), u16>)
        ensures
            r is Ok <==> tao_emissions_fit(old(self).subnet_tao@, subnets@, old(self).total_issuance, block_emission),
            r matches Err(netuid) ==> exists|i: int|
                0 <= i < subnets@.len() && #[trigger] subnets@[i] == netuid && netuid != 0 && last_tao_emission(
                    old(self).subnet_tao@,
                    subnets@.take(i + 1),
                    old(self).total_issuance,
                    block_emission,
                ) > u64::MAX,
            r is Ok ==> final(self).subnet_tao@ == subnet_tao_after(
                old(self).subnet_tao@,
                subnets@,
                old(self).total_issuance,
                block_emission,
            ),
            r is Ok ==> final(self).emission_values@ == emission_values_after(
                old(self).emission_values@,
                old(self).subnet_tao@,
                subnets@,
                old(self).total_issuance,
                block_emission,
            ),
            r is Ok ==> final(self).total_stake == total_after(
                old(self).total_stake,
                old(self).subnet_tao@,
                subnets@,
                old(self).total_issuance,
                block_emission,
            ),
            r is Ok ==> final(self).total_issuance == total_after(
                old(self).total_issuance,
                old(self).subnet_tao@,
                subnets@,
                old(self).total_issuance,
                block_emission,
            ),
            r is Ok ==> final(self).subnet_alpha_in@ == alpha_in_after(
                old(self).subnet_alpha_in@,
                old(self).subnet_mechanism@,
                subnets@,
                block_emission,
            ),
            r is Ok ==> forall|n: u16|
                #[trigger] get_or(final(self).pending_emission@, n, 0u64) >= get_or(old(self).pending_emission@, n, 0u64),
            r is Ok && subnets@.no_duplicates() ==> forall|n: u16|
                n != 0 && get_or(old(self).subnet_mechanism@, n, 0u16) == 1 && subnets@.contains(n) ==> #[trigger] get_or(
                    final(self).pending_emission@,
                    n,
                    0u64,
                ) == if get_or(old(self).pending_emission@, n, 0u64) + block_emission > u64::MAX {
                    u64::MAX as int
                } else {
                    get_or(old(self).pending_emission@, n, 0u64) + block_emission
                },
            r is Ok ==> final(self).pending_emission@ == pending_emission_after(
                old(self).pending_emission@,
                old(self).subnet_mechanism@,
                old(self).subnet_tao@,
                subnets@,
                old(self).total_issuance,
                block_emission,
            ),
            *final(self) == (Pallet {
                subnet_tao: final(self).subnet_tao,
                emission_values: final(self).emission_values,
                total_stake: final(self).total_stake,
                total_issuance: final(self).total_issuance,
                subnet_alpha_in: final(self).subnet_alpha_in,
                pending_emission: final(self).pending_emission,
                ..*old(self)
            }),
    {
        let ghost tao0 = self.subnet_tao@;
        let ghost ti0 = self.total_issuance;
        let block_emission_fx: i128 = fx_from_u64(block_emission);
        let total_issuance_fx: i128 = fx_from_u64(self.total_issuance);
        let mut i: usize = 0;
        while i < subnets.len()
            invariant
                i <= subnets@.len(),
                tao0 == old(self).subnet_tao@,
                ti0 == old(self).total_issuance,
                block_emission_fx == from_int(block_emission as int),
                total_issuance_fx == from_int(ti0 as int),
                forall|j: int|
                    0 <= j < i && subnets@[j] != 0 ==> #[trigger] last_tao_emission(
                        tao0,
                        subnets@.take(j + 1),
                        ti0,
                        block_emission,
                    ) <= u64::MAX,
                self.subnet_tao@ == subnet_tao_after(tao0, subnets@.take(i as int), ti0, block_emission),
                self.emission_values@ == emission_values_after(
                    old(self).emission_values@,
                    tao0,
                    subnets@.take(i as int),
                    ti0,
                    block_emission,
                ),
                self.total_stake == total_after(old(self).total_stake, tao0, subnets@.take(i as int), ti0, block_emission),
                self.total_issuance == total_after(ti0, tao0, subnets@.take(i as int), ti0, block_emission),
                self.subnet_alpha_in@ == alpha_in_after(
                    old(self).subnet_alpha_in@,
                    old(self).subnet_mechanism@,
                    subnets@.take(i as int),
                    block_emission,
                ),
                self.pending_emission@ == pending_emission_after(
                    old(self).pending_emission@,
                    old(self).subnet_mechanism@,
                    tao0,
                    subnets@.take(i as int),
                    ti0,
                    block_emission,
                ),
                *self == (Pallet {
                    subnet_tao: self.subnet_tao,
                    emission_values: self.emission_values,
                    total_stake: self.total_stake,
                    total_issuance: self.total_issuance,
                    subnet_alpha_in: self.subnet_alpha_in,
                    pending_emission: self.pending_emission,
                    ..*old(self)
                }),
            decreases subnets@.len() - i,
        {
            let netuid: u16 = subnets[i];
            let ghost pre = subnets@.take(i as int);
            let ghost post = subnets@.take(i + 1);
            proof {
                assert(post.drop_last() =~= pre);
                assert(post.last() == netuid);
            }
            if netuid != 0 {
                let mechid: u16 = crate::pallet::read_u16(&self.subnet_mechanism, &netuid);
                let subnet_tao_u64: u64 = read_u64(&self.subnet_tao, &netuid);
                let subnet_tao: i128 = fx_from_u64(subnet_tao_u64);
                let proportion: i128 = match fx_checked_div(subnet_tao, total_issuance_fx) {
                    Some(x) => x,
                    None => fx_from_u64(0),
                };
                let product: i128 = match fx_checked_mul(proportion, block_emission_fx) {
                    Some(x) => x,
                    None => fx_from_u64(0),
                };
                proof {
                    assert(proportion == subnet_proportion(subnet_tao_u64, ti0));
                    assert(last_tao_emission(tao0, post, ti0, block_emission) == subnet_tao_emission(
                        subnet_tao_u64,
                        ti0,
                        block_emission,
                    ));
                    lemma_subnet_emission_nonneg(subnet_tao_u64, ti0, block_emission);
                }
                if product > 0xffff_ffff_ffff_ffff_ffff_ffff {
                    proof {
                        assert(subnets@[i as int] == netuid);
                        assert(!tao_emissions_fit(tao0, subnets@, ti0, block_emission));
                    }
                    return Err(netuid);
                }
                let tao_emission: u64 = fx_to_u64(product);
                self.emission_values.insert(netuid, tao_emission);
                self.subnet_tao.insert(netuid, subnet_tao_u64.saturating_add(tao_emission));
                self.total_stake = self.total_stake.saturating_add(tao_emission);
                self.total_issuance = self.total_issuance.saturating_add(tao_emission);
                if mechid == 1 {
                    let alpha_in = read_u64(&self.subnet_alpha_in, &netuid);
                    self.subnet_alpha_in.insert(netuid, alpha_in.saturating_add(fx_to_u64(block_emission_fx)));
                    let pending = read_u64(&self.pending_emission, &netuid);
                    self.pending_emission.insert(netuid, pending.saturating_add(fx_to_u64(block_emission_fx)));
                } else {
                    let pending = read_u64(&self.pending_emission, &netuid);
                    self.pending_emission.insert(netuid, pending.saturating_add(tao_emission));
                }
            }
            i = i + 1;
        }
        proof {
            assert(subnets@.take(subnets@.len() as int) =~= subnets@);
            let mech = old(self).subnet_mechanism@;
            assert forall|n: u16| #[trigger] get_or(self.pending_emission@, n, 0u64) >= get_or(old(self).pending_emission@, n, 0u64) by {
                lemma_pending_never_decreases(old(self).pending_emission@, mech, tao0, subnets@, ti0, block_emission, n);
            }
            if subnets@.no_duplicates() {
                assert forall|n: u16|
                    n != 0 && get_or(mech, n, 0u16) == 1 && subnets@.contains(n) implies #[trigger] get_or(
                        self.pending_emission@,
                        n,
                        0u64,
                    ) == if get_or(old(self).pending_emission@, n, 0u64) + block_emission > u64::MAX {
                        u64::MAX as int
                    } else {
                        get_or(old(self).pending_emission@, n, 0u64) + block_emission
                    } by {
                    lemma_dynamic_pending_gains_block(old(self).pending_emission@, mech, tao0, subnets@, ti0, block_emission, n);
                }
            }
        }
        Ok(())
    }

    /// Emits `amount` into the subnet for a nominator: the alpha of
    /// (hotkey, coldkey, netuid) and the total alpha of (hotkey, netuid) grow by
    /// it, saturating.
    fn emit_into_subnet(&mut self, hotkey: AccountId, coldkey: AccountId, netuid: u16, amount: u64)
        ensures
            final(self).alpha@ == old(self).alpha@.insert(
                (hotkey, coldkey, netuid),
                sat_add_u64(get_or(old(self).alpha@, (hotkey, coldkey, netuid), 0u64) as int, amount as int) as u64,
            ),
            final(self).total_hotkey_alpha@ == old(self).total_hotkey_alpha@.insert(
                (hotkey, netuid),
                sat_add_u64(get_or(old(self).total_hotkey_alpha@, (hotkey, netuid), 0u64) as int, amount as int) as u64,
            ),
            *final(self) == (Pallet {
                alpha: final(self).alpha,
                total_hotkey_alpha: final(self).total_hotkey_alpha,
                ..*old(self)
            }),
    {
        let a = read_u64(&self.alpha, &(hotkey, coldkey, netuid));
        self.alpha.insert((hotkey, coldkey, netuid), a.saturating_add(amount));
        let t = read_u64(&self.total_hotkey_alpha, &(hotkey, netuid));
        self.total_hotkey_alpha.insert((hotkey, netuid), t.saturating_add(amount));
    }

    /// Emits each nominator tuple `(hotkey, coldkey, netuid, amount)` into its
    /// subnet: the alpha of the nominator on the hotkey and the total alpha of
    /// the hotkey grow by the amount, saturating.
    pub fn accumulate_nominator_emission(
        &mut self,
        nominator_tuples: &mut Vec<(AccountId, AccountId, u16, u64)>,
    )
        ensures
            final(nominator_tuples)@ == old(nominator_tuples)@,
            final(self).alpha@ == emit_alpha(old(self).alpha@, old(nominator_tuples)@),
            final(self).total_hotkey_alpha@ == emit_total_hotkey_alpha(
                old(self).total_hotkey_alpha@,
                old(nominator_tuples)@,
            ),
            *final(self) == (Pallet {
                alpha: final(self).alpha,
                total_hotkey_alpha: final(self).total_hotkey_alpha,
                ..*old(self)
            }),
    {
        let mut i: usize = 0;
        while i < nominator_tuples.len()
            invariant
                i <= nominator_tuples@.len(),
                nominator_tuples@ == old(nominator_tuples)@,
                self.alpha@ == emit_alpha(old(self).alpha@, nominator_tuples@.take(i as int)),
                self.total_hotkey_alpha@ == emit_total_hotkey_alpha(
                    old(self).total_hotkey_alpha@,
                    nominator_tuples@.take(i as int),
                ),
                *self == (Pallet {
                    alpha: self.alpha,
                    total_hotkey_alpha: self.total_hotkey_alpha,
                    ..*old(self)
                }),
            decreases nominator_tuples@.len() - i,
        {
            let (hotkey, coldkey, netuid, emission) = nominator_tuples[i];
            self.emit_into_subnet(hotkey, coldkey, netuid, emission);
            proof {
                assert(nominator_tuples@.take(i + 1).drop_last() =~= nominator_tuples@.take(i as int));
                assert(nominator_tuples@.take(i + 1).last() == nominator_tuples@[i as int]);
            }
            i = i + 1;
        }
        proof {
            assert(nominator_tuples@.take(nominator_tuples@.len() as int) =~= nominator_tuples@);
        }
    }

    /// Adds each tuple's emission to the pending emission of its hotkey on its
    /// subnet (`PendingdHotkeyEmissionOnNetuid`), saturating.
    pub fn accumulate_hotkey_emission(&mut self, hotkey_tuples: &mut Vec<(AccountId, u16, u64)>)
        ensures
            final(hotkey_tuples)@ == old(hotkey_tuples)@,
            final(self).pending_hotkey_emission@ == accumulate_pending(
                old(self).pending_hotkey_emission@,
                old(hotkey_tuples)@,
            ),
            *final(self) == (Pallet {
                pending_hotkey_emission: final(self).pending_hotkey_emission,
                ..*old(self)
            }),
    {
        let mut i: usize = 0;
        while i < hotkey_tuples.len()
            invariant
                i <= hotkey_tuples@.len(),
                hotkey_tuples@ == old(hotkey_tuples)@,
                self.pending_hotkey_emission@ == accumulate_pending(
                    old(self).pending_hotkey_emission@,
                    hotkey_tuples@.take(i as int),
                ),
                *self == (Pallet { pending_hotkey_emission: self.pending_hotkey_emission, ..*old(self) }),
            decreases hotkey_tuples@.len() - i,
        {
            let (hotkey, netuid, emission) = hotkey_tuples[i];
            let pending = read_u64(&self.pending_hotkey_emission, &(hotkey, netuid));
            self.pending_hotkey_emission.insert((hotkey, netuid), pending.saturating_add(emission));
            proof {
                assert(hotkey_tuples@.take(i + 1).drop_last() =~= hotkey_tuples@.take(i as int));
                assert(hotkey_tuples@.take(i + 1).last() == hotkey_tuples@[i as int]);
            }
            i = i + 1;
        }
        proof {
            assert(hotkey_tuples@.take(hotkey_tuples@.len() as int) =~= hotkey_tuples@);
        }
    }
}

} // verus!
