//! Shares of an emission in proportion to contributions, as the coinbase
//! computes them in fixed point, and the bounds that keep their sum within
//! the emission.
use crate::fixed::{
    clamp, div_exact, fixed_max, floor_num, in_range, lemma_clamp_nonneg, lemma_div_exact_nonneg,
    lemma_mul_exact_nonneg, mul_exact, one_bits,
};
use vstd::prelude::*;

verus! {

/// The pool `first * second` from which shares are paid, saturating.
pub open spec fn pool(first: int, second: int) -> int {
    clamp(mul_exact(first, second))
}

/// The share that a contribution `c` out of `total` earns from the pool
/// `first * second`: `first.saturating_mul(second).saturating_mul(c)`, divided
/// by `total` with `checked_div`, and zero where that division has no result.
pub open spec fn weighted_share(first: int, second: int, c: int, total: int) -> int {
    let num = clamp(mul_exact(pool(first, second), c));
    if total != 0 && in_range(div_exact(num, total)) {
        div_exact(num, total)
    } else {
        0
    }
}

/// The sum of the alpha contributions (first components).
pub open spec fn sum_alpha(cs: Seq<(int, int)>) -> int
    decreases cs.len(),
{
    if cs.len() == 0 {
        0
    } else {
        sum_alpha(cs.drop_last()) + cs.last().0
    }
}

/// The sum of the global contributions (second components).
pub open spec fn sum_global(cs: Seq<(int, int)>) -> int
    decreases cs.len(),
{
    if cs.len() == 0 {
        0
    } else {
        sum_global(cs.drop_last()) + cs.last().1
    }
}

pub open spec fn contributions_nonneg(cs: Seq<(int, int)>) -> bool {
    forall|i: int| 0 <= i < cs.len() ==> 0 <= #[trigger] cs[i].0 && 0 <= cs[i].1
}

/// The whole units paid for contribution `c`: its alpha share from the pool
/// `fa * sa` plus its global share from the pool `fg * sg`, cut to an integer.
pub open spec fn share_amount(
    c: (int, int),
    fa: int,
    sa: int,
    fg: int,
    sg: int,
    ta: int,
    tg: int,
) -> int {
    floor_num(clamp(weighted_share(fa, sa, c.0, ta) + weighted_share(fg, sg, c.1, tg)))
}

pub open spec fn alpha_share_sum(cs: Seq<(int, int)>, fa: int, sa: int, ta: int) -> int
    decreases cs.len(),
{
    if cs.len() == 0 {
        0
    } else {
        alpha_share_sum(cs.drop_last(), fa, sa, ta) + weighted_share(fa, sa, cs.last().0, ta)
    }
}

pub open spec fn global_share_sum(cs: Seq<(int, int)>, fg: int, sg: int, tg: int) -> int
    decreases cs.len(),
{
    if cs.len() == 0 {
        0
    } else {
        global_share_sum(cs.drop_last(), fg, sg, tg) + weighted_share(fg, sg, cs.last().1, tg)
    }
}

/// The sum of the whole units paid over all contributions.
pub open spec fn amount_sum(
    cs: Seq<(int, int)>,
    fa: int,
    sa: int,
    fg: int,
    sg: int,
    ta: int,
    tg: int,
) -> int
    decreases cs.len(),
{
    if cs.len() == 0 {
        0
    } else {
        amount_sum(cs.drop_last(), fa, sa, fg, sg, ta, tg) + share_amount(
            cs.last(),
            fa,
            sa,
            fg,
            sg,
            ta,
            tg,
        )
    }
}

/// One share never exceeds its contribution's part of the pool, nor the pool.
pub proof fn lemma_weighted_share(first: int, second: int, c: int, total: int)
    requires
        0 <= first,
        0 <= second,
        0 <= c,
        c <= total || total == 0,
    ensures
        0 <= pool(first, second) <= fixed_max(),
        0 <= weighted_share(first, second, c, total),
        weighted_share(first, second, c, total) <= pool(first, second),
        weighted_share(first, second, c, total) * total <= pool(first, second) * c,
        total == 0 ==> weighted_share(first, second, c, total) == 0,
{
    lemma_mul_exact_nonneg(first, second);
    lemma_clamp_nonneg(mul_exact(first, second));
    let w = pool(first, second);
    lemma_mul_exact_nonneg(w, c);
    lemma_clamp_nonneg(mul_exact(w, c));
    let num = clamp(mul_exact(w, c));
    assert(num * one_bits() <= w * c);
    if total != 0 {
        lemma_div_exact_nonneg(num, total);
        let q = div_exact(num, total);
        assert(q * total <= w * c);
        assert(w * c <= w * total) by (nonlinear_arith)
            requires
                0 <= w,
                c <= total,
        ;
        assert(q <= w) by (nonlinear_arith)
            requires
                q * total <= w * total,
                total > 0,
        ;
        assert(in_range(q));
    }
}

/// The partial sums of a prefix of nonnegative contributions stay below the
/// totals; the shares paid over them stay within the pools, and the whole
/// units paid stay within the shares.
pub proof fn lemma_share_sums(
    cs: Seq<(int, int)>,
    fa: int,
    sa: int,
    fg: int,
    sg: int,
    ta: int,
    tg: int,
)
    requires
        0 <= fa,
        0 <= sa,
        0 <= fg,
        0 <= sg,
        contributions_nonneg(cs),
        sum_alpha(cs) <= ta,
        sum_global(cs) <= tg,
        pool(fa, sa) + pool(fg, sg) <= fixed_max(),
    ensures
        0 <= sum_alpha(cs),
        0 <= sum_global(cs),
        0 <= alpha_share_sum(cs, fa, sa, ta) <= pool(fa, sa),
        0 <= global_share_sum(cs, fg, sg, tg) <= pool(fg, sg),
        alpha_share_sum(cs, fa, sa, ta) * ta <= pool(fa, sa) * sum_alpha(cs),
        global_share_sum(cs, fg, sg, tg) * tg <= pool(fg, sg) * sum_global(cs),
        ta == 0 ==> alpha_share_sum(cs, fa, sa, ta) == 0,
        tg == 0 ==> global_share_sum(cs, fg, sg, tg) == 0,
        0 <= amount_sum(cs, fa, sa, fg, sg, ta, tg),
        amount_sum(cs, fa, sa, fg, sg, ta, tg) * one_bits() <= alpha_share_sum(cs, fa, sa, ta)
            + global_share_sum(cs, fg, sg, tg),
    decreases cs.len(),
{
    lemma_mul_exact_nonneg(fa, sa);
    lemma_clamp_nonneg(mul_exact(fa, sa));
    lemma_mul_exact_nonneg(fg, sg);
    lemma_clamp_nonneg(mul_exact(fg, sg));
    if cs.len() > 0 {
        let prev = cs.drop_last();
        let c = cs.last();
        assert(c == cs[cs.len() - 1]);
        assert(contributions_nonneg(prev)) by {
            assert forall|i: int| 0 <= i < prev.len() implies 0 <= #[trigger] prev[i].0 && 0
                <= prev[i].1 by {
                assert(prev[i] == cs[i]);
            }
        }
        lemma_share_sums(prev, fa, sa, fg, sg, ta, tg);
        let pa = pool(fa, sa);
        let pg = pool(fg, sg);
        let s_prev = sum_alpha(prev);
        let g_prev = sum_global(prev);
        lemma_weighted_share(fa, sa, c.0, ta);
        lemma_weighted_share(fg, sg, c.1, tg);
        let xa = weighted_share(fa, sa, c.0, ta);
        let xg = weighted_share(fg, sg, c.1, tg);
        let a_prev = alpha_share_sum(prev, fa, sa, ta);
        let g_sh_prev = global_share_sum(prev, fg, sg, tg);
        assert((a_prev + xa) * ta <= pa * (s_prev + c.0)) by (nonlinear_arith)
            requires
                a_prev * ta <= pa * s_prev,
                xa * ta <= pa * c.0,
        ;
        assert((g_sh_prev + xg) * tg <= pg * (g_prev + c.1)) by (nonlinear_arith)
            requires
                g_sh_prev * tg <= pg * g_prev,
                xg * tg <= pg * c.1,
        ;
        if ta > 0 {
            assert(a_prev + xa <= pa) by (nonlinear_arith)
                requires
                    (a_prev + xa) * ta <= pa * (s_prev + c.0),
                    s_prev + c.0 <= ta,
                    ta > 0,
                    pa >= 0,
            ;
        } else {
            assert(a_prev + xa == 0);
        }
        if tg > 0 {
            assert(g_sh_prev + xg <= pg) by (nonlinear_arith)
                requires
                    (g_sh_prev + xg) * tg <= pg * (g_prev + c.1),
                    g_prev + c.1 <= tg,
                    tg > 0,
                    pg >= 0,
            ;
        } else {
            assert(g_sh_prev + xg == 0);
        }
        assert(global_share_sum(cs, fg, sg, tg) == g_sh_prev + xg);
        assert(sum_global(cs) == g_prev + c.1);
        assert(alpha_share_sum(cs, fa, sa, ta) == a_prev + xa);
        assert(sum_alpha(cs) == s_prev + c.0);
        let x = xa + xg;
        assert(clamp(x) == x);
        vstd::arithmetic::div_mod::lemma_fundamental_div_mod(x, one_bits());
        vstd::arithmetic::div_mod::lemma_div_pos_is_pos(x, one_bits());
        vstd::arithmetic::div_mod::lemma_mod_bound(x, one_bits());
    } else {
        let pa = pool(fa, sa);
        let pg = pool(fg, sg);
        assert(0 * ta <= pa * 0 && 0 * tg <= pg * 0) by (nonlinear_arith);
    }
}

/// The whole units paid for one contribution never exceed its exact part of the
/// two pools: `amount * 2^64 * ta * tg <= fa * sa * c.0 * tg + fg * sg * c.1 * ta`,
/// and where a total is zero its part is nothing.
pub proof fn lemma_share_amount_bound(
    c: (int, int),
    fa: int,
    sa: int,
    fg: int,
    sg: int,
    ta: int,
    tg: int,
)
    requires
        0 <= fa,
        0 <= sa,
        0 <= fg,
        0 <= sg,
        0 <= c.0,
        0 <= c.1,
        c.0 <= ta || ta == 0,
        c.1 <= tg || tg == 0,
        0 <= ta,
        0 <= tg,
    ensures
        ({
            let a = share_amount(c, fa, sa, fg, sg, ta, tg);
            let o = one_bits();
            &&& 0 <= a
            &&& a * o * o * ta * tg <= fa * sa * c.0 * tg + fg * sg * c.1 * ta
            &&& ta == 0 ==> a * o * o * tg <= fg * sg * c.1
            &&& tg == 0 ==> a * o * o * ta <= fa * sa * c.0
            &&& ta == 0 && tg == 0 ==> a == 0
        }),
{
    let o = one_bits();
    lemma_weighted_share(fa, sa, c.0, ta);
    lemma_weighted_share(fg, sg, c.1, tg);
    lemma_mul_exact_nonneg(fa, sa);
    lemma_mul_exact_nonneg(fg, sg);
    lemma_clamp_nonneg(mul_exact(fa, sa));
    lemma_clamp_nonneg(mul_exact(fg, sg));
    let pa = pool(fa, sa);
    let pg = pool(fg, sg);
    let wa = weighted_share(fa, sa, c.0, ta);
    let wg = weighted_share(fg, sg, c.1, tg);
    lemma_clamp_nonneg(wa + wg);
    let x = clamp(wa + wg);
    vstd::arithmetic::div_mod::lemma_fundamental_div_mod(x, o);
    vstd::arithmetic::div_mod::lemma_mod_bound(x, o);
    vstd::arithmetic::div_mod::lemma_div_pos_is_pos(x, o);
    let a = share_amount(c, fa, sa, fg, sg, ta, tg);
    assert(a * o <= wa + wg);
    assert(pa * o <= fa * sa);
    assert(pg * o <= fg * sg);
    // wa * ta <= pa * c.0, so wa * o * ta <= fa * sa * c.0
    assert(wa * o * ta <= fa * sa * c.0) by (nonlinear_arith)
        requires
            wa * ta <= pa * c.0,
            pa * o <= fa * sa,
            0 <= c.0,
            0 <= wa,
            o > 0,
    ;
    assert(wg * o * tg <= fg * sg * c.1) by (nonlinear_arith)
        requires
            wg * tg <= pg * c.1,
            pg * o <= fg * sg,
            0 <= c.1,
            0 <= wg,
            o > 0,
    ;
    assert(a * o * o * ta * tg <= fa * sa * c.0 * tg + fg * sg * c.1 * ta) by (nonlinear_arith)
        requires
            a * o <= wa + wg,
            wa * o * ta <= fa * sa * c.0,
            wg * o * tg <= fg * sg * c.1,
            0 <= a,
            0 <= ta,
            0 <= tg,
            o > 0,
    ;
    if ta == 0 {
        assert(wa == 0);
        assert(a * o * o * tg <= fg * sg * c.1) by (nonlinear_arith)
            requires
                a * o <= wg,
                wg * o * tg <= fg * sg * c.1,
                0 <= a,
                0 <= tg,
                o > 0,
        ;
    }
    if tg == 0 {
        assert(wg == 0);
        assert(a * o * o * ta <= fa * sa * c.0) by (nonlinear_arith)
            requires
                a * o <= wa,
                wa * o * ta <= fa * sa * c.0,
                0 <= a,
                0 <= ta,
                o > 0,
        ;
    }
}


/// Where nothing saturates, one share falls short of its exact part of the pool
/// `first * second` by less than two units of its total and one unit:
/// `share * total * 2^32 > first * second * c - 2 * total * 2^32 - 2^64`.
pub proof fn lemma_weighted_share_lower(first: int, second: int, c: int, total: int)
    requires
        0 <= first,
        0 <= second,
        0 <= c <= total,
        0 < total,
        first * second <= fixed_max() * one_bits(),
        first * second * total <= fixed_max() * one_bits() * one_bits(),
    ensures
        weighted_share(first, second, c, total) * total * one_bits() > first * second * c - 2 * total
            * one_bits() - one_bits() * one_bits(),
{
    let o = one_bits();
    let fs = first * second;
    assert(0 <= fs) by (nonlinear_arith)
        requires
            0 <= first,
            0 <= second,
            fs == first * second,
    ;
    // The pool, cut to fixed point.
    let p = fs / o;
    vstd::arithmetic::div_mod::lemma_fundamental_div_mod(fs, o);
    vstd::arithmetic::div_mod::lemma_mod_bound(fs, o);
    vstd::arithmetic::div_mod::lemma_div_pos_is_pos(fs, o);
    vstd::arithmetic::div_mod::lemma_div_is_ordered(fs, fixed_max() * o, o);
    vstd::arithmetic::div_mod::lemma_div_multiples_vanish(fixed_max(), o);
    assert(pool(first, second) == p);
    assert(p * o > fs - o);
    assert(p * o <= fs);
    // The numerator, cut to fixed point.
    let pc = p * c;
    assert(0 <= pc) by (nonlinear_arith)
        requires
            0 <= p,
            0 <= c,
            pc == p * c,
    ;
    assert(pc * o <= (fixed_max() * o) * o) by (nonlinear_arith)
        requires
            p * o <= fs,
            pc == p * c,
            0 <= c <= total,
            0 <= p,
            fs * total <= fixed_max() * o * o,
            o > 0,
    ;
    vstd::arithmetic::mul::lemma_mul_inequality_converse(pc, fixed_max() * o, o);
    let num = pc / o;
    vstd::arithmetic::div_mod::lemma_fundamental_div_mod(pc, o);
    vstd::arithmetic::div_mod::lemma_mod_bound(pc, o);
    vstd::arithmetic::div_mod::lemma_div_pos_is_pos(pc, o);
    vstd::arithmetic::div_mod::lemma_div_is_ordered(pc, fixed_max() * o, o);
    assert(clamp(mul_exact(pool(first, second), c)) == num);
    assert(num * o > pc - o);
    assert(num * o <= pc);
    // The quotient by the total.
    lemma_div_exact_nonneg(num, total);
    let q = div_exact(num, total);
    vstd::arithmetic::div_mod::lemma_fundamental_div_mod(num * o, total);
    vstd::arithmetic::div_mod::lemma_mod_bound(num * o, total);
    assert(q * total > num * o - total);
    assert(q * total <= p * total) by (nonlinear_arith)
        requires
            q * total <= num * o,
            num * o <= pc,
            pc == p * c,
            0 <= c <= total,
            0 <= p,
    ;
    vstd::arithmetic::mul::lemma_mul_inequality_converse(q, p, total);
    assert(in_range(q));
    assert(weighted_share(first, second, c, total) == q);
    assert(q * total * o > fs * c - 2 * total * o - o * o) by (nonlinear_arith)
        requires
            q * total > num * o - total,
            num * o > pc - o,
            pc == p * c,
            p * o > fs - o,
            0 <= c <= total,
            o > 0,
    ;
}

/// Where nothing saturates, the whole units paid for one contribution fall
/// short of its exact part of the two pools by less than four:
/// `(amount + 4) * 2^64 * ta * tg > fa * sa * c.0 * tg + fg * sg * c.1 * ta`,
/// and likewise for the one part whose total is not zero.
pub proof fn lemma_share_amount_lower(
    c: (int, int),
    fa: int,
    sa: int,
    fg: int,
    sg: int,
    ta: int,
    tg: int,
)
    requires
        0 <= fa,
        0 <= sa,
        0 <= fg,
        0 <= sg,
        0 <= c.0 <= ta,
        0 <= c.1 <= tg,
        fa * sa + fg * sg <= fixed_max() * one_bits(),
        fa * sa * ta <= fixed_max() * one_bits() * one_bits(),
        fg * sg * tg <= fixed_max() * one_bits() * one_bits(),
    ensures
        ({
            let a = share_amount(c, fa, sa, fg, sg, ta, tg);
            let o = one_bits();
            &&& ta > 0 && tg > 0 ==> (a + 4) * o * o * ta * tg > fa * sa * c.0 * tg + fg * sg * c.1 * ta
            &&& ta == 0 && tg > 0 ==> (a + 4) * o * o * tg > fg * sg * c.1
            &&& ta > 0 && tg == 0 ==> (a + 4) * o * o * ta > fa * sa * c.0
        }),
{
    let o = one_bits();
    let fas = fa * sa;
    let fgs = fg * sg;
    assert(0 <= fas && 0 <= fgs) by (nonlinear_arith)
        requires
            0 <= fa,
            0 <= sa,
            0 <= fg,
            0 <= sg,
            fas == fa * sa,
            fgs == fg * sg,
    ;
    lemma_weighted_share(fa, sa, c.0, ta);
    lemma_weighted_share(fg, sg, c.1, tg);
    let wa = weighted_share(fa, sa, c.0, ta);
    let wg = weighted_share(fg, sg, c.1, tg);
    lemma_mul_exact_nonneg(fa, sa);
    lemma_mul_exact_nonneg(fg, sg);
    assert(mul_exact(fa, sa) * o + mul_exact(fg, sg) * o <= fixed_max() * o);
    vstd::arithmetic::mul::lemma_mul_inequality_converse(
        mul_exact(fa, sa) + mul_exact(fg, sg),
        fixed_max(),
        o,
    );
    assert(wa + wg <= fixed_max());
    assert(clamp(wa + wg) == wa + wg);
    let a = share_amount(c, fa, sa, fg, sg, ta, tg);
    vstd::arithmetic::div_mod::lemma_fundamental_div_mod(wa + wg, o);
    vstd::arithmetic::div_mod::lemma_mod_bound(wa + wg, o);
    assert(a * o > wa + wg - o);
    if ta > 0 {
        lemma_weighted_share_lower(fa, sa, c.0, ta);
    }
    if tg > 0 {
        lemma_weighted_share_lower(fg, sg, c.1, tg);
    }
    if ta > 0 && tg > 0 {
        let ea = fas * c.0;
        let eg = fgs * c.1;
        assert((a + 4) * o * o * ta * tg > ea * tg + eg * ta) by (nonlinear_arith)
            requires
                a * o > wa + wg - o,
                wa * ta * o > ea - 2 * ta * o - o * o,
                wg * tg * o > eg - 2 * tg * o - o * o,
                ta >= 1,
                tg >= 1,
                o >= 4,
        ;
        assert(fa * sa * c.0 * tg + fg * sg * c.1 * ta == ea * tg + eg * ta);
    }
    if ta == 0 && tg > 0 {
        assert(wa == 0);
        let eg = fgs * c.1;
        assert((a + 4) * o * o * tg > eg) by (nonlinear_arith)
            requires
                a * o > wg - o,
                wg * tg * o > eg - 2 * tg * o - o * o,
                tg >= 1,
                o >= 4,
        ;
    }
    if ta > 0 && tg == 0 {
        assert(wg == 0);
        let ea = fas * c.0;
        assert((a + 4) * o * o * ta > ea) by (nonlinear_arith)
            requires
                a * o > wa - o,
                wa * ta * o > ea - 2 * ta * o - o * o,
                ta >= 1,
                o >= 4,
        ;
    }
}

} // verus!
