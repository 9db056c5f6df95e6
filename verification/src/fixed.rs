//! I96F32 fixed-point numbers, as the `substrate_fixed` crate computes them.
//!
//! A value is carried by its raw bits: the `i128` whose value divided by
//! 2^32 is the number. Every arithmetic step is done by `substrate_fixed`
//! itself; the wrappers below only move the bits in and out.
use substrate_fixed::types::I96F32;
use vstd::prelude::*;

verus! {

/// 2^32: the bits of the number one.
pub open spec fn one_bits() -> int {
    0x1_0000_0000
}

/// The number that `bits` stands for is `bits / 2^32`; this is its integer part.
pub open spec fn floor_num(bits: int) -> int {
    bits / one_bits()
}

pub open spec fn fixed_min() -> int {
    i128::MIN as int
}

pub open spec fn fixed_max() -> int {
    i128::MAX as int
}

pub open spec fn in_range(x: int) -> bool {
    fixed_min() <= x <= fixed_max()
}

/// Brings an exact result into the range of the bits, as saturation does.
pub open spec fn clamp(x: int) -> int {
    if x > fixed_max() {
        fixed_max()
    } else if x < fixed_min() {
        fixed_min()
    } else {
        x
    }
}

pub open spec fn abs(x: int) -> int {
    if x < 0 {
        -x
    } else {
        x
    }
}

/// Integer division rounded toward zero.
pub open spec fn trunc_div(a: int, b: int) -> int {
    if (a < 0) != (b < 0) {
        -(abs(a) / abs(b))
    } else {
        abs(a) / abs(b)
    }
}

/// The exact product of two fixed-point numbers, its fraction bits cut off
/// toward minus infinity.
pub open spec fn mul_exact(a: int, b: int) -> int {
    (a * b) / one_bits()
}

/// The exact quotient of two fixed-point numbers, rounded toward zero.
pub open spec fn div_exact(a: int, b: int) -> int {
    trunc_div(a * one_bits(), b)
}

/// `from_num` of an integer.
pub open spec fn from_int(n: int) -> int {
    n * one_bits()
}

/// `I96F32::from_num` (substrate_fixed) of a `u64`: the exact bits of `n`.
#[verifier::external_body]
pub(crate) fn fx_from_u64(n: u64) -> (r: i128)
    ensures
        r == from_int(n as int),
{
    I96F32::from_num(n).to_bits()
}

/// `I96F32::saturating_mul` (substrate_fixed): the product cut toward minus infinity,
/// clamped to the range of `I96F32`. Stated for nonnegative operands only: with
/// two negative operands the crate's 128-bit multiply can fail a debug assertion.
#[verifier::external_body]
pub(crate) fn fx_saturating_mul(a: i128, b: i128) -> (r: i128)
    requires
        0 <= a,
        0 <= b,
    ensures
        r == clamp(mul_exact(a as int, b as int)),
{
    I96F32::from_bits(a).saturating_mul(I96F32::from_bits(b)).to_bits()
}

/// `I96F32::checked_mul` (substrate_fixed): the product cut toward minus infinity,
/// or `None` where it leaves the range of `I96F32`. Stated for nonnegative
/// operands only, as for `fx_saturating_mul`.
#[verifier::external_body]
pub(crate) fn fx_checked_mul(a: i128, b: i128) -> (r: Option<i128>)
    requires
        0 <= a,
        0 <= b,
    ensures
        in_range(mul_exact(a as int, b as int)) ==> r == Some(mul_exact(a as int, b as int) as i128),
        !in_range(mul_exact(a as int, b as int)) ==> r is None,
{
    match I96F32::from_bits(a).checked_mul(I96F32::from_bits(b)) {
        Some(x) => Some(x.to_bits()),
        None => None,
    }
}

/// `I96F32::saturating_div` (substrate_fixed): the quotient rounded toward zero,
/// clamped to the range of `I96F32`. It panics on a zero divisor.
#[verifier::external_body]
pub(crate) fn fx_saturating_div(a: i128, b: i128) -> (r: i128)
    requires
        b != 0,
    ensures
        r == clamp(div_exact(a as int, b as int)),
{
    I96F32::from_bits(a).saturating_div(I96F32::from_bits(b)).to_bits()
}

/// `I96F32::checked_div` (substrate_fixed): `None` on a zero divisor or where the
/// quotient, rounded toward zero, leaves the range of `I96F32`.
#[verifier::external_body]
pub(crate) fn fx_checked_div(a: i128, b: i128) -> (r: Option<i128>)
    ensures
        b != 0 && in_range(div_exact(a as int, b as int)) ==> r == Some(div_exact(a as int, b as int) as i128),
        b == 0 || !in_range(div_exact(a as int, b as int)) ==> r is None,
{
    match I96F32::from_bits(a).checked_div(I96F32::from_bits(b)) {
        Some(x) => Some(x.to_bits()),
        None => None,
    }
}

/// `I96F32::saturating_add` (substrate_fixed): the exact sum, clamped to the range of `I96F32`.
#[verifier::external_body]
pub(crate) fn fx_saturating_add(a: i128, b: i128) -> (r: i128)
    ensures
        r == clamp(a + b),
{
    I96F32::from_bits(a).saturating_add(I96F32::from_bits(b)).to_bits()
}

/// `I96F32::saturating_sub` (substrate_fixed): the exact difference, clamped to the range of `I96F32`.
#[verifier::external_body]
pub(crate) fn fx_saturating_sub(a: i128, b: i128) -> (r: i128)
    ensures
        r == clamp(a - b),
{
    I96F32::from_bits(a).saturating_sub(I96F32::from_bits(b)).to_bits()
}

/// `AddAssign` of `I96F32` (substrate_fixed): the exact sum; it panics on
/// overflow where debug assertions are on, so the sum must stay in range.
#[verifier::external_body]
pub(crate) fn fx_add_assign(a: &mut i128, b: i128)
    requires
        in_range(*old(a) + b),
    ensures
        *final(a) == *old(a) + b,
{
    let mut x = I96F32::from_bits(*a);
    x += I96F32::from_bits(b);
    *a = x.to_bits();
}

/// `I96F32::to_num::<u64>` (substrate_fixed): the integer part, fraction bits
/// dropped. It panics, where debug assertions are on, when that part does not
/// fit in a `u64`, so it must.
#[verifier::external_body]
pub(crate) fn fx_to_u64(a: i128) -> (r: u64)
    requires
        0 <= floor_num(a as int) <= u64::MAX,
    ensures
        r == floor_num(a as int),
{
    I96F32::from_bits(a).to_num::<u64>()
}


/// Saturation never raises a nonnegative value, and keeps it nonnegative.
pub proof fn lemma_clamp_nonneg(x: int)
    requires
        0 <= x,
    ensures
        0 <= clamp(x) <= x,
        clamp(x) <= fixed_max(),
{
}

/// The product of two nonnegative numbers is nonnegative and, cut to
/// fixed point, never exceeds the exact product.
pub proof fn lemma_mul_exact_nonneg(a: int, b: int)
    requires
        0 <= a,
        0 <= b,
    ensures
        0 <= mul_exact(a, b),
        mul_exact(a, b) * one_bits() <= a * b,
        b <= one_bits() ==> mul_exact(a, b) <= a,
        a <= one_bits() ==> mul_exact(a, b) <= b,
{
    let p = a * b;
    assert(0 <= p) by (nonlinear_arith)
        requires
            0 <= a,
            0 <= b,
            p == a * b,
    ;
    vstd::arithmetic::div_mod::lemma_fundamental_div_mod(p, one_bits());
    vstd::arithmetic::div_mod::lemma_div_pos_is_pos(p, one_bits());
    vstd::arithmetic::div_mod::lemma_mod_bound(p, one_bits());
    if b <= one_bits() {
        assert(p <= a * one_bits()) by (nonlinear_arith)
            requires
                0 <= a,
                b <= one_bits(),
                p == a * b,
        ;
        vstd::arithmetic::div_mod::lemma_div_is_ordered(p, a * one_bits(), one_bits());
        vstd::arithmetic::div_mod::lemma_div_multiples_vanish(a, one_bits());
    }
    if a <= one_bits() {
        assert(p <= b * one_bits()) by (nonlinear_arith)
            requires
                0 <= b,
                a <= one_bits(),
                p == a * b,
        ;
        vstd::arithmetic::div_mod::lemma_div_is_ordered(p, b * one_bits(), one_bits());
        vstd::arithmetic::div_mod::lemma_div_multiples_vanish(b, one_bits());
    }
}

/// A whole number times a fixed-point number loses nothing when cut back.
pub proof fn lemma_mul_exact_by_int(a: int, n: int)
    ensures
        mul_exact(a, from_int(n)) == a * n,
{
    assert(a * from_int(n) == (a * n) * one_bits()) by (nonlinear_arith);
    vstd::arithmetic::div_mod::lemma_div_multiples_vanish(a * n, one_bits());
}

/// The quotient of a nonnegative number by a positive one, rounded toward
/// zero, is nonnegative and never exceeds the exact quotient.
pub proof fn lemma_div_exact_nonneg(a: int, t: int)
    requires
        0 <= a,
        0 < t,
    ensures
        div_exact(a, t) == (a * one_bits()) / t,
        0 <= div_exact(a, t),
        div_exact(a, t) * t <= a * one_bits(),
{
    let n = a * one_bits();
    assert(0 <= n);
    vstd::arithmetic::div_mod::lemma_fundamental_div_mod(n, t);
    vstd::arithmetic::div_mod::lemma_div_pos_is_pos(n, t);
    vstd::arithmetic::div_mod::lemma_mod_bound(n, t);
    assert((n / t) * t == t * (n / t)) by (nonlinear_arith);
}

/// A common positive factor cancels out of a quotient.
pub proof fn lemma_div_cancel(a: int, b: int, c: int)
    requires
        0 <= a,
        0 < b,
        0 < c,
    ensures
        (a * c) / (b * c) == a / b,
{
    vstd::arithmetic::div_mod::lemma_fundamental_div_mod(a, b);
    vstd::arithmetic::div_mod::lemma_mod_bound(a, b);
    let q = a / b;
    let r = a % b;
    assert(a * c == q * (b * c) + r * c && 0 <= r * c < b * c) by (nonlinear_arith)
        requires
            a == b * q + r,
            0 <= r < b,
            0 < c,
    ;
    vstd::arithmetic::div_mod::lemma_fundamental_div_mod_converse(a * c, b * c, q, r * c);
}

} // verus!

