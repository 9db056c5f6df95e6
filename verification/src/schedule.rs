//! When a subnet runs its epoch and when a hotkey's emission is drained.
use crate::pallet::{get_or, read_u16, Pallet};
use crate::types::AccountId;
use vstd::prelude::*;

verus! {

/// `u64::rem_euclid`: for unsigned integers, the remainder of `x` by `rhs`,
/// which panics when `rhs` is zero.
pub assume_specification[ <u64>::rem_euclid ](x: u64, rhs: u64) -> (r: u64)
    requires
        rhs != 0,
    ensures
        r == x % rhs,
;

/// 2^64, the modulus of `u64` arithmetic.
pub open spec fn u64_modulus() -> int {
    0x1_0000_0000_0000_0000
}

/// The blocks left until subnet `netuid` with tempo `tempo` runs its epoch:
/// `tempo - (block + netuid + 1) % (tempo + 1)`, the sum taken modulo 2^64, so
/// that the epoch runs where that remainder equals the tempo. A tempo of zero
/// means the subnet never runs (`u64::MAX`).
pub open spec fn epoch_countdown(netuid: u16, tempo: u16, block: u64) -> u64 {
    if tempo == 0 {
        u64::MAX
    } else {
        (tempo - ((block + netuid + 1) % u64_modulus()) % (tempo + 1)) as u64
    }
}

/// The drain period of the hotkey emission: `emit_tempo + 1`, saturating.
pub open spec fn drain_period(emit_tempo: u64) -> int {
    if emit_tempo == u64::MAX {
        u64::MAX as int
    } else {
        emit_tempo + 1
    }
}

/// A hotkey whose hash is `hash` is drained at `block` when both fall on the
/// same place of the drain period.
pub open spec fn drains_at(hash: u64, block: u64, emit_tempo: u64) -> bool {
    (block as int) % drain_period(emit_tempo) == (hash as int) % drain_period(emit_tempo)
}

impl Pallet {
    /// The number of blocks left before subnet `netuid` runs its epoch; zero on
    /// the block where it runs; `u64::MAX` when `tempo` is zero.
    pub fn blocks_until_next_epoch(netuid: u16, tempo: u16, block_number: u64) -> (r: u64)
        ensures
            r == epoch_countdown(netuid, tempo, block_number),
    {
        if tempo == 0 {
            return u64::MAX;
        }
        let netuid_plus_one = (netuid as u64).saturating_add(1);
        let tempo_plus_one = (tempo as u64).saturating_add(1);
        let adjusted_block = block_number.wrapping_add(netuid_plus_one);
        let remainder = adjusted_block % tempo_plus_one;
        (tempo as u64).saturating_sub(remainder)
    }

    /// Whether subnet `netuid` runs its epoch at `current_block`, by its stored tempo.
    pub fn should_run_epoch(&self, netuid: u16, current_block: u64) -> (r: bool)
        ensures
            r == (epoch_countdown(netuid, get_or(self.tempo@, netuid, 0u16), current_block) == 0),
    {
        let tempo = read_u16(&self.tempo, &netuid);
        Self::blocks_until_next_epoch(netuid, tempo, current_block) == 0
    }

    /// Whether the pending emission of `hotkey` is drained at `block`.
    pub fn should_drain_hotkey(hotkey: &AccountId, block: u64, emit_tempo: u64) -> (r: bool)
        ensures
            r == drains_at(hotkey.hash, block, emit_tempo),
            block == hotkey.hash ==> r,
    {
        let hotkey_idx: u64 = hotkey.hash;
        block.rem_euclid(emit_tempo.saturating_add(1)) == hotkey_idx.rem_euclid(
            emit_tempo.saturating_add(1),
        )
    }
}

/// With a nonzero tempo, a subnet never waits more than its tempo.
pub proof fn lemma_countdown_at_most_tempo(netuid: u16, tempo: u16, block: u64)
    requires
        tempo > 0,
    ensures
        epoch_countdown(netuid, tempo, block) <= tempo,
{
}

/// A subnet with tempo zero never runs its epoch.
pub proof fn lemma_zero_tempo_never_runs(netuid: u16, block: u64)
    ensures
        epoch_countdown(netuid, 0, block) != 0,
{
}

/// The countdown falls by one with each block, until it reaches zero
/// (where the block count does not wrap around).
pub proof fn lemma_countdown_steps_down(netuid: u16, tempo: u16, block: u64)
    requires
        tempo > 0,
        epoch_countdown(netuid, tempo, block) > 0,
        block + netuid + 2 < u64_modulus(),
    ensures
        epoch_countdown(netuid, tempo, (block + 1) as u64) == epoch_countdown(netuid, tempo, block) - 1,
{
    let a = block + netuid + 1;
    let p = tempo + 1;
    assert(a % u64_modulus() == a) by (nonlinear_arith)
        requires
            0 <= a < u64_modulus(),
    ;
    assert((a + 1) % u64_modulus() == a + 1) by (nonlinear_arith)
        requires
            0 <= a + 1 < u64_modulus(),
    ;
    assert(a % p < p - 1);
    assert((a + 1) % p == a % p + 1) by (nonlinear_arith)
        requires
            p > 0,
            a >= 0,
            a % p < p - 1,
    {
        vstd::arithmetic::div_mod::lemma_fundamental_div_mod(a, p);
        vstd::arithmetic::div_mod::lemma_mod_add_multiples_vanish(a % p + 1, p);
    }
}

/// A subnet runs its epoch once every `tempo + 1` blocks (where the block count
/// does not wrap around).
pub proof fn lemma_epoch_period(netuid: u16, tempo: u16, block: u64)
    requires
        tempo > 0,
        block + tempo + 1 + netuid + 1 < u64_modulus(),
    ensures
        epoch_countdown(netuid, tempo, block) == epoch_countdown(netuid, tempo, (block + tempo + 1) as u64),
{
    let a = block + netuid + 1;
    let p = tempo + 1;
    assert(a % u64_modulus() == a) by (nonlinear_arith)
        requires
            0 <= a < u64_modulus(),
    ;
    assert((a + p) % u64_modulus() == a + p) by (nonlinear_arith)
        requires
            0 <= a + p < u64_modulus(),
    ;
    vstd::arithmetic::div_mod::lemma_mod_add_multiples_vanish(a, p);
}

/// A hotkey drained at `block` is drained again one drain period later, and
/// at no block in between.
pub proof fn lemma_drain_period(hash: u64, block: u64, emit_tempo: u64, k: u64)
    requires
        drains_at(hash, block, emit_tempo),
        0 < k <= drain_period(emit_tempo),
        block + k <= u64::MAX,
    ensures
        drains_at(hash, (block + k) as u64, emit_tempo) <==> k == drain_period(emit_tempo),
{
    let p = drain_period(emit_tempo);
    let b = block as int;
    vstd::arithmetic::div_mod::lemma_fundamental_div_mod(b, p);
    vstd::arithmetic::div_mod::lemma_fundamental_div_mod(b + k, p);
    if k == p {
        vstd::arithmetic::div_mod::lemma_mod_add_multiples_vanish(b, p);
    } else {
        assert((b + k) % p != b % p) by (nonlinear_arith)
            requires
                p > 0,
                0 < k < p,
                b >= 0,
        {
            vstd::arithmetic::div_mod::lemma_fundamental_div_mod(b, p);
            vstd::arithmetic::div_mod::lemma_fundamental_div_mod(b + k, p);
            vstd::arithmetic::div_mod::lemma_mod_bound(b, p);
            vstd::arithmetic::div_mod::lemma_mod_bound(b + k, p);
        }
    }
}

/// In every window of `emit_tempo + 1` consecutive blocks, a hotkey is drained
/// at exactly one block (where the window stays within the `u64` block numbers).
pub proof fn lemma_one_drain_per_window(hash: u64, block: u64, emit_tempo: u64)
    requires
        emit_tempo < u64::MAX,
        block + emit_tempo <= u64::MAX,
    ensures
        exists|k: int| 0 <= k <= emit_tempo && #[trigger] drains_at(hash, (block + k) as u64, emit_tempo),
        forall|k1: int, k2: int|
            0 <= k1 <= emit_tempo && 0 <= k2 <= emit_tempo && #[trigger] drains_at(
                hash,
                (block + k1) as u64,
                emit_tempo,
            ) && #[trigger] drains_at(hash, (block + k2) as u64, emit_tempo) ==> k1 == k2,
{
    let p = emit_tempo + 1;
    let b = block as int;
    let h = hash as int;
    assert(drain_period(emit_tempo) == p);
    vstd::arithmetic::div_mod::lemma_mod_bound(b, p);
    vstd::arithmetic::div_mod::lemma_mod_bound(h, p);
    let k = (h % p - b % p + p) % p;
    vstd::arithmetic::div_mod::lemma_mod_bound(h % p - b % p + p, p);
    assert((b + k) % p == h % p) by {
        vstd::arithmetic::div_mod::lemma_fundamental_div_mod(b, p);
        vstd::arithmetic::div_mod::lemma_fundamental_div_mod(h % p - b % p + p, p);
        let x = h % p - b % p + p;
        let q = x / p;
        // b + k == (b / p + 1 - q) * p + h % p
        assert(b + k == p * (b / p + 1 - q) + h % p) by (nonlinear_arith)
            requires
                b == p * (b / p) + b % p,
                x == p * q + k,
                x == h % p - b % p + p,
        ;
        vstd::arithmetic::div_mod::lemma_mod_multiples_vanish(b / p + 1 - q, h % p, p);
        vstd::arithmetic::div_mod::lemma_small_mod((h % p) as nat, p as nat);
    }
    assert(drains_at(hash, (block + k) as u64, emit_tempo));
    assert forall|k1: int, k2: int|
        0 <= k1 <= emit_tempo && 0 <= k2 <= emit_tempo && #[trigger] drains_at(
            hash,
            (block + k1) as u64,
            emit_tempo,
        ) && #[trigger] drains_at(hash, (block + k2) as u64, emit_tempo) implies k1 == k2 by {
        vstd::arithmetic::div_mod::lemma_fundamental_div_mod(b + k1, p);
        vstd::arithmetic::div_mod::lemma_fundamental_div_mod(b + k2, p);
        let q1 = (b + k1) / p;
        let q2 = (b + k2) / p;
        assert((b + k1) % p == (b + k2) % p);
        assert(k1 - k2 == p * (q1 - q2)) by (nonlinear_arith)
            requires
                b + k1 == p * q1 + (b + k1) % p,
                b + k2 == p * q2 + (b + k2) % p,
                (b + k1) % p == (b + k2) % p,
        ;
        assert(q1 == q2) by (nonlinear_arith)
            requires
                k1 - k2 == p * (q1 - q2),
                -p < k1 - k2 < p,
                p > 0,
        ;
    }
}

/// Every hotkey is drained at the block whose number equals its (full 64-bit) hash.
pub proof fn lemma_drains_at_own_hash(hash: u64, emit_tempo: u64)
    ensures
        drains_at(hash, hash, emit_tempo),
{
}

/// Whether a hotkey drains at a block depends on its hash only modulo the drain
/// period `emit_tempo + 1` (saturating): hotkeys whose hashes agree there drain
/// at the same blocks, and two hotkeys drained at the same block have hashes that
/// agree there.
pub proof fn lemma_drain_hash_classes(h1: u64, h2: u64, block: u64, emit_tempo: u64)
    ensures
        ({
            let p: int = if emit_tempo == u64::MAX { u64::MAX as int } else { emit_tempo + 1 };
            &&& (h1 as int) % p == (h2 as int) % p ==> (drains_at(h1, block, emit_tempo) <==> drains_at(
                h2,
                block,
                emit_tempo,
            ))
            &&& drains_at(h1, block, emit_tempo) && drains_at(h2, block, emit_tempo) ==> (h1 as int) % p == (
            h2 as int) % p
        }),
{
}

} // verus!
