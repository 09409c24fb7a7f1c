//! Bounded draws: scaling for a bound that is a power of two, and rejection
//! sampling for every other bound.
use crate::lcg::{
    half_period, lemma_reaches_lower_half, lemma_step_bound, lemma_step_n_shift, step, step_n,
    top_bits,
};
use vstd::arithmetic::div_mod::{
    lemma_fundamental_div_mod, lemma_fundamental_div_mod_converse, lemma_small_mod,
};
use vstd::arithmetic::power2::{lemma2_to64, lemma_pow2_strictly_increases, pow2};
use vstd::prelude::*;

verus! {

/// `max` is `2^k` for some `k`.
pub open spec fn is_power_of_two(max: int) -> bool {
    exists|k: nat| max == #[trigger] pow2(k)
}

/// The 31-bit value that the draw leaving the generator in `state` yields.
pub open spec fn candidate(state: nat) -> int {
    top_bits(state, 31) as int
}

/// The result for a bound that is a power of two: the 31-bit draw scaled
/// down by `max / 2^31`.
pub open spec fn scaled(bits: int, max: int) -> int {
    (max * bits) / 0x8000_0000
}

/// A 31-bit draw is rejected when it falls into the incomplete last block
/// of `max` values below `2^31`: the start of its block, plus `max - 1`,
/// no longer fits in 31 bits.
pub open spec fn rejects(bits: int, max: int) -> bool {
    bits - bits % max + (max - 1) >= 0x8000_0000
}

/// The `n`-th draw after `state` is the first one that is not rejected.
pub open spec fn first_accepted(state: nat, max: int, n: nat) -> bool {
    &&& n >= 1
    &&& !rejects(candidate(step_n(state, n)), max)
    &&& forall|j: nat| 1 <= j < n ==> rejects(candidate(#[trigger] step_n(state, j)), max)
}

/// The number of draws that rejection sampling makes from `state` for the
/// bound `max`: the rejected ones and the accepted one.
pub open spec fn draws_needed(state: nat, max: int) -> nat {
    choose|n: nat| first_accepted(state, max, n)
}

/// A draw below `2^30` is accepted for every bound.
pub proof fn lemma_small_draw_accepted(bits: int, max: int)
    requires
        0 <= bits < 0x4000_0000,
        0 < max < 0x8000_0000,
    ensures
        !rejects(bits, max),
{
    if bits < max {
        lemma_small_mod(bits as nat, max as nat);
    } else {
        lemma_fundamental_div_mod(bits, max);
        assert(0 <= bits % max < max);
    }
}

/// A state below `2^47` yields a 31-bit draw below `2^30`.
pub proof fn lemma_lower_half_candidate(state: nat)
    requires
        state < 0x8000_0000_0000,
    ensures
        0 <= candidate(state) < 0x4000_0000,
{
    lemma2_to64();
    assert(pow2((48 - 31) as nat) == 0x2_0000);
    assert(candidate(state) == state / 0x2_0000);
}

/// From every state some draw within the next `2^47 + 1` is accepted.
pub proof fn lemma_some_draw_accepted(state: nat, max: int) -> (n: nat)
    requires
        0 < max < 0x8000_0000,
    ensures
        1 <= n <= half_period() + 1,
        !rejects(candidate(step_n(state, n)), max),
{
    lemma_step_bound(state);
    let k = lemma_reaches_lower_half(step(state));
    lemma_step_n_shift(state, k);
    lemma_lower_half_candidate(step_n(state, k + 1));
    lemma_small_draw_accepted(candidate(step_n(state, k + 1)), max);
    k + 1
}

/// The first accepted draw is unique, so it is the one `draws_needed` names.
pub proof fn lemma_draws_needed(state: nat, max: int, n: nat)
    requires
        first_accepted(state, max, n),
    ensures
        draws_needed(state, max) == n,
{
    let m = draws_needed(state, max);
    assert(first_accepted(state, max, m));
    if m < n {
        assert(rejects(candidate(step_n(state, m)), max));
    } else if n < m {
        assert(rejects(candidate(step_n(state, n)), max));
    }
}

/// Scans the draws from the `from`-th on for the first accepted one, given
/// that all earlier draws are rejected and the `last` is accepted.
proof fn lemma_scan(state: nat, max: int, from: nat, last: nat) -> (n: nat)
    requires
        1 <= from <= last,
        forall|j: nat| 1 <= j < from ==> rejects(candidate(#[trigger] step_n(state, j)), max),
        !rejects(candidate(step_n(state, last)), max),
    ensures
        from <= n <= last,
        first_accepted(state, max, n),
    decreases last - from,
{
    if !rejects(candidate(step_n(state, from)), max) {
        from
    } else {
        lemma_scan(state, max, from + 1, last)
    }
}

/// Rejection sampling ends: from every state and for every bound there is
/// a first accepted draw, and it is among the next `2^47 + 1`.
pub proof fn lemma_rejection_ends(state: nat, max: int)
    requires
        0 < max < 0x8000_0000,
    ensures
        first_accepted(state, max, draws_needed(state, max)),
        draws_needed(state, max) <= half_period() + 1,
{
    let last = lemma_some_draw_accepted(state, max);
    let n = lemma_scan(state, max, 1, last);
    lemma_draws_needed(state, max, n);
}

/// The value of `2^k` for each `k` below 31 is one of the 31 single-bit words.
proof fn lemma_single_bit(k: nat)
    requires
        k < 31,
    ensures
        single_bit(pow2(k) as int),
{
    lemma2_to64();
}

/// `max` is one of the words with a single bit set among the low 31.
spec fn single_bit(max: int) -> bool {
    max == 0x1 || max == 0x2 || max == 0x4 || max == 0x8 || max == 0x10 || max == 0x20 || max
        == 0x40 || max == 0x80 || max == 0x100 || max == 0x200 || max == 0x400 || max == 0x800
        || max == 0x1000 || max == 0x2000 || max == 0x4000 || max == 0x8000 || max == 0x1_0000
        || max == 0x2_0000 || max == 0x4_0000 || max == 0x8_0000 || max == 0x10_0000 || max
        == 0x20_0000 || max == 0x40_0000 || max == 0x80_0000 || max == 0x100_0000 || max
        == 0x200_0000 || max == 0x400_0000 || max == 0x800_0000 || max == 0x1000_0000 || max
        == 0x2000_0000 || max == 0x4000_0000
}

/// For a positive 31-bit word, clearing the lowest set bit leaves nothing
/// exactly when the word is a power of two.
pub proof fn lemma_power_of_two_test(max: u32)
    requires
        0 < max < 0x8000_0000,
    ensures
        (max & ((max - 1) as u32) == 0) <==> is_power_of_two(max as int),
{
    lemma2_to64();
    assert((max & ((max - 1) as u32) == 0) <==> (max == 0x1 || max == 0x2 || max == 0x4 || max
        == 0x8 || max == 0x10 || max == 0x20 || max == 0x40 || max == 0x80 || max == 0x100 || max
        == 0x200 || max == 0x400 || max == 0x800 || max == 0x1000 || max == 0x2000 || max
        == 0x4000 || max == 0x8000 || max == 0x1_0000 || max == 0x2_0000 || max == 0x4_0000
        || max == 0x8_0000 || max == 0x10_0000 || max == 0x20_0000 || max == 0x40_0000 || max
        == 0x80_0000 || max == 0x100_0000 || max == 0x200_0000 || max == 0x400_0000 || max
        == 0x800_0000 || max == 0x1000_0000 || max == 0x2000_0000 || max == 0x4000_0000))
        by (bit_vector)
        requires
            0 < max < 0x8000_0000,
    ;
    if is_power_of_two(max as int) {
        lemma_power_of_two_single_bit(max as int);
    }
    if single_bit(max as int) {
        assert(pow2(0) == 1 && pow2(1) == 2 && pow2(2) == 4 && pow2(3) == 8 && pow2(4) == 16);
        assert(is_power_of_two(max as int));
    }
}

/// A power of two below `2^31` is one of the 31 single-bit words.
proof fn lemma_power_of_two_single_bit(max: int)
    requires
        is_power_of_two(max),
        max < 0x8000_0000,
    ensures
        single_bit(max),
{
    lemma2_to64();
    let k = choose|k: nat| max == #[trigger] pow2(k);
    if k >= 31 {
        assert(pow2(31) == 0x8000_0000);
        if k > 31 {
            lemma_pow2_strictly_increases(31, k);
        }
    }
    lemma_single_bit(k);
}

/// For a bound that is a power of two, rejection sampling would accept
/// every draw: `2^31` is a whole number of blocks of `max` values, so
/// no block is incomplete.
pub proof fn lemma_power_of_two_never_rejects(bits: int, max: int)
    requires
        is_power_of_two(max),
        0 < max < 0x8000_0000,
        0 <= bits < 0x8000_0000,
    ensures
        !rejects(bits, max),
{
    lemma_power_of_two_single_bit(max);
    lemma_fundamental_div_mod(bits, max);
    lemma_fundamental_div_mod(0x8000_0000, max);
    assert(0x8000_0000int % max == 0);
    let blocks = 0x8000_0000int / max;
    let block = bits / max;
    assert(block < blocks) by (nonlinear_arith)
        requires
            max > 0,
            bits == max * block + bits % max,
            0 <= bits % max < max,
            0x8000_0000int == max * blocks,
            bits < 0x8000_0000,
    ;
    assert(max * block + max <= max * blocks) by (nonlinear_arith)
        requires
            max > 0,
            block < blocks,
    ;
}

/// For a bound that is a power of two, scaling a draw keeps its top
/// digits: it divides the draw by `2^31 / max`.
pub proof fn lemma_scaled_keeps_top_digits(bits: int, max: int)
    requires
        is_power_of_two(max),
        0 < max < 0x8000_0000,
        0 <= bits < 0x8000_0000,
    ensures
        scaled(bits, max) == bits / (0x8000_0000int / max),
        0 <= scaled(bits, max) < max,
{
    lemma_power_of_two_single_bit(max);
    let width = 0x8000_0000int / max;
    lemma_fundamental_div_mod(0x8000_0000, max);
    assert(0x8000_0000int % max == 0);
    assert(width > 0 && max * width == 0x8000_0000);
    lemma_fundamental_div_mod(bits, width);
    let top = bits / width;
    let low = bits % width;
    assert(max * bits == 0x8000_0000 * top + max * low && 0 <= max * low < 0x8000_0000)
        by (nonlinear_arith)
        requires
            max > 0,
            bits == width * top + low,
            0 <= low < width,
            max * width == 0x8000_0000,
    ;
    lemma_fundamental_div_mod_converse(
        max * bits,
        0x8000_0000,
        top,
        max * low,
    );
    assert(0 <= top < max) by (nonlinear_arith)
        requires
            bits == width * top + low,
            0 <= low < width,
            0 <= bits < 0x8000_0000,
            max * width == 0x8000_0000,
            max > 0,
    ;
}

/// For a bound that is a power of two, scaling and rejection sampling
/// take the same single draw, and give the same result on every draw whose
/// top digits equal its low digits.
pub proof fn lemma_power_of_two_paths_agree(bits: int, max: int)
    requires
        is_power_of_two(max),
        0 < max < 0x8000_0000,
        0 <= bits < 0x8000_0000,
        bits / (0x8000_0000int / max) == bits % max,
    ensures
        !rejects(bits, max),
        scaled(bits, max) == bits % max,
{
    lemma_power_of_two_never_rejects(bits, max);
    lemma_scaled_keeps_top_digits(bits, max);
}

} // verus!
