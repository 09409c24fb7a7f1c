//! The 48-bit linear congruential sequence: its step, the bits drawn from a
//! state, and the arithmetic facts the generator relies on.
use vstd::arithmetic::div_mod::{
    lemma_div_by_multiple, lemma_div_by_multiple_is_strongly_ordered, lemma_fundamental_div_mod,
    lemma_fundamental_div_mod_converse, lemma_mod_multiples_vanish,
};
use vstd::arithmetic::power2::{
    lemma2_to64, lemma2_to64_rest, lemma_pow2_adds, lemma_pow2_pos, lemma_pow2_unfold, pow2,
};
use vstd::prelude::*;

verus! {

/// Multiplier of the congruential step; also the value a seed is scrambled with.
pub const MULTIPLIER: u64 = 0x5DEECE66D;

/// Increment of the congruential step.
pub const INCREMENT: u64 = 11;

/// Mask that keeps the low 48 bits of a word.
pub const MASK: u64 = 0xFFFF_FFFF_FFFF;

/// The modulus of the sequence, `2^48`.
pub open spec fn modulus() -> nat {
    0x1_0000_0000_0000
}

/// The state a generator starts in when seeded with `seed`: the seed XORed
/// with the multiplier, reduced to 48 bits.
pub open spec fn seeded(seed: u64) -> nat {
    ((seed ^ MULTIPLIER) & MASK) as nat
}

/// One step of the sequence: `state * 0x5DEECE66D + 11` modulo `2^48`.
pub open spec fn step(state: nat) -> nat {
    (state * 0x5DEECE66D + 11) % 0x1_0000_0000_0000
}

/// The state reached from `state` after `n` steps.
pub open spec fn step_n(state: nat, n: nat) -> nat
    decreases n,
{
    if n == 0 {
        state
    } else {
        step(step_n(state, (n - 1) as nat))
    }
}

/// The top `bits` bits of a 48-bit state, as a number.
pub open spec fn top_bits(state: nat, bits: nat) -> nat {
    state / pow2((48 - bits) as nat)
}

/// The value drawn by the step that leaves `state` and asks for `bits` bits.
pub open spec fn draw(state: nat, bits: nat) -> nat {
    top_bits(step(state), bits)
}

/// A 32-bit word read as a two's-complement signed number.
pub open spec fn signed_32(word: nat) -> int {
    if word < 0x8000_0000 {
        word as int
    } else {
        word - 0x1_0000_0000
    }
}

/// A 64-bit word read as a two's-complement signed number.
pub open spec fn signed_64(word: nat) -> int {
    if word < 0x8000_0000_0000_0000 {
        word as int
    } else {
        word - 0x1_0000_0000_0000_0000
    }
}

/// Byte `k` of a word, counted from the least significant one.
pub open spec fn byte_of(word: nat, k: nat) -> nat {
    (word / pow2(8 * k)) % 256
}

/// Byte `i` of the stream that a generator in `state` produces: the 32-bit
/// draws in order, the bytes of each from the least significant up.
pub open spec fn stream_byte(state: nat, i: nat) -> nat {
    byte_of(draw(step_n(state, i / 4), 32), i % 4)
}

/// The number of 32-bit draws that `len` bytes take: one for every four
/// bytes, and one for a shorter rest.
pub open spec fn draws_for_bytes(len: nat) -> nat {
    (len + 3) / 4
}

/// The 53-bit numerator of a binary64 fraction drawn from `state`: a 26-bit
/// draw in the high digits and the following 27-bit draw in the low ones.
pub open spec fn fraction_53(state: nat) -> nat {
    draw(state, 26) * 0x800_0000 + draw(step(state), 27)
}

/// A step always lands below the modulus.
pub proof fn lemma_step_bound(state: nat)
    ensures
        step(state) < modulus(),
{
}

/// Any positive number of steps lands below the modulus; zero steps stay put.
pub proof fn lemma_step_n_bound(state: nat, n: nat)
    requires
        state < modulus(),
    ensures
        step_n(state, n) < modulus(),
    decreases n,
{
    if n > 0 {
        lemma_step_n_bound(state, (n - 1) as nat);
    }
}

/// A seeded state lies below the modulus.
pub proof fn lemma_seeded_bound(seed: u64)
    ensures
        seeded(seed) < modulus(),
{
    let x = seed ^ MULTIPLIER;
    assert(x & 0xFFFF_FFFF_FFFF < 0x1_0000_0000_0000) by (bit_vector);
}

/// The top `bits` bits of a 48-bit state are a number below `2^bits`.
pub proof fn lemma_top_bits_bound(state: nat, bits: nat)
    requires
        state < modulus(),
        bits <= 48,
    ensures
        top_bits(state, bits) < pow2(bits),
{
    let low = (48 - bits) as nat;
    lemma2_to64();
    lemma2_to64_rest();
    lemma_pow2_adds(bits, low);
    lemma_pow2_pos(low);
    lemma_pow2_pos(bits);
    assert(pow2(48) == modulus());
    assert(state < pow2(bits) * pow2(low));
    lemma_div_by_multiple_is_strongly_ordered(
        state as int,
        (pow2(bits) * pow2(low)) as int,
        pow2(bits) as int,
        pow2(low) as int,
    );
    lemma_div_by_multiple(pow2(bits) as int, pow2(low) as int);
}

/// Steps compose: `m + n` steps are `m` steps followed by `n` steps.
pub proof fn lemma_step_n_add(state: nat, m: nat, n: nat)
    ensures
        step_n(state, m + n) == step_n(step_n(state, m), n),
    decreases n,
{
    if n > 0 {
        lemma_step_n_add(state, m, (n - 1) as nat);
        assert((m + n - 1) as nat == m + (n - 1) as nat);
    }
}

/// One step followed by `n` steps is `n + 1` steps.
pub proof fn lemma_step_n_shift(state: nat, n: nat)
    ensures
        step_n(step(state), n) == step_n(state, n + 1),
{
    assert(step_n(state, 1) == step(state)) by {
        reveal_with_fuel(step_n, 2);
    }
    lemma_step_n_add(state, 1, n);
    assert(1 + n == n + 1);
}

/// Two steps, written out.
pub proof fn lemma_two_steps(state: nat)
    ensures
        step_n(state, 2) == step(step(state)),
        step_n(state, 1) == step(state),
{
    reveal_with_fuel(step_n, 3);
}

/// The affine map `s -> a * s + c` modulo `2^48`.
pub open spec fn affine(a: nat, c: nat, state: nat) -> nat {
    (a * state + c) % 0x1_0000_0000_0000
}

/// Coefficients of the affine map that `2^k` steps amount to, obtained by
/// composing the map of `2^(k-1)` steps with itself.
pub open spec fn leap(k: nat) -> (nat, nat)
    decreases k,
{
    if k == 0 {
        (0x5DEECE66D, 11)
    } else {
        let (a, c) = leap((k - 1) as nat);
        ((a * a) % 0x1_0000_0000_0000, ((a + 1) * c) % 0x1_0000_0000_0000)
    }
}

/// Applying an affine map twice is again an affine map, with coefficients
/// `a * a` and `(a + 1) * c`.
pub proof fn lemma_affine_twice(a: nat, c: nat, state: nat)
    ensures
        affine(a, c, affine(a, c, state)) == affine(
            (a * a) % 0x1_0000_0000_0000,
            ((a + 1) * c) % 0x1_0000_0000_0000,
            state,
        ),
{
    let m: int = 0x1_0000_0000_0000;
    let (ai, ci, si) = (a as int, c as int, state as int);
    let x: int = ai * si + ci;
    let t: int = x % m;
    let whole: int = ai * ai * si + (ai + 1) * ci;
    let a2: int = (ai * ai) % m;
    let c2: int = ((ai + 1) * ci) % m;
    let q1: int = x / m;
    let q3: int = (ai * ai) / m;
    let q4: int = ((ai + 1) * ci) / m;
    lemma_fundamental_div_mod(x, m);
    lemma_fundamental_div_mod(ai * ai, m);
    lemma_fundamental_div_mod((ai + 1) * ci, m);
    assert(ai * t + ci == m * (-(ai * q1)) + whole) by (nonlinear_arith)
        requires
            x == ai * si + ci,
            x == m * q1 + t,
            whole == ai * ai * si + (ai + 1) * ci,
    ;
    assert(a2 * si + c2 == m * (-(q3 * si + q4)) + whole) by (nonlinear_arith)
        requires
            ai * ai == m * q3 + a2,
            (ai + 1) * ci == m * q4 + c2,
            whole == ai * ai * si + (ai + 1) * ci,
    ;
    lemma_mod_multiples_vanish(-(ai * q1), whole, m);
    lemma_mod_multiples_vanish(-(q3 * si + q4), whole, m);
}

/// `2^k` steps are the affine map with the coefficients `leap(k)`.
pub proof fn lemma_leap(k: nat, state: nat)
    ensures
        step_n(state, pow2(k)) == affine(leap(k).0, leap(k).1, state),
    decreases k,
{
    lemma2_to64();
    if k == 0 {
        assert(step_n(state, 1) == step(state)) by {
            reveal_with_fuel(step_n, 2);
        }
        assert(state * 0x5DEECE66D == 0x5DEECE66D * state);
    } else {
        let j = (k - 1) as nat;
        let half = pow2(j);
        let (a, c) = leap(j);
        lemma_pow2_unfold(k);
        lemma_step_n_add(state, half, half);
        lemma_leap(j, state);
        lemma_leap(j, step_n(state, half));
        lemma_affine_twice(a, c, state);
    }
}

/// One doubling of the leap: from the coefficients of `2^(k-1)` steps to
/// those of `2^k` steps.
proof fn lemma_leap_succ(k: nat, a: nat, c: nat, a2: nat, c2: nat)
    requires
        k > 0,
        leap((k - 1) as nat) == (a, c),
        a2 == (a * a) % 0x1_0000_0000_0000,
        c2 == ((a + 1) * c) % 0x1_0000_0000_0000,
    ensures
        leap(k) == (a2, c2),
{
}

/// The coefficients of `2^44` steps, computed by 44 successive doublings.
proof fn lemma_leap_44()
    ensures
        leap(44) == (0x4000_0000_0001nat, 0x9000_0000_0000nat),
{
    lemma_leap_succ(1, 0x5_DEEC_E66D, 0xB, 0xBB20_B460_0A69, 0x40_942D_E6BA);
    lemma_leap_succ(2, 0xBB20_B460_0A69, 0x40_942D_E6BA, 0x32EB_772C_5F11, 0x2D38_73C4_CD04);
    lemma_leap_succ(3, 0x32EB_772C_5F11, 0x2D38_73C4_CD04, 0x7548_9F25_9F21, 0x7CBA_449A_E648);
    lemma_leap_succ(4, 0x7548_9F25_9F21, 0x7CBA_449A_E648, 0x6DC2_6074_0241, 0xD03_5201_4D90);
    lemma_leap_succ(5, 0x6DC2_6074_0241, 0xD03_5201_4D90, 0xFAC6_CAED_1481, 0x1E4C_4C31_1F20);
    lemma_leap_succ(6, 0xFAC6_CAED_1481, 0x1E4C_4C31_1F20, 0xAB76_8C7E_6901, 0xF77B_9800_4E40);
    lemma_leap_succ(7, 0xAB76_8C7E_6901, 0xF77B_9800_4E40, 0xA430_A00D_D201, 0x6CC0_D398_DC80);
    lemma_leap_succ(8, 0xA430_A00D_D201, 0x6CC0_D398_DC80, 0x4FA0_405F_A401, 0xA7A8_3E92_B900);
    lemma_leap_succ(9, 0x4FA0_405F_A401, 0xA7A8_3E92_B900, 0x94FB_A1CF_4801, 0x9E19_22A9_7200);
    lemma_leap_succ(10, 0x94FB_A1CF_4801, 0x9E19_22A9_7200, 0xBA5C_C7DE_9001, 0xABA7_1B62_E400);
    lemma_leap_succ(11, 0xBA5C_C7DE_9001, 0xABA7_1B62_E400, 0xBA17_A0BD_2001, 0xE5B3_8F05_C800);
    lemma_leap_succ(12, 0xBA17_A0BD_2001, 0xE5B3_8F05_C800, 0x27E7_857A_4001, 0x698C_7F0B_9000);
    lemma_leap_succ(13, 0x27E7_857A_4001, 0x698C_7F0B_9000, 0x10B0_1AF4_8001, 0x702E_8217_2000);
    lemma_leap_succ(14, 0x10B0_1AF4_8001, 0x702E_8217_2000, 0xB4E4_75E9_0001, 0x78B3_142E_4000);
    lemma_leap_succ(15, 0xB4E4_75E9_0001, 0x78B3_142E_4000, 0x37D9_EBD2_0001, 0x72BE_685C_8000);
    lemma_leap_succ(16, 0x37D9_EBD2_0001, 0x72BE_685C_8000, 0xA7F7_D7A4_0001, 0xEADD_D0B9_0000);
    lemma_leap_succ(17, 0xA7F7_D7A4_0001, 0xEADD_D0B9_0000, 0x30FF_AF48_0001, 0xEB3F_A172_0000);
    lemma_leap_succ(18, 0x30FF_AF48_0001, 0xEB3F_A172_0000, 0xE63F_5E90_0001, 0x2C8F_42E4_0000);
    lemma_leap_succ(19, 0xE63F_5E90_0001, 0x2C8F_42E4_0000, 0xDD7E_BD20_0001, 0xB15E_85C8_0000);
    lemma_leap_succ(20, 0xDD7E_BD20_0001, 0xB15E_85C8_0000, 0xFEFD_7A40_0001, 0xC3BD_0B90_0000);
    lemma_leap_succ(21, 0xFEFD_7A40_0001, 0xC3BD_0B90_0000, 0xDFA_F480_0001, 0xB7A_1720_0000);
    lemma_leap_succ(22, 0xDFA_F480_0001, 0xB7A_1720_0000, 0x5BF5_E900_0001, 0x26F4_2E40_0000);
    lemma_leap_succ(23, 0x5BF5_E900_0001, 0x26F4_2E40_0000, 0xB7EB_D200_0001, 0x8DE8_5C80_0000);
    lemma_leap_succ(24, 0xB7EB_D200_0001, 0x8DE8_5C80_0000, 0x6FD7_A400_0001, 0x1BD0_B900_0000);
    lemma_leap_succ(25, 0x6FD7_A400_0001, 0x1BD0_B900_0000, 0xDFAF_4800_0001, 0x37A1_7200_0000);
    lemma_leap_succ(26, 0xDFAF_4800_0001, 0x37A1_7200_0000, 0xBF5E_9000_0001, 0x6F42_E400_0000);
    lemma_leap_succ(27, 0xBF5E_9000_0001, 0x6F42_E400_0000, 0x7EBD_2000_0001, 0xDE85_C800_0000);
    lemma_leap_succ(28, 0x7EBD_2000_0001, 0xDE85_C800_0000, 0xFD7A_4000_0001, 0xBD0B_9000_0000);
    lemma_leap_succ(29, 0xFD7A_4000_0001, 0xBD0B_9000_0000, 0xFAF4_8000_0001, 0x7A17_2000_0000);
    lemma_leap_succ(30, 0xFAF4_8000_0001, 0x7A17_2000_0000, 0xF5E9_0000_0001, 0xF42E_4000_0000);
    lemma_leap_succ(31, 0xF5E9_0000_0001, 0xF42E_4000_0000, 0xEBD2_0000_0001, 0xE85C_8000_0000);
    lemma_leap_succ(32, 0xEBD2_0000_0001, 0xE85C_8000_0000, 0xD7A4_0000_0001, 0xD0B9_0000_0000);
    lemma_leap_succ(33, 0xD7A4_0000_0001, 0xD0B9_0000_0000, 0xAF48_0000_0001, 0xA172_0000_0000);
    lemma_leap_succ(34, 0xAF48_0000_0001, 0xA172_0000_0000, 0x5E90_0000_0001, 0x42E4_0000_0000);
    lemma_leap_succ(35, 0x5E90_0000_0001, 0x42E4_0000_0000, 0xBD20_0000_0001, 0x85C8_0000_0000);
    lemma_leap_succ(36, 0xBD20_0000_0001, 0x85C8_0000_0000, 0x7A40_0000_0001, 0xB90_0000_0000);
    lemma_leap_succ(37, 0x7A40_0000_0001, 0xB90_0000_0000, 0xF480_0000_0001, 0x1720_0000_0000);
    lemma_leap_succ(38, 0xF480_0000_0001, 0x1720_0000_0000, 0xE900_0000_0001, 0x2E40_0000_0000);
    lemma_leap_succ(39, 0xE900_0000_0001, 0x2E40_0000_0000, 0xD200_0000_0001, 0x5C80_0000_0000);
    lemma_leap_succ(40, 0xD200_0000_0001, 0x5C80_0000_0000, 0xA400_0000_0001, 0xB900_0000_0000);
    lemma_leap_succ(41, 0xA400_0000_0001, 0xB900_0000_0000, 0x4800_0000_0001, 0x7200_0000_0000);
    lemma_leap_succ(42, 0x4800_0000_0001, 0x7200_0000_0000, 0x9000_0000_0001, 0xE400_0000_0000);
    lemma_leap_succ(43, 0x9000_0000_0001, 0xE400_0000_0000, 0x2000_0000_0001, 0xC800_0000_0000);
    lemma_leap_succ(44, 0x2000_0000_0001, 0xC800_0000_0000, 0x4000_0000_0001, 0x9000_0000_0000);
}

/// The coefficients of `2^47` steps, by three more doublings: the multiplier
/// has come back to 1 and the increment is half the modulus.
proof fn lemma_leap_47()
    ensures
        leap(47) == (1nat, 0x8000_0000_0000nat),
{
    lemma_leap_44();
    lemma_leap_succ(45, 0x4000_0000_0001, 0x9000_0000_0000, 0x8000_0000_0001, 0x2000_0000_0000);
    lemma_leap_succ(46, 0x8000_0000_0001, 0x2000_0000_0000, 0x1, 0x4000_0000_0000);
    lemma_leap_succ(47, 0x1, 0x4000_0000_0000, 0x1, 0x8000_0000_0000);
}

/// The state reached from `state` by `m` skips of `2^44` steps each. One
/// skip moves the state by `2^44 * (9 + 4 * (state mod 4))`, so it changes
/// the top four digits only.
pub open spec fn skip(state: nat, m: nat) -> nat {
    (state + 0x1000_0000_0000 * (m * (9 + 4 * (state % 4)))) % 0x1_0000_0000_0000
}

/// `m` times `2^44` steps are `m` skips.
pub proof fn lemma_skip(state: nat, m: nat)
    requires
        state < modulus(),
    ensures
        step_n(state, m * 0x1000_0000_0000) == skip(state, m),
    decreases m,
{
    let r = state % 4;
    let turn = (9 + 4 * r) as int;
    if m == 0 {
        assert(0 * turn == 0);
    } else {
        let before = (m - 1) as nat;
        let t = step_n(state, before * 0x1000_0000_0000);
        lemma_skip(state, before);
        lemma_step_n_add(state, before * 0x1000_0000_0000, 0x1000_0000_0000);
        assert(before * 0x1000_0000_0000 + 0x1000_0000_0000 == m * 0x1000_0000_0000);
        lemma2_to64_rest();
        lemma_leap(44, t);
        lemma_leap_44();
        let w_before = before * turn;
        let w = m * turn;
        assert(w == w_before + turn && w_before >= 0) by (nonlinear_arith)
            requires
                m == before + 1,
                w_before == before * turn,
                w == m * turn,
                turn >= 0,
        ;
        let whole_before = state + 0x1000_0000_0000 * w_before;
        let whole = state + 0x1000_0000_0000 * w;
        let q = whole_before / 0x1_0000_0000_0000;
        lemma_fundamental_div_mod(whole_before, 0x1_0000_0000_0000);
        assert(t == whole_before - 0x1_0000_0000_0000 * q);
        let qt = t as int / 4;
        assert(t as int == 4 * qt + r);
        assert(0x4000_0000_0001 * t + 0x9000_0000_0000 == 0x1_0000_0000_0000 * (qt - q) + whole);
        lemma_mod_multiples_vanish(qt - q, whole, 0x1_0000_0000_0000);
    }
}

/// A state whose top two digits are 01 or 10: a 26-bit draw from it is the
/// high part of a fraction in `[1/4, 3/4)`.
pub open spec fn central(state: int) -> bool {
    0x4000_0000_0000 <= state < 0xC000_0000_0000
}

/// A state whose top four digits are not 1000: a 26-bit draw from it is not
/// the high part of the fraction `1/2`.
pub open spec fn off_centre(state: int) -> bool {
    !(0x8000_0000_0000 <= state < 0x9000_0000_0000)
}

/// A skip changes the top four digits of a state only: with `x` for those
/// digits and `turn` for `9 + 4 * (state mod 4)`, `m` skips leave
/// `(x + m * turn) mod 16` in their place.
pub proof fn lemma_skip_digits(state: nat, m: nat)
    requires
        state < modulus(),
    ensures
        skip(state, m) == ((state / 0x1000_0000_0000 + m * (9 + 4 * (state % 4))) % 16)
            * 0x1000_0000_0000 + state % 0x1000_0000_0000,
{
    let x = state / 0x1000_0000_0000;
    let low = state % 0x1000_0000_0000;
    let w = m * (9 + 4 * (state % 4));
    let q = (x + w) / 16;
    let digits = (x + w) % 16;
    assert(state + 0x1000_0000_0000 * w == 0x1_0000_0000_0000 * q + (digits * 0x1000_0000_0000
        + low));
    lemma_fundamental_div_mod_converse(
        (state + 0x1000_0000_0000 * w) as int,
        0x1_0000_0000_0000,
        q as int,
        (digits * 0x1000_0000_0000 + low) as int,
    );
}

/// After `m` skips the top digits `x` and `y` of two states that lie two
/// steps apart, the first with `state mod 4 == r`, are both in the centre,
/// and those of the first are not the middle.
spec fn turned(x: u8, y: u8, r: u8, m: u8) -> bool {
    &&& 4 <= (x + m * (9 + 4 * r)) % 16 < 12
    &&& 4 <= (y + m * (9 + 4 * ((r + 2) % 4))) % 16 < 12
    &&& (x + m * (9 + 4 * r)) % 16 != 8
}

/// Whatever the top digits `x` and `y` of the two states, some number of
/// skips below 16 turns both into the centre: an even number turns both
/// alike, an odd number turns them half the range apart.
proof fn lemma_some_turn(x: u8, y: u8, r: u8) -> (m: u8)
    requires
        x < 16,
        y < 16,
        r < 4,
    ensures
        m < 16,
        turned(x, y, r, m),
{
    assert(turned(x, y, r, 0)
        || turned(x, y, r, 1)
        || turned(x, y, r, 2)
        || turned(x, y, r, 3)
        || turned(x, y, r, 4)
        || turned(x, y, r, 5)
        || turned(x, y, r, 6)
        || turned(x, y, r, 7)
        || turned(x, y, r, 8)
        || turned(x, y, r, 9)
        || turned(x, y, r, 10)
        || turned(x, y, r, 11)
        || turned(x, y, r, 12)
        || turned(x, y, r, 13)
        || turned(x, y, r, 14)
        || turned(x, y, r, 15)) by (bit_vector)
        requires
            x < 16,
            y < 16,
            r < 4,
    ;
    if turned(x, y, r, 0) {
        0
    } else if turned(x, y, r, 1) {
        1
    } else if turned(x, y, r, 2) {
        2
    } else if turned(x, y, r, 3) {
        3
    } else if turned(x, y, r, 4) {
        4
    } else if turned(x, y, r, 5) {
        5
    } else if turned(x, y, r, 6) {
        6
    } else if turned(x, y, r, 7) {
        7
    } else if turned(x, y, r, 8) {
        8
    } else if turned(x, y, r, 9) {
        9
    } else if turned(x, y, r, 10) {
        10
    } else if turned(x, y, r, 11) {
        11
    } else if turned(x, y, r, 12) {
        12
    } else if turned(x, y, r, 13) {
        13
    } else if turned(x, y, r, 14) {
        14
    } else {
        15
    }
}

/// Two states that lie two steps apart differ by 2 modulo 4, so a skip
/// turns their top digits by amounts that differ by half the range. Some
/// number of skips below 16 therefore brings both to the centre.
pub proof fn lemma_skips_to_centre(first: nat, second: nat) -> (m: nat)
    requires
        first < modulus(),
        second < modulus(),
        second % 4 == (first + 2) % 4,
    ensures
        m < 16,
        central(skip(first, m) as int),
        central(skip(second, m) as int),
        off_centre(skip(first, m) as int),
{
    let x = (first / 0x1000_0000_0000) as u8;
    let y = (second / 0x1000_0000_0000) as u8;
    let r = (first % 4) as u8;
    let m = lemma_some_turn(x, y, r);
    lemma_skip_digits(first, m as nat);
    lemma_skip_digits(second, m as nat);
    assert(second % 4 == (r + 2) % 4);
    m as nat
}

/// One step adds 3 to a state modulo 4.
pub proof fn lemma_step_mod_4(state: nat)
    ensures
        step(state) % 4 == (state + 3) % 4,
{
    let exact = (state * 0x5DEECE66D + 11) as int;
    let q = exact / 0x1_0000_0000_0000;
    lemma_fundamental_div_mod(exact, 0x1_0000_0000_0000);
    let k = 0x1_77BB_399B * state + 2 - 0x4000_0000_0000 * q;
    assert(step(state) == 4 * k + (state + 3));
    lemma_mod_multiples_vanish(k, (state + 3) as int, 4);
}

/// The number of steps after which the top bit of every state has flipped: `2^47`.
pub open spec fn half_period() -> nat {
    0x8000_0000_0000
}

/// After `2^47` steps the sequence has moved by exactly half the modulus:
/// the top bit of the state is flipped and the other 47 bits are back.
pub proof fn lemma_half_period(state: nat)
    requires
        state < modulus(),
    ensures
        step_n(state, half_period()) == (state + 0x8000_0000_0000) % 0x1_0000_0000_0000,
{
    lemma2_to64();
    lemma2_to64_rest();
    lemma_leap(47, state);
    lemma_leap_47();
}

/// From every state the sequence reaches, within `2^47` steps, a state whose
/// top bit is clear.
pub proof fn lemma_reaches_lower_half(state: nat) -> (k: nat)
    requires
        state < modulus(),
    ensures
        k <= half_period(),
        step_n(state, k) < 0x8000_0000_0000,
{
    if state < 0x8000_0000_0000 {
        0
    } else {
        lemma_half_period(state);
        half_period()
    }
}

} // verus!
