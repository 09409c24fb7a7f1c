//! Bit patterns of IEEE 754 numbers, built with integer arithmetic alone:
//! the binary32 and binary64 encodings of a fraction `n / 2^24` or
//! `n / 2^53`, and the binary64 encoding of any number of at most 53
//! significant digits. All of these are exactly representable, so no
//! rounding takes place here.
use vstd::arithmetic::power2::{
    lemma2_to64, lemma2_to64_rest, lemma_pow2_pos, lemma_pow2_strictly_increases,
    lemma_pow2_unfold, pow2,
};
use vstd::prelude::*;

verus! {

/// The bit pattern of the binary32 number 1.0.
pub const ONE_32: u32 = 0x3F80_0000;

/// The bit pattern of the binary64 number 1.0.
pub const ONE_64: u64 = 0x3FF0_0000_0000_0000;

/// The value of a finite, non-negative binary32 bit pattern, multiplied by
/// `2^149`. With exponent field `e` and fraction field `f`, the pattern
/// stands for `f * 2^-149` when `e` is 0 and for `(2^23 + f) * 2^(e - 150)`
/// otherwise.
pub open spec fn binary32_scaled(bits: nat) -> nat {
    let e = bits / 0x80_0000;
    let f = bits % 0x80_0000;
    if e == 0 {
        f
    } else {
        (0x80_0000 + f) * pow2((e - 1) as nat)
    }
}

/// The value of a finite, non-negative binary64 bit pattern, multiplied by
/// `2^1074`. With exponent field `e` and fraction field `f`, the pattern
/// stands for `f * 2^-1074` when `e` is 0 and for `(2^52 + f) * 2^(e - 1075)`
/// otherwise.
pub open spec fn binary64_scaled(bits: nat) -> nat {
    let e = bits / 0x10_0000_0000_0000;
    let f = bits % 0x10_0000_0000_0000;
    if e == 0 {
        f
    } else {
        (0x10_0000_0000_0000 + f) * pow2((e - 1) as nat)
    }
}

/// `bits` is the binary32 pattern of `n / 2^24`: a non-negative number
/// below 1.0 whose value, scaled by `2^149`, is `n * 2^125`.
pub open spec fn is_unit_binary32(bits: nat, n: nat) -> bool {
    &&& bits < ONE_32
    &&& binary32_scaled(bits) == n * pow2(125)
}

/// `bits` is the binary64 pattern of `n / 2^53`: a non-negative number
/// below 1.0 whose value, scaled by `2^1074`, is `n * 2^1021`.
pub open spec fn is_unit_binary64(bits: nat, n: nat) -> bool {
    &&& bits < ONE_64
    &&& binary64_scaled(bits) == n * pow2(1021)
}

/// The bit that holds the sign of a binary64 number.
pub const SIGN_64: u64 = 0x8000_0000_0000_0000;

/// `bits` is the binary64 pattern of the finite number with the given sign
/// whose magnitude, scaled by `2^1074`, is `magnitude * 2^k`.
pub open spec fn is_binary64(bits: nat, negative: bool, magnitude: nat, k: nat) -> bool {
    &&& bits / 0x8000_0000_0000_0000 == if negative {
        1nat
    } else {
        0nat
    }
    &&& bits % 0x8000_0000_0000_0000 < 0x7FF0_0000_0000_0000
    &&& binary64_scaled(bits % 0x8000_0000_0000_0000) == magnitude * pow2(k)
}

/// The binary32 bit pattern of `n / 2^24`.
pub open spec fn unit_binary32_pattern(n: nat) -> nat {
    choose|bits: nat| is_unit_binary32(bits, n)
}

/// The binary64 bit pattern of `n / 2^53`.
pub open spec fn unit_binary64_pattern(n: nat) -> nat {
    choose|bits: nat| is_unit_binary64(bits, n)
}

/// The binary32 bit pattern of `n / 2^24`.
pub fn unit_binary32(n: u32) -> (bits: u32)
    requires
        n < 0x100_0000,
    ensures
        is_unit_binary32(bits as nat, n as nat),
{
    if n == 0 {
        assert(0nat * pow2(125) == 0) by (nonlinear_arith);
        return 0;
    }
    let mut significand = n;
    let mut exponent: u32 = 126;
    proof {
        lemma2_to64();
        assert(pow2((exponent - 103) as nat) == 0x80_0000);
        assert(n as nat * 0x80_0000 >= 0x80_0000);
    }
    while significand < 0x80_0000
        invariant
            0 < significand < 0x100_0000,
            103 <= exponent <= 126,
            significand as nat * pow2((exponent - 103) as nat) >= 0x80_0000,
            significand as nat * pow2((exponent - 1) as nat) == n as nat * pow2(125),
        decreases exponent,
    {
        proof {
            let e = (exponent - 1) as nat;
            let room = (exponent - 103) as nat;
            lemma2_to64();
            assert(room > 0) by {
                if room == 0 {
                    assert(significand as nat * pow2(0) == significand as nat);
                }
            }
            lemma_pow2_unfold(e);
            lemma_pow2_unfold(room);
            assert((2 * significand) as nat * pow2((e - 1) as nat) == significand as nat * pow2(e))
                by (nonlinear_arith)
                requires
                    pow2(e) == 2 * pow2((e - 1) as nat),
            ;
            assert((2 * significand) as nat * pow2((room - 1) as nat) == significand as nat * pow2(
                room,
            )) by (nonlinear_arith)
                requires
                    pow2(room) == 2 * pow2((room - 1) as nat),
            ;
        }
        significand = 2 * significand;
        exponent = exponent - 1;
    }
    let bits = exponent * 0x80_0000 + (significand - 0x80_0000);
    proof {
        assert(bits as nat / 0x80_0000 == exponent);
        assert(bits as nat % 0x80_0000 == significand - 0x80_0000);
    }
    bits
}

/// The binary64 bit pattern of `n / 2^53`.
pub fn unit_binary64(n: u64) -> (bits: u64)
    requires
        n < 0x20_0000_0000_0000,
    ensures
        is_unit_binary64(bits as nat, n as nat),
{
    binary64_of(n, 1021)
}

/// The bit pattern of the non-negative binary64 number whose value, scaled
/// by `2^1074`, is `magnitude * 2^k`. The magnitude has at most 53 digits
/// or is `2^53`, and `k` keeps the number among the normal ones.
pub fn binary64_of(magnitude: u64, k: u32) -> (bits: u64)
    requires
        magnitude <= 0x20_0000_0000_0000,
        53 <= k <= 2000,
    ensures
        bits < 0x7FF0_0000_0000_0000,
        binary64_scaled(bits as nat) == magnitude as nat * pow2(k as nat),
        magnitude < 0x20_0000_0000_0000 ==> bits < (k + 2) * 0x10_0000_0000_0000,
{
    if magnitude == 0 {
        assert(0nat * pow2(k as nat) == 0) by (nonlinear_arith);
        return 0;
    }
    let mut significand = magnitude;
    let mut exponent: u64 = k as u64;
    proof {
        lemma2_to64_rest();
        lemma_pow2_unfold((k + 1) as nat);
    }
    if magnitude == 0x20_0000_0000_0000 {
        significand = 0x10_0000_0000_0000;
        exponent = exponent + 1;
        assert(0x10_0000_0000_0000 * pow2((k + 1) as nat) == 0x20_0000_0000_0000 * pow2(k as nat))
            by (nonlinear_arith)
            requires
                pow2((k + 1) as nat) == 2 * pow2(k as nat),
        ;
    }
    proof {
        assert(pow2(52) == 0x10_0000_0000_0000);
        assert(significand as nat * 0x10_0000_0000_0000 >= 0x10_0000_0000_0000);
    }
    let ghost floor = (exponent - 52) as nat;
    while significand < 0x10_0000_0000_0000
        invariant
            0 < significand < 0x20_0000_0000_0000,
            floor >= 1,
            floor <= exponent <= k + 1,
            magnitude < 0x20_0000_0000_0000 ==> exponent <= k,
            significand as nat * pow2((exponent - floor) as nat) >= 0x10_0000_0000_0000,
            significand as nat * pow2(exponent as nat) == magnitude as nat * pow2(k as nat),
        decreases exponent,
    {
        proof {
            let e = exponent as nat;
            let room = (exponent - floor) as nat;
            assert(room > 0) by {
                if room == 0 {
                    lemma2_to64();
                    assert(significand as nat * pow2(0) == significand as nat);
                }
            }
            lemma_pow2_unfold(e);
            lemma_pow2_unfold(room);
            assert((2 * significand) as nat * pow2((e - 1) as nat) == significand as nat * pow2(e))
                by (nonlinear_arith)
                requires
                    pow2(e) == 2 * pow2((e - 1) as nat),
            ;
            assert((2 * significand) as nat * pow2((room - 1) as nat) == significand as nat * pow2(
                room,
            )) by (nonlinear_arith)
                requires
                    pow2(room) == 2 * pow2((room - 1) as nat),
            ;
        }
        significand = 2 * significand;
        exponent = exponent - 1;
    }
    let field = exponent + 1;
    let bits = field * 0x10_0000_0000_0000 + (significand - 0x10_0000_0000_0000);
    proof {
        assert(bits as nat / 0x10_0000_0000_0000 == field);
        assert(bits as nat % 0x10_0000_0000_0000 == significand - 0x10_0000_0000_0000);
    }
    bits
}

/// Among the finite non-negative binary32 patterns, a greater pattern
/// stands for a greater number.
pub proof fn lemma_binary32_increasing(a: nat, b: nat)
    requires
        a < b < 0x7F80_0000,
    ensures
        binary32_scaled(a) < binary32_scaled(b),
{
    let (ea, fa) = (a / 0x80_0000, a % 0x80_0000);
    let (eb, fb) = (b / 0x80_0000, b % 0x80_0000);
    lemma_scaled_order(0x80_0000, ea, fa, eb, fb);
}

/// Among the finite non-negative binary64 patterns, a greater pattern
/// stands for a greater number.
pub proof fn lemma_binary64_increasing(a: nat, b: nat)
    requires
        a < b < 0x7FF0_0000_0000_0000,
    ensures
        binary64_scaled(a) < binary64_scaled(b),
{
    let (ea, fa) = (a / 0x10_0000_0000_0000, a % 0x10_0000_0000_0000);
    let (eb, fb) = (b / 0x10_0000_0000_0000, b % 0x10_0000_0000_0000);
    lemma_scaled_order(0x10_0000_0000_0000, ea, fa, eb, fb);
}

/// The order of two patterns with exponent and fraction fields `(ea, fa)`
/// and `(eb, fb)`, where `hidden` is the weight of the implicit digit.
proof fn lemma_scaled_order(hidden: nat, ea: nat, fa: nat, eb: nat, fb: nat)
    requires
        hidden > 0,
        fa < hidden,
        fb < hidden,
        ea < eb || (ea == eb && fa < fb),
    ensures
        (if ea == 0 {
            fa
        } else {
            (hidden + fa) * pow2((ea - 1) as nat)
        }) < (if eb == 0 {
            fb
        } else {
            (hidden + fb) * pow2((eb - 1) as nat)
        }),
{
    let wb = pow2((eb - 1) as nat);
    lemma_pow2_pos((eb - 1) as nat);
    if ea == eb {
        if ea > 0 {
            assert((hidden + fa) * wb < (hidden + fb) * wb) by (nonlinear_arith)
                requires
                    fa < fb,
                    wb > 0,
            ;
        }
    } else if ea == 0 {
        assert(hidden <= (hidden + fb) * wb) by (nonlinear_arith)
            requires
                wb > 0,
        ;
    } else {
        let wa = pow2((ea - 1) as nat);
        lemma_pow2_pos((ea - 1) as nat);
        lemma_pow2_unfold(ea);
        if ea < eb - 1 {
            lemma_pow2_strictly_increases(ea, (eb - 1) as nat);
        }
        assert(2 * wa <= wb);
        assert((hidden + fa) * wa < (hidden + fb) * wb) by (nonlinear_arith)
            requires
                fa < hidden,
                2 * wa <= wb,
                wa > 0,
                hidden > 0,
        ;
    }
}

/// At most one bit pattern is the binary32 pattern of `n / 2^24`.
pub proof fn lemma_unit_binary32_unique(a: nat, b: nat, n: nat)
    requires
        is_unit_binary32(a, n),
        is_unit_binary32(b, n),
    ensures
        a == b,
{
    if a < b {
        lemma_binary32_increasing(a, b);
    } else if b < a {
        lemma_binary32_increasing(b, a);
    }
}

/// At most one bit pattern is the binary64 pattern of `n / 2^53`.
pub proof fn lemma_unit_binary64_unique(a: nat, b: nat, n: nat)
    requires
        is_unit_binary64(a, n),
        is_unit_binary64(b, n),
    ensures
        a == b,
{
    if a < b {
        lemma_binary64_increasing(a, b);
    } else if b < a {
        lemma_binary64_increasing(b, a);
    }
}

/// A pattern that meets `is_unit_binary32` is the one that
/// `unit_binary32_pattern` names.
pub proof fn lemma_unit_binary32_pattern(bits: nat, n: nat)
    requires
        is_unit_binary32(bits, n),
    ensures
        bits == unit_binary32_pattern(n),
{
    lemma_unit_binary32_unique(bits, unit_binary32_pattern(n), n);
}

/// A pattern that meets `is_unit_binary64` is the one that
/// `unit_binary64_pattern` names.
pub proof fn lemma_unit_binary64_pattern(bits: nat, n: nat)
    requires
        is_unit_binary64(bits, n),
    ensures
        bits == unit_binary64_pattern(n),
{
    lemma_unit_binary64_unique(bits, unit_binary64_pattern(n), n);
}

/// At most one bit pattern is the binary64 pattern of a number.
pub proof fn lemma_binary64_unique(a: nat, b: nat, negative: bool, magnitude: nat, k: nat)
    requires
        is_binary64(a, negative, magnitude, k),
        is_binary64(b, negative, magnitude, k),
    ensures
        a == b,
{
    let (low_a, low_b) = (a % 0x8000_0000_0000_0000, b % 0x8000_0000_0000_0000);
    if low_a < low_b {
        lemma_binary64_increasing(low_a, low_b);
    } else if low_b < low_a {
        lemma_binary64_increasing(low_b, low_a);
    }
}

/// A fraction `n / 2^24` lies in `[0, 1)`: its pattern stands for a number
/// below the one that the pattern of 1.0 stands for, and has no sign bit.
pub proof fn lemma_unit_binary32_below_one(bits: nat, n: nat)
    requires
        is_unit_binary32(bits, n),
    ensures
        bits < 0x8000_0000,
        binary32_scaled(bits) < binary32_scaled(ONE_32 as nat),
{
    lemma_binary32_increasing(bits, ONE_32 as nat);
}

/// A fraction `n / 2^53` lies in `[0, 1)`: its pattern stands for a number
/// below the one that the pattern of 1.0 stands for, and has no sign bit.
pub proof fn lemma_unit_binary64_below_one(bits: nat, n: nat)
    requires
        is_unit_binary64(bits, n),
    ensures
        bits < 0x8000_0000_0000_0000,
        binary64_scaled(bits) < binary64_scaled(ONE_64 as nat),
{
    lemma_binary64_increasing(bits, ONE_64 as nat);
}

} // verus!
