//! The candidate point of the polar method for Gaussian pairs, in integers.
//!
//! A candidate point has the coordinates `x = 2 * fx - 1` and
//! `y = 2 * fy - 1`, where `fx` and `fy` are fractions `n / 2^53`. Both
//! coordinates are binary64 numbers: `x = (n - 2^52) / 2^52`. The point is
//! judged by `s = x * x + y * y` in binary64 arithmetic, that is with each
//! product and the sum rounded to 53 significant digits, ties to even. All
//! numbers involved are multiples of `2^-104`, so `s` is computed on the
//! numerators, and the point is handed out as the bit patterns of `x`, `y`
//! and `s`.
use crate::ieee::{binary64_of, is_binary64, SIGN_64};
use vstd::arithmetic::div_mod::{
    lemma_div_denominator, lemma_fundamental_div_mod, lemma_mod_multiples_basic,
};
use vstd::arithmetic::power2::{
    lemma2_to64, lemma2_to64_rest, lemma_pow2_adds, lemma_pow2_pos,
    lemma_pow2_strictly_increases, lemma_pow2_unfold, pow2,
};
use vstd::math::abs;
use vstd::prelude::*;

verus! {

/// The number of binary digits of `p`: 0 for 0, and `k` for
/// `2^(k-1) <= p < 2^k`.
pub open spec fn bit_length(p: nat) -> nat
    decreases p,
{
    if p == 0 {
        0
    } else {
        1 + bit_length(p / 2)
    }
}

/// `p` rounded to 53 significant binary digits, to the nearest such number
/// and to the one with an even last digit when two are equally near.
#[verifier::opaque]
pub open spec fn round_to_53(p: nat) -> nat {
    if p < 0x20_0000_0000_0000 {
        p
    } else {
        let unit = pow2((bit_length(p) - 53) as nat);
        let kept = p / unit;
        let rest = p % unit;
        if 2 * rest > unit || (2 * rest == unit && kept % 2 == 1) {
            (kept + 1) * unit
        } else {
            kept * unit
        }
    }
}

/// The coordinate `2 * (n / 2^53) - 1`, multiplied by `2^52`.
pub open spec fn coordinate(n: nat) -> int {
    n - 0x10_0000_0000_0000
}

/// The binary64 product of a coordinate with itself, multiplied by `2^104`.
pub open spec fn rounded_square(n: nat) -> nat {
    round_to_53((coordinate(n) * coordinate(n)) as nat)
}

/// The binary64 number `s = x * x + y * y` of the point with the fractions
/// `nx / 2^53` and `ny / 2^53`, multiplied by `2^104`.
pub open spec fn rounded_norm(nx: nat, ny: nat) -> nat {
    round_to_53(rounded_square(nx) + rounded_square(ny))
}

/// The point is rejected when `s` is 1.0 or more, or is 0.0.
pub open spec fn point_rejected(nx: nat, ny: nat) -> bool {
    rounded_norm(nx, ny) >= 0x100_0000_0000_0000_0000_0000_0000 || rounded_norm(nx, ny) == 0
}

/// `bits` is the binary64 pattern of the coordinate `2 * (n / 2^53) - 1`.
pub open spec fn is_coordinate(bits: nat, n: nat) -> bool {
    is_binary64(bits, coordinate(n) < 0, abs(coordinate(n)), 1022)
}

/// `bits` is the binary64 pattern of `s = x * x + y * y` for the point with
/// the fractions `nx / 2^53` and `ny / 2^53`.
pub open spec fn is_norm(bits: nat, nx: nat, ny: nat) -> bool {
    is_binary64(bits, false, rounded_norm(nx, ny), 970)
}

/// A number between `2^(k-1)` and `2^k` has `k` binary digits.
pub proof fn lemma_bit_length(p: nat, k: nat)
    requires
        k >= 1,
        pow2((k - 1) as nat) <= p < pow2(k),
    ensures
        bit_length(p) == k,
    decreases k,
{
    lemma2_to64();
    lemma_pow2_unfold(k);
    if k == 1 {
        assert(p == 1);
        assert(bit_length(1) == 1) by {
            reveal_with_fuel(bit_length, 2);
        }
    } else {
        lemma_pow2_unfold((k - 1) as nat);
        lemma_bit_length(p / 2, (k - 1) as nat);
    }
}

/// Dropping `k` low digits of a number that has more than `k` leaves a
/// number with `k` digits fewer.
pub proof fn lemma_bit_length_shift(p: nat, k: nat)
    requires
        p / pow2(k) > 0,
    ensures
        bit_length(p) == bit_length(p / pow2(k)) + k,
    decreases k,
{
    lemma2_to64();
    lemma_pow2_pos(k);
    if k == 0 {
        assert(p / pow2(0) == p);
    } else {
        let j = (k - 1) as nat;
        lemma_pow2_unfold(k);
        lemma_pow2_pos(j);
        lemma_div_denominator(p as int, 2, pow2(j) as int);
        assert(p / pow2(k) == (p / 2) / pow2(j));
        lemma_bit_length_shift(p / 2, j);
        assert(p > 0) by {
            if p == 0 {
                assert(0nat / pow2(k) == 0) by (nonlinear_arith)
                    requires
                        pow2(k) > 0,
                ;
            }
        }
        assert(bit_length(p) == 1 + bit_length(p / 2));
    }
}

/// A positive number lies between the powers of two that its number of
/// digits names.
pub proof fn lemma_bit_length_bounds(p: nat)
    requires
        p > 0,
    ensures
        bit_length(p) >= 1,
        pow2((bit_length(p) - 1) as nat) <= p < pow2(bit_length(p)),
    decreases p,
{
    lemma2_to64();
    if p == 1 {
        assert(bit_length(1) == 1) by {
            reveal_with_fuel(bit_length, 2);
        }
    } else {
        lemma_bit_length_bounds(p / 2);
        lemma_pow2_unfold(bit_length(p));
        lemma_pow2_unfold(bit_length(p / 2));
    }
}

/// `round_to_53` rounds to a nearest number of 53 digits: a number of 53
/// digits or fewer is kept, and a longer one goes to a multiple of the unit
/// in its last kept place, at most half a unit away, that has 53 kept
/// digits or is the next power of two.
pub proof fn lemma_round_to_53_nearest(p: nat)
    ensures
        p < 0x20_0000_0000_0000 ==> round_to_53(p) == p,
        p >= 0x20_0000_0000_0000 ==> {
            let unit = pow2((bit_length(p) - 53) as nat);
            &&& unit >= 1
            &&& 0x10_0000_0000_0000 * unit <= p
            &&& round_to_53(p) % unit == 0
            &&& 2 * (round_to_53(p) - p) <= unit
            &&& 2 * (p - round_to_53(p)) <= unit
            &&& 0x10_0000_0000_0000 * unit <= round_to_53(p) <= 0x20_0000_0000_0000 * unit
        },
{
    reveal(round_to_53);
    if p >= 0x20_0000_0000_0000 {
        let len = bit_length(p);
        lemma_bit_length_bounds(p);
        lemma2_to64_rest();
        if len < 54 {
            if len < 53 {
                lemma_pow2_strictly_increases(len, 53);
            }
            assert(false);
        }
        let low = (len - 53) as nat;
        let unit = pow2(low);
        lemma_pow2_pos(low);
        lemma_pow2_adds(52, low);
        lemma_pow2_adds(53, low);
        let kept = p / unit;
        let rest = p % unit;
        lemma_fundamental_div_mod(p as int, unit as int);
        assert(0x10_0000_0000_0000 <= kept < 0x20_0000_0000_0000) by (nonlinear_arith)
            requires
                p == unit * kept + rest,
                0 <= rest < unit,
                0x10_0000_0000_0000 * unit <= p < 0x20_0000_0000_0000 * unit,
        ;
        assert({
            &&& 0x10_0000_0000_0000 * unit <= kept * unit
            &&& (kept + 1) * unit <= 0x20_0000_0000_0000 * unit
            &&& (kept + 1) * unit == kept * unit + unit
        }) by (nonlinear_arith)
            requires
                0x10_0000_0000_0000 <= kept < 0x20_0000_0000_0000,
                unit >= 1,
        ;
        assert(kept * unit == unit * kept) by (nonlinear_arith);
        lemma_mod_multiples_basic(kept as int, unit as int);
        lemma_mod_multiples_basic(kept as int + 1, unit as int);
    }
}

/// Rounding moves a number by less than one part in `2^53`, and keeps a
/// positive number positive.
pub proof fn lemma_round_to_53_close(p: nat)
    ensures
        0x20_0000_0000_0000 * round_to_53(p) <= 0x20_0000_0000_0001 * p,
        p > 0 ==> round_to_53(p) > 0,
{
    lemma_round_to_53_nearest(p);
}

/// A point whose fractions both lie in `[1/4, 3/4)`, the first of them not
/// `1/2`, is accepted: both coordinates are at most `1/2` in size, so `s` is
/// about `1/2` at most, and the first coordinate is not 0.
pub proof fn lemma_central_point_accepted(nx: nat, ny: nat)
    requires
        0x8_0000_0000_0000 <= nx < 0x18_0000_0000_0000,
        0x8_0000_0000_0000 <= ny < 0x18_0000_0000_0000,
        nx != 0x10_0000_0000_0000,
    ensures
        !point_rejected(nx, ny),
{
    let (x, y) = (coordinate(nx), coordinate(ny));
    assert(0 < x * x <= 0x40_0000_0000_0000_0000_0000_0000) by (nonlinear_arith)
        requires
            -0x8_0000_0000_0000 <= x <= 0x8_0000_0000_0000,
            x != 0,
    ;
    assert(0 <= y * y <= 0x40_0000_0000_0000_0000_0000_0000) by (nonlinear_arith)
        requires
            -0x8_0000_0000_0000 <= y <= 0x8_0000_0000_0000,
    ;
    lemma_round_to_53_close((x * x) as nat);
    lemma_round_to_53_close((y * y) as nat);
    lemma_round_to_53_close(rounded_square(nx) + rounded_square(ny));
}

/// `p` rounded to 53 significant binary digits, ties to even, for `p`
/// below `2^120`.
pub fn round_to_53_digits(p: u128) -> (r: u128)
    requires
        p < 0x100_0000_0000_0000_0000_0000_0000_0000,
    ensures
        r == round_to_53(p as nat),
        r <= 2 * p,
{
    let (kept, _, unit) = nearest_53(p);
    kept as u128 * unit
}

/// `p` rounded to 53 significant binary digits, ties to even, in parts:
/// the kept digits, the number of digits dropped, and the unit `2^dropped`
/// of the last kept place. The rounded number is `kept * unit`.
fn nearest_53(p: u128) -> (r: (u64, u32, u128))
    requires
        p < 0x100_0000_0000_0000_0000_0000_0000_0000,
    ensures
        r.0 <= 0x20_0000_0000_0000,
        r.1 <= 68,
        r.2 == pow2(r.1 as nat),
        r.0 * r.2 == round_to_53(p as nat),
        r.0 * r.2 <= 2 * p,
{
    proof {
        reveal(round_to_53);
        lemma2_to64();
    }
    if p < 0x20_0000_0000_0000 {
        return (p as u64, 0, 1);
    }
    let mut kept = p;
    let mut unit: u128 = 1;
    let mut dropped: u32 = 0;
    while kept >= 0x20_0000_0000_0000
        invariant
            unit == pow2(dropped as nat),
            unit >= 1,
            kept == p / unit,
            kept >= 0x10_0000_0000_0000,
            p < 0x100_0000_0000_0000_0000_0000_0000_0000,
            unit <= 0x10_0000_0000_0000_0000,
            dropped <= 68,
        decreases kept,
    {
        proof {
            lemma_pow2_unfold((dropped + 1) as nat);
            lemma_div_denominator(p as int, unit as int, 2);
            lemma_fundamental_div_mod(p as int, unit as int);
            assert(unit * 0x20_0000_0000_0000 <= unit * kept) by (nonlinear_arith)
                requires
                    kept >= 0x20_0000_0000_0000,
                    unit >= 1,
            ;
            assert(dropped < 67) by {
                if dropped >= 67 {
                    lemma2_to64();
                    lemma_pow2_adds(64, 3);
                    if dropped > 67 {
                        lemma_pow2_strictly_increases(67, dropped as nat);
                    }
                }
            }
        }
        kept = kept / 2;
        unit = unit * 2;
        dropped = dropped + 1;
    }
    proof {
        lemma2_to64_rest();
        assert(pow2(52) <= kept < pow2(53));
        lemma_bit_length(kept as nat, 53);
        lemma_bit_length_shift(p as nat, dropped as nat);
        lemma_fundamental_div_mod(p as int, unit as int);
        assert(kept * unit <= p && (kept + 1) * unit <= 2 * p) by (nonlinear_arith)
            requires
                p == unit * kept + p % unit,
                0 <= p % unit < unit,
                kept >= 1,
                unit >= 1,
        ;
    }
    let rest = p - kept * unit;
    if 2 * rest > unit || (2 * rest == unit && kept % 2 == 1) {
        ((kept + 1) as u64, dropped, unit)
    } else {
        (kept as u64, dropped, unit)
    }
}

/// The binary64 square of the coordinate with the fraction `n / 2^53`,
/// multiplied by `2^104`.
fn rounded_square_of(n: u64) -> (r: u128)
    requires
        n < 0x20_0000_0000_0000,
    ensures
        r == rounded_square(n as nat),
        r <= 0x200_0000_0000_0000_0000_0000_0000,
{
    let distance: u128 = if n >= 0x10_0000_0000_0000 {
        (n - 0x10_0000_0000_0000) as u128
    } else {
        (0x10_0000_0000_0000 - n) as u128
    };
    assert(distance * distance == coordinate(n as nat) * coordinate(n as nat)
        && distance * distance <= 0x100_0000_0000_0000_0000_0000_0000) by (nonlinear_arith)
        requires
            distance == coordinate(n as nat) || distance == -coordinate(n as nat),
            0 <= distance <= 0x10_0000_0000_0000,
    ;
    round_to_53_digits(distance * distance)
}

/// The bit pattern of the coordinate `2 * (n / 2^53) - 1`.
fn coordinate_pattern(n: u64) -> (bits: u64)
    requires
        n < 0x20_0000_0000_0000,
    ensures
        is_coordinate(bits as nat, n as nat),
{
    if n >= 0x10_0000_0000_0000 {
        let bits = binary64_of(n - 0x10_0000_0000_0000, 1022);
        proof {
            assert(bits as nat / 0x8000_0000_0000_0000 == 0);
            assert(bits as nat % 0x8000_0000_0000_0000 == bits);
        }
        bits
    } else {
        let bits = binary64_of(0x10_0000_0000_0000 - n, 1022);
        proof {
            assert((bits + SIGN_64) as nat / 0x8000_0000_0000_0000 == 1);
            assert((bits + SIGN_64) as nat % 0x8000_0000_0000_0000 == bits);
        }
        bits + SIGN_64
    }
}

/// Whether the polar method rejects the candidate point with the fractions
/// `nx / 2^53` and `ny / 2^53`.
pub fn rejects_point(nx: u64, ny: u64) -> (r: bool)
    requires
        nx < 0x20_0000_0000_0000,
        ny < 0x20_0000_0000_0000,
    ensures
        r == point_rejected(nx as nat, ny as nat),
{
    polar_point(nx, ny).is_none()
}

/// Judges the candidate point with the fractions `nx / 2^53` and
/// `ny / 2^53`. Returns nothing if the polar method rejects it, and else
/// the bit patterns of `x`, of `y` and of `s = x * x + y * y`.
pub fn polar_point(nx: u64, ny: u64) -> (r: Option<(u64, u64, u64)>)
    requires
        nx < 0x20_0000_0000_0000,
        ny < 0x20_0000_0000_0000,
    ensures
        r.is_none() <==> point_rejected(nx as nat, ny as nat),
        r matches Some((x, y, s)) ==> {
            &&& is_coordinate(x as nat, nx as nat)
            &&& is_coordinate(y as nat, ny as nat)
            &&& is_norm(s as nat, nx as nat, ny as nat)
        },
{
    let square_x = rounded_square_of(nx);
    let square_y = rounded_square_of(ny);
    let (kept, dropped, unit) = nearest_53(square_x + square_y);
    let norm = kept as u128 * unit;
    if norm >= 0x100_0000_0000_0000_0000_0000_0000 || norm == 0 {
        return None;
    }
    let s = binary64_of(kept, 970 + dropped);
    proof {
        lemma_pow2_adds(dropped as nat, 970);
        assert(kept as nat * pow2((970 + dropped) as nat) == (kept * unit) as nat * pow2(970))
            by (nonlinear_arith)
            requires
                pow2((970 + dropped) as nat) == unit as nat * pow2(970),
        ;
        assert(s as nat / 0x8000_0000_0000_0000 == 0);
        assert(s as nat % 0x8000_0000_0000_0000 == s);
    }
    Some((coordinate_pattern(nx), coordinate_pattern(ny), s))
}

} // verus!
