//! The generator: a 48-bit state and the deviate held back from the last
//! Gaussian pair.
use crate::bound::{
    candidate, draws_needed, first_accepted, is_power_of_two, lemma_draws_needed,
    lemma_power_of_two_test, lemma_some_draw_accepted, rejects, scaled,
};
use crate::gauss::{is_coordinate, is_norm, point_rejected, polar_point};
use crate::polar::{
    accepted_point, candidate_rejected, first_accepted_point, is_accepted_point, is_point,
    lemma_accepted_point, lemma_next_candidate, lemma_points_needed, lemma_some_point_accepted,
    points_needed,
};
use crate::ieee::{
    is_unit_binary32, is_unit_binary64, lemma_unit_binary32_pattern,
    lemma_unit_binary64_pattern, unit_binary32, unit_binary32_pattern, unit_binary64,
    unit_binary64_pattern,
};
use crate::lcg::{
    byte_of, draw, draws_for_bytes, fraction_53, lemma_seeded_bound, lemma_step_n_add,
    lemma_step_n_shift, lemma_top_bits_bound, lemma_two_steps, modulus, seeded, signed_32,
    signed_64, step, step_n, stream_byte, top_bits, INCREMENT, MASK, MULTIPLIER,
};
use vstd::arithmetic::div_mod::{
    lemma_add_mod_noop, lemma_div_denominator, lemma_fundamental_div_mod, lemma_mod_mod,
    lemma_mod_multiples_vanish, lemma_small_mod,
};
use vstd::arithmetic::power2::{lemma2_to64, lemma_pow2_adds, lemma_pow2_pos, pow2};
use vstd::bits::{lemma_u64_shl_is_mul, lemma_u64_shr_is_div};
use vstd::prelude::*;
use vstd::wrapping::u64_specs::{wrapping_add, wrapping_mul};

verus! {

/// A generator. Its state is a number below `2^48`; every draw advances it
/// by one step of the sequence.
#[derive(Debug)]
pub struct Random {
    state: u64,
    next_gaussian: Option<(u64, u64)>,
}

/// The wrapping multiply-add of a machine word, masked to 48 bits, is the
/// step of the sequence.
proof fn lemma_wrapping_step(state: u64)
    ensures
        (wrapping_add(wrapping_mul(state, MULTIPLIER), INCREMENT) & MASK) as nat == step(
            state as nat,
        ),
{
    let word: int = 0x1_0000_0000_0000_0000;
    let exact: int = state as int * 0x5DEECE66D + 11;
    let product = wrapping_mul(state, MULTIPLIER);
    let sum = wrapping_add(product, INCREMENT);
    assert(state as nat * MULTIPLIER as nat == state as int * 0x5DEECE66D);
    assert(sum as int == exact % word) by {
        let p: int = (state as int * 0x5DEECE66D) % word;
        assert(product as int == p);
        lemma_add_mod_noop(state as int * 0x5DEECE66D, 11, word);
        lemma_small_mod(11, word as nat);
        if p + 11 > u64::MAX {
            lemma_mod_multiples_vanish(-1, p + 11, word);
            lemma_small_mod((p + 11 - word) as nat, word as nat);
        } else {
            lemma_small_mod((p + 11) as nat, word as nat);
        }
    }
    assert(sum & 0xFFFF_FFFF_FFFF == sum % 0x1_0000_0000_0000) by (bit_vector);
    lemma_mod_mod(exact, 0x1_0000_0000_0000, 0x1_0000);
}

/// Dropping one more byte of a word divides once more by 256.
proof fn lemma_byte_shift(word: nat, k: nat)
    requires
        k < 4,
    ensures
        (word / pow2(8 * k)) / 256 == word / pow2(8 * (k + 1)),
{
    lemma2_to64();
    lemma_pow2_adds(8 * k, 8);
    lemma_pow2_pos(8 * k);
    lemma_div_denominator(word as int, pow2(8 * k) as int, 256);
}

/// Stores the bytes of `block`, least significant first, from index `at`
/// on: four of them, or as many as `bytes` still has room for. Returns the
/// index after the last byte stored.
fn store_low_bytes(bytes: &mut [u8], at: usize, block: u32) -> (end: usize)
    requires
        at < old(bytes)@.len(),
    ensures
        final(bytes)@.len() == old(bytes)@.len(),
        end == if at + 4 <= old(bytes)@.len() {
            at + 4
        } else {
            old(bytes)@.len() as int
        },
        forall|i: int| 0 <= i < at ==> final(bytes)@[i] == old(bytes)@[i],
        forall|i: int| at <= i < end ==> final(bytes)@[i] == byte_of(block as nat, (i - at) as nat),
{
    let len = bytes.len();
    let mut rest = block;
    let mut k: usize = 0;
    proof {
        lemma2_to64();
        assert(pow2(8 * 0) == 1);
    }
    while k < 4 && at + k < len
        invariant
            bytes@.len() == len,
            len == old(bytes)@.len(),
            at < len,
            k <= 4,
            at + k <= len,
            rest == block as nat / pow2(8 * k as nat),
            forall|i: int| 0 <= i < at ==> bytes@[i] == old(bytes)@[i],
            forall|i: int| at <= i < at + k ==> bytes@[i] == byte_of(block as nat, (i - at) as nat),
        decreases 4 - k,
    {
        proof {
            assert(rest & 0xFF == rest % 256) by (bit_vector);
            assert(rest >> 8 == rest / 256) by (bit_vector);
            lemma_byte_shift(block as nat, k as nat);
        }
        bytes[at + k] = (rest & 0xFF) as u8;
        rest = rest >> 8;
        k = k + 1;
    }
    at + k
}

impl Clone for Random {
    /// A copy in the same state, with the same deviate held back.
    fn clone(&self) -> (r: Self)
        ensures
            r == *self,
    {
        proof {
            use_type_invariant(self);
        }
        Random { state: self.state, next_gaussian: self.next_gaussian }
    }
}

impl Random {
    #[verifier::type_invariant]
    spec fn within_48_bits(self) -> bool {
        self.state < 0x1_0000_0000_0000
    }

    /// The current state of the sequence, a number below `2^48`.
    pub closed spec fn state(&self) -> nat {
        self.state as nat
    }

    /// What stands for the Gaussian deviate held back for the next request,
    /// if there is one: the bit patterns of the second coordinate `y` of the
    /// accepted point and of its `s`. The deviate is
    /// `y * sqrt(-2 * ln(s) / s)`.
    pub closed spec fn pending_gaussian(&self) -> Option<(u64, u64)> {
        self.next_gaussian
    }

    /// A generator seeded with `seed`, with no deviate held back.
    pub fn new(seed: u64) -> (r: Self)
        ensures
            r.state() == seeded(seed),
            r.state() < modulus(),
            r.pending_gaussian().is_none(),
    {
        proof {
            lemma_seeded_bound(seed);
        }
        Random { state: (seed ^ MULTIPLIER) & MASK, next_gaussian: None }
    }

    /// Reseeds the generator: afterwards it is what `new(seed)` returns,
    /// whatever it was before.
    pub fn set_seed(&mut self, seed: u64)
        ensures
            final(self).state() == seeded(seed),
            final(self).state() < modulus(),
            final(self).pending_gaussian().is_none(),
    {
        *self = Random::new(seed);
    }

    /// Advances the state by one step and returns its top `bits` bits.
    pub fn next(&mut self, bits: u8) -> (r: u64)
        requires
            bits <= 48,
        ensures
            final(self).state() == step(old(self).state()),
            final(self).state() < modulus(),
            final(self).pending_gaussian() == old(self).pending_gaussian(),
            r == top_bits(final(self).state(), bits as nat),
            r < pow2(bits as nat),
    {
        proof {
            use_type_invariant(&*self);
            lemma_wrapping_step(self.state);
        }
        let advanced = self.state.wrapping_mul(MULTIPLIER).wrapping_add(INCREMENT) & MASK;
        self.state = advanced;
        proof {
            lemma_u64_shr_is_div(advanced, (48 - bits) as u64);
            lemma_top_bits_bound(advanced as nat, bits as nat);
        }
        advanced >> (48 - bits)
    }

    /// A signed 32-bit integer: one 32-bit draw, read as two's complement.
    pub fn next_i32(&mut self) -> (r: i32)
        ensures
            final(self).state() == step(old(self).state()),
            final(self).pending_gaussian() == old(self).pending_gaussian(),
            r == signed_32(draw(old(self).state(), 32)),
    {
        let word = self.next_u32();
        assert(word as i32 as int == if word < 0x8000_0000u32 {
            word as int
        } else {
            word as int - 0x1_0000_0000
        }) by (bit_vector);
        word as i32
    }

    /// An unsigned 32-bit integer: one 32-bit draw.
    pub fn next_u32(&mut self) -> (r: u32)
        ensures
            final(self).state() == step(old(self).state()),
            final(self).pending_gaussian() == old(self).pending_gaussian(),
            r == draw(old(self).state(), 32),
    {
        proof {
            lemma2_to64();
        }
        self.next(32) as u32
    }

    /// A signed 64-bit integer: `next_u64`, read as two's complement.
    pub fn next_i64(&mut self) -> (r: i64)
        ensures
            final(self).state() == step_n(old(self).state(), 2),
            final(self).pending_gaussian() == old(self).pending_gaussian(),
            r == signed_64(
                draw(old(self).state(), 32) * 0x1_0000_0000 + draw(step(old(self).state()), 32),
            ),
    {
        let word = self.next_u64();
        assert(word as i64 as int == if word < 0x8000_0000_0000_0000u64 {
            word as int
        } else {
            word as int - 0x1_0000_0000_0000_0000
        }) by (bit_vector);
        word as i64
    }

    /// An unsigned 64-bit integer: two 32-bit draws, the first one in the
    /// high half.
    pub fn next_u64(&mut self) -> (r: u64)
        ensures
            final(self).state() == step_n(old(self).state(), 2),
            final(self).pending_gaussian() == old(self).pending_gaussian(),
            r == draw(old(self).state(), 32) * 0x1_0000_0000 + draw(step(old(self).state()), 32),
    {
        proof {
            lemma2_to64();
            lemma_two_steps(self.state());
        }
        let high = self.next(32);
        let low = self.next(32);
        proof {
            lemma_u64_shl_is_mul(high, 32);
        }
        (high << 32).wrapping_add(low)
    }

    /// A boolean: the top bit of the next state.
    pub fn next_bool(&mut self) -> (r: bool)
        ensures
            final(self).state() == step(old(self).state()),
            final(self).pending_gaussian() == old(self).pending_gaussian(),
            r == (draw(old(self).state(), 1) == 1),
    {
        self.next(1) == 1
    }

    /// An integer in `[0, max)`. A bound that is a power of two scales one
    /// 31-bit draw; any other bound takes 31-bit draws until one is not
    /// rejected and reduces it modulo `max`.
    pub fn next_i32_bound(&mut self, max: i32) -> (r: i32)
        requires
            max > 0,
        ensures
            0 <= r < max,
            final(self).pending_gaussian() == old(self).pending_gaussian(),
            is_power_of_two(max as int) ==> {
                &&& final(self).state() == step(old(self).state())
                &&& r == scaled(candidate(final(self).state()), max as int)
            },
            !is_power_of_two(max as int) ==> {
                &&& first_accepted(
                    old(self).state(),
                    max as int,
                    draws_needed(old(self).state(), max as int),
                )
                &&& final(self).state() == step_n(
                    old(self).state(),
                    draws_needed(old(self).state(), max as int),
                )
                &&& r == candidate(final(self).state()) % (max as int)
            },
    {
        let ghost start = self.state();
        proof {
            lemma2_to64();
            lemma_two_steps(start);
            lemma_power_of_two_test(max as u32);
        }
        let bound = max as u32;
        if bound & (bound - 1) == 0 {
            let drawn = self.next(31);
            assert(0 <= (bound as int) * (drawn as int) < 0x4000_0000_0000_0000
                && (bound as int) * (drawn as int) / 0x8000_0000 < bound as int)
                by (nonlinear_arith)
                requires
                    0 < bound < 0x8000_0000,
                    0 <= drawn < 0x8000_0000,
            ;
            let product = (bound as u64) * drawn;
            proof {
                lemma_u64_shr_is_div(product, 31);
            }
            return (product >> 31) as i32;
        }
        let ghost limit = lemma_some_draw_accepted(start, max as int);
        let ghost mut n: nat = 1;
        let mut attempt = self.draw_modulo(max);
        while attempt.1
            invariant
                1 <= n <= limit,
                !rejects(candidate(step_n(start, limit)), max as int),
                self.state() == step_n(start, n),
                self.pending_gaussian() == old(self).pending_gaussian(),
                attempt.0 == candidate(self.state()) % (max as int),
                0 <= attempt.0 < max,
                attempt.1 == rejects(candidate(self.state()), max as int),
                forall|j: nat|
                    1 <= j < n ==> rejects(candidate(#[trigger] step_n(start, j)), max as int),
            decreases limit - n,
        {
            proof {
                lemma_step_n_shift(start, n);
                assert(step_n(start, n + 1) == step(step_n(start, n)));
            }
            attempt = self.draw_modulo(max);
            proof {
                n = n + 1;
            }
        }
        proof {
            lemma_draws_needed(start, max as int, n);
        }
        attempt.0
    }

    /// One attempt of rejection sampling: a 31-bit draw reduced modulo
    /// `max`, and whether the draw is rejected.
    fn draw_modulo(&mut self, max: i32) -> (r: (i32, bool))
        requires
            max > 0,
        ensures
            final(self).state() == step(old(self).state()),
            final(self).pending_gaussian() == old(self).pending_gaussian(),
            r.0 == candidate(final(self).state()) % (max as int),
            0 <= r.0 < max,
            r.1 == rejects(candidate(final(self).state()), max as int),
    {
        proof {
            lemma2_to64();
        }
        let bits = self.next(31) as i32;
        let val = bits % max;
        proof {
            lemma_fundamental_div_mod(bits as int, max as int);
        }
        (val, (bits - val).wrapping_add(max - 1) < 0)
    }

    /// An integer in `[0, max)` for an unsigned bound below `2^31`: the
    /// signed bounded draw on the same number.
    pub fn next_u32_bound(&mut self, max: u32) -> (r: u32)
        requires
            0 < max < 0x8000_0000,
        ensures
            r < max,
            final(self).pending_gaussian() == old(self).pending_gaussian(),
            is_power_of_two(max as int) ==> {
                &&& final(self).state() == step(old(self).state())
                &&& r == scaled(candidate(final(self).state()), max as int)
            },
            !is_power_of_two(max as int) ==> {
                &&& first_accepted(
                    old(self).state(),
                    max as int,
                    draws_needed(old(self).state(), max as int),
                )
                &&& final(self).state() == step_n(
                    old(self).state(),
                    draws_needed(old(self).state(), max as int),
                )
                &&& r == candidate(final(self).state()) % (max as int)
            },
    {
        self.next_i32_bound(max as i32) as u32
    }

    /// Fills `bytes` from successive 32-bit draws, four bytes from each,
    /// least significant byte first. A last group of fewer than four bytes
    /// takes the low bytes of one more draw.
    pub fn next_bytes(&mut self, bytes: &mut [u8])
        ensures
            final(bytes)@.len() == old(bytes)@.len(),
            forall|i: int|
                0 <= i < final(bytes)@.len() ==> final(bytes)@[i] == stream_byte(
                    old(self).state(),
                    i as nat,
                ),
            final(self).state() == step_n(
                old(self).state(),
                draws_for_bytes(old(bytes)@.len()),
            ),
            final(self).pending_gaussian() == old(self).pending_gaussian(),
    {
        let ghost start = self.state();
        let len = bytes.len();
        let mut filled: usize = 0;
        while filled < len
            invariant
                bytes@.len() == len,
                filled <= len,
                filled % 4 == 0 || filled == len,
                self.state() == step_n(start, draws_for_bytes(filled as nat)),
                self.pending_gaussian() == old(self).pending_gaussian(),
                forall|i: int| 0 <= i < filled ==> bytes@[i] == stream_byte(start, i as nat),
            decreases len - filled,
        {
            let ghost base = filled as nat;
            proof {
                lemma_step_n_shift(start, base / 4);
            }
            let block = self.next_u32();
            filled = store_low_bytes(bytes, filled, block);
            assert forall|i: int| base <= i < filled implies bytes@[i] == stream_byte(
                start,
                i as nat,
            ) by {
                assert(i as nat / 4 == base / 4 && i as nat % 4 == i - base);
            }
        }
    }

    /// A binary32 number in `[0, 1)`, as its bit pattern: one 24-bit draw
    /// divided by `2^24`.
    pub fn next_f32(&mut self) -> (r: u32)
        ensures
            final(self).state() == step(old(self).state()),
            final(self).pending_gaussian() == old(self).pending_gaussian(),
            is_unit_binary32(r as nat, draw(old(self).state(), 24)),
            r == unit_binary32_pattern(draw(old(self).state(), 24)),
    {
        proof {
            lemma2_to64();
        }
        let numerator = self.next(24) as u32;
        let bits = unit_binary32(numerator);
        proof {
            lemma_unit_binary32_pattern(bits as nat, numerator as nat);
        }
        bits
    }

    /// A binary64 number in `[0, 1)`, as its bit pattern: a 26-bit draw and
    /// then a 27-bit draw, joined into a 53-bit number and divided by `2^53`.
    pub fn next_f64(&mut self) -> (r: u64)
        ensures
            final(self).state() == step_n(old(self).state(), 2),
            final(self).pending_gaussian() == old(self).pending_gaussian(),
            is_unit_binary64(r as nat, fraction_53(old(self).state())),
            r == unit_binary64_pattern(fraction_53(old(self).state())),
    {
        let numerator = self.next_fraction();
        let bits = unit_binary64(numerator);
        proof {
            lemma_unit_binary64_pattern(bits as nat, numerator as nat);
        }
        bits
    }

    /// The 53-bit numerator of the next binary64 fraction.
    fn next_fraction(&mut self) -> (r: u64)
        ensures
            final(self).state() == step_n(old(self).state(), 2),
            final(self).pending_gaussian() == old(self).pending_gaussian(),
            r == fraction_53(old(self).state()),
            r < 0x20_0000_0000_0000,
    {
        proof {
            lemma2_to64();
            lemma_two_steps(self.state());
        }
        let high = self.next(26);
        let low = self.next(27);
        proof {
            lemma_u64_shl_is_mul(high, 27);
        }
        (high << 27).wrapping_add(low)
    }

    /// Draws one candidate point of a Gaussian pair, four draws in all: the
    /// fractions `fx` and then `fy`, which give the point `x = 2 * fx - 1`,
    /// `y = 2 * fy - 1`. Returns nothing if the polar method rejects the
    /// point, and else the binary64 bit patterns of `x`, of `y` and of
    /// `s = x * x + y * y`.
    fn next_candidate(&mut self) -> (r: Option<(u64, u64, u64)>)
        ensures
            final(self).state() == step_n(old(self).state(), 4),
            final(self).pending_gaussian() == old(self).pending_gaussian(),
            r.is_none() <==> point_rejected(
                fraction_53(old(self).state()),
                fraction_53(step_n(old(self).state(), 2)),
            ),
            r matches Some((x, y, s)) ==> {
                &&& is_coordinate(x as nat, fraction_53(old(self).state()))
                &&& is_coordinate(y as nat, fraction_53(step_n(old(self).state(), 2)))
                &&& is_norm(
                    s as nat,
                    fraction_53(old(self).state()),
                    fraction_53(step_n(old(self).state(), 2)),
                )
            },
    {
        proof {
            lemma_step_n_add(self.state(), 2, 2);
        }
        let first = self.next_fraction();
        let second = self.next_fraction();
        polar_point(first, second)
    }

    /// The point of the next Gaussian pair: draws candidate points, four
    /// draws each, until the polar method accepts one, and returns the
    /// binary64 bit patterns of its `x`, of its `y` and of its
    /// `s = x * x + y * y`. The pair is `x` and `y`, each multiplied by
    /// `sqrt(-2 * ln(s) / s)`.
    pub fn next_gaussian_pair(&mut self) -> (r: (u64, u64, u64))
        ensures
            first_accepted_point(old(self).state(), points_needed(old(self).state())),
            final(self).state() == step_n(
                old(self).state(),
                4 * points_needed(old(self).state()),
            ),
            final(self).pending_gaussian() == old(self).pending_gaussian(),
            is_accepted_point(r, old(self).state()),
            r == accepted_point(old(self).state()),
    {
        let ghost start = self.state();
        let ghost limit = lemma_some_point_accepted(start);
        let ghost mut n: nat = 1;
        let mut point = self.next_candidate();
        proof {
            lemma_next_candidate(start, 0);
        }
        while point.is_none()
            invariant
                1 <= n <= limit,
                !candidate_rejected(start, limit),
                self.state() == step_n(start, 4 * n),
                self.pending_gaussian() == old(self).pending_gaussian(),
                point.is_none() <==> candidate_rejected(start, n),
                point matches Some(found) ==> is_point(found, start, n),
                forall|j: nat| 1 <= j < n ==> #[trigger] candidate_rejected(start, j),
            decreases limit - n,
        {
            proof {
                lemma_next_candidate(start, n);
            }
            point = self.next_candidate();
            proof {
                n = n + 1;
            }
        }
        proof {
            lemma_points_needed(start, n);
            lemma_accepted_point(point.unwrap(), start);
        }
        point.unwrap()
    }

    /// What stands for the next Gaussian deviate: the bit patterns of a
    /// coordinate `c` and of `s`, where the deviate is
    /// `c * sqrt(-2 * ln(s) / s)`. If a deviate is held back, it is handed
    /// out and no draw is made. Otherwise the point of the next pair is
    /// drawn, its first coordinate is handed out with its `s`, and its
    /// second coordinate is held back with the same `s`.
    pub fn next_gaussian(&mut self) -> (r: (u64, u64))
        ensures
            old(self).pending_gaussian() matches Some(held) ==> {
                &&& r == held
                &&& final(self).pending_gaussian().is_none()
                &&& final(self).state() == old(self).state()
            },
            old(self).pending_gaussian().is_none() ==> {
                &&& first_accepted_point(old(self).state(), points_needed(old(self).state()))
                &&& final(self).state() == step_n(
                    old(self).state(),
                    4 * points_needed(old(self).state()),
                )
                &&& is_accepted_point(accepted_point(old(self).state()), old(self).state())
                &&& r == (accepted_point(old(self).state()).0, accepted_point(old(self).state()).2)
                &&& final(self).pending_gaussian() == Some(
                    (accepted_point(old(self).state()).1, accepted_point(old(self).state()).2),
                )
            },
    {
        proof {
            use_type_invariant(&*self);
        }
        match self.next_gaussian {
            Some(held) => {
                self.next_gaussian = None;
                held
            },
            None => {
                let (x, y, s) = self.next_gaussian_pair();
                proof {
                    use_type_invariant(&*self);
                }
                self.next_gaussian = Some((y, s));
                (x, s)
            },
        }
    }
}

/// A generator is its state and the deviate it holds back: two generators
/// that agree on both are equal.
pub proof fn lemma_generator_determined(one: Random, other: Random)
    requires
        one.state() == other.state(),
        one.pending_gaussian() == other.pending_gaussian(),
    ensures
        one == other,
{
}

/// Seeding equivalence: a generator that was reseeded with `seed` is equal
/// to a new generator made with `seed`, whatever it was before.
pub proof fn lemma_reseeded_is_new(reseeded: Random, made: Random, seed: u64)
    requires
        reseeded.state() == seeded(seed) && reseeded.pending_gaussian().is_none(),
        made.state() == seeded(seed) && made.pending_gaussian().is_none(),
    ensures
        reseeded == made,
{
    lemma_generator_determined(reseeded, made);
}

} // verus!
