//! Candidate points along the sequence: the polar method draws points, four
//! draws each, until one is accepted. Here is which point that is, and why
//! there always is one.
use crate::gauss::{
    coordinate, is_coordinate, is_norm, lemma_central_point_accepted, point_rejected,
    rounded_norm,
};
use crate::ieee::lemma_binary64_unique;
use crate::lcg::{
    central, fraction_53, lemma_skip, lemma_skips_to_centre, lemma_step_bound, lemma_step_mod_4,
    lemma_step_n_add, lemma_top_bits_bound, modulus, off_centre, step, step_n, top_bits,
};
use vstd::arithmetic::power2::{lemma2_to64, pow2};
use vstd::math::abs;
use vstd::prelude::*;

verus! {

/// The fraction of the first coordinate of the `j`-th candidate point
/// drawn from `state`.
pub open spec fn first_fraction(state: nat, j: nat) -> nat {
    fraction_53(step_n(state, (4 * (j - 1)) as nat))
}

/// The fraction of the second coordinate of the `j`-th candidate point
/// drawn from `state`.
pub open spec fn second_fraction(state: nat, j: nat) -> nat {
    fraction_53(step_n(state, (4 * (j - 1) + 2) as nat))
}

/// The `j`-th candidate point drawn from `state` is rejected.
pub open spec fn candidate_rejected(state: nat, j: nat) -> bool {
    point_rejected(first_fraction(state, j), second_fraction(state, j))
}

/// The `k`-th candidate point drawn from `state` is the first accepted one.
pub open spec fn first_accepted_point(state: nat, k: nat) -> bool {
    &&& k >= 1
    &&& !candidate_rejected(state, k)
    &&& forall|j: nat| 1 <= j < k ==> #[trigger] candidate_rejected(state, j)
}

/// The number of candidate points that the polar method draws from
/// `state`: the rejected ones and the accepted one.
pub open spec fn points_needed(state: nat) -> nat {
    choose|k: nat| first_accepted_point(state, k)
}

/// `point` holds the binary64 bit patterns of `x`, `y` and
/// `s = x * x + y * y` of the `j`-th candidate point drawn from `state`.
pub open spec fn is_point(point: (u64, u64, u64), state: nat, j: nat) -> bool {
    &&& is_coordinate(point.0 as nat, first_fraction(state, j))
    &&& is_coordinate(point.1 as nat, second_fraction(state, j))
    &&& is_norm(point.2 as nat, first_fraction(state, j), second_fraction(state, j))
}

/// `point` holds the bit patterns of the first accepted candidate point
/// drawn from `state`.
pub open spec fn is_accepted_point(point: (u64, u64, u64), state: nat) -> bool {
    is_point(point, state, points_needed(state))
}

/// The bit pattern of the coordinate `2 * (n / 2^53) - 1`.
pub open spec fn coordinate_pattern(n: nat) -> u64 {
    choose|bits: u64| is_coordinate(bits as nat, n)
}

/// The bit pattern of `s` for the point with the fractions `nx / 2^53` and
/// `ny / 2^53`.
pub open spec fn norm_pattern(nx: nat, ny: nat) -> u64 {
    choose|bits: u64| is_norm(bits as nat, nx, ny)
}

/// The bit patterns of `x`, `y` and `s` of the first accepted candidate
/// point drawn from `state`.
pub open spec fn accepted_point(state: nat) -> (u64, u64, u64) {
    let nx = first_fraction(state, points_needed(state));
    let ny = second_fraction(state, points_needed(state));
    (coordinate_pattern(nx), coordinate_pattern(ny), norm_pattern(nx, ny))
}

/// The patterns that the operations hand out for an accepted point are
/// those that `accepted_point` names.
pub proof fn lemma_accepted_point(point: (u64, u64, u64), state: nat)
    requires
        is_accepted_point(point, state),
    ensures
        point == accepted_point(state),
{
    let nx = first_fraction(state, points_needed(state));
    let ny = second_fraction(state, points_needed(state));
    let named = accepted_point(state);
    assert(is_coordinate(named.0 as nat, nx));
    assert(is_coordinate(named.1 as nat, ny));
    assert(is_norm(named.2 as nat, nx, ny));
    lemma_binary64_unique(
        point.0 as nat,
        named.0 as nat,
        coordinate(nx) < 0,
        abs(coordinate(nx)),
        1022,
    );
    lemma_binary64_unique(
        point.1 as nat,
        named.1 as nat,
        coordinate(ny) < 0,
        abs(coordinate(ny)),
        1022,
    );
    lemma_binary64_unique(
        point.2 as nat,
        named.2 as nat,
        false,
        rounded_norm(nx, ny),
        970,
    );
}

/// The candidate point after the `n`-th is drawn from the state `4 * n`
/// steps on, and leaves the generator four steps further.
pub proof fn lemma_next_candidate(state: nat, n: nat)
    ensures
        first_fraction(state, n + 1) == fraction_53(step_n(state, 4 * n)),
        second_fraction(state, n + 1) == fraction_53(step_n(step_n(state, 4 * n), 2)),
        step_n(step_n(state, 4 * n), 4) == step_n(state, 4 * (n + 1)),
{
    lemma_step_n_add(state, 4 * n, 2);
    lemma_step_n_add(state, 4 * n, 4);
    assert((4 * ((n + 1) - 1)) as nat == 4 * n);
    assert((4 * ((n + 1) - 1) + 2) as nat == 4 * n + 2);
    assert(4 * n + 4 == 4 * (n + 1));
}

/// A bound on the number of candidate points drawn: `15 * 2^42 + 1`.
pub open spec fn point_limit() -> nat {
    0x3C00_0000_0001
}

/// A fraction whose high draw comes from a central state lies in
/// `[1/4, 3/4)`, and is not `1/2` if that state is off the middle.
proof fn lemma_fraction_central(base: nat)
    requires
        central(step(base) as int),
    ensures
        0x8_0000_0000_0000 <= fraction_53(base) < 0x18_0000_0000_0000,
        off_centre(step(base) as int) ==> fraction_53(base) != 0x10_0000_0000_0000,
{
    let high = step(base);
    let low = step(high);
    lemma2_to64();
    assert(pow2((48 - 26) as nat) == 0x40_0000);
    assert(pow2(27) == 0x800_0000);
    lemma_step_bound(high);
    lemma_top_bits_bound(low, 27);
    assert(fraction_53(base) == (high / 0x40_0000) * 0x800_0000 + top_bits(low, 27));
}

/// The state `offset` steps after `state`, taken `far` steps further.
proof fn lemma_far(state: nat, offset: nat, far: nat)
    ensures
        step_n(state, far + offset) == step_n(step_n(state, offset), far),
{
    lemma_step_n_add(state, offset, far);
    assert(offset + far == far + offset);
}

/// Adding 3 twice modulo 4 adds 2.
proof fn lemma_two_turns(a: nat, b: nat, c: nat)
    requires
        b % 4 == (a + 3) % 4,
        c % 4 == (b + 3) % 4,
    ensures
        c % 4 == (a + 2) % 4,
{
}

/// The states one and three steps after `state` lie below the modulus and
/// differ by 2 modulo 4.
proof fn lemma_high_states(state: nat)
    ensures
        step_n(state, 1) < modulus(),
        step_n(state, 3) < modulus(),
        step_n(state, 3) % 4 == (step_n(state, 1) + 2) % 4,
{
    let first = step(state);
    let second = step(first);
    let third = step(second);
    assert(step_n(state, 1) == first && step_n(state, 3) == third) by {
        reveal_with_fuel(step_n, 4);
    }
    lemma_step_bound(state);
    lemma_step_bound(second);
    lemma_step_mod_4(first);
    lemma_step_mod_4(second);
    lemma_two_turns(first, second, third);
}

/// From every state some candidate point among the first `15 * 2^42 + 1`
/// is accepted. The high draws of a point come from states two steps
/// apart; `2^44` steps on, both have their top digits turned, by amounts
/// that differ by half the range, and within 16 such skips both
/// coordinates are at most `1/2` in size.
pub proof fn lemma_some_point_accepted(state: nat) -> (j: nat)
    ensures
        1 <= j <= point_limit(),
        !candidate_rejected(state, j),
{
    let first = step_n(state, 1);
    let second = step_n(state, 3);
    lemma_high_states(state);
    let m = lemma_skips_to_centre(first, second);
    let far = m * 0x1000_0000_0000;
    let j = m * 0x400_0000_0000 + 1;
    assert((4 * (j - 1)) as nat == far);
    assert((4 * (j - 1) + 2) as nat == far + 2);
    lemma_skip(first, m);
    lemma_skip(second, m);
    lemma_far(state, 1, far);
    lemma_far(state, 3, far);
    let base_x = step_n(state, far);
    let base_y = step_n(state, far + 2);
    assert(step(base_x) == step_n(state, far + 1));
    assert(step(base_y) == step_n(state, far + 3));
    lemma_fraction_central(base_x);
    lemma_fraction_central(base_y);
    lemma_central_point_accepted(first_fraction(state, j), second_fraction(state, j));
    j
}

/// Scans the candidate points from the `from`-th on for the first accepted
/// one, given that all earlier points are rejected and the `last` is
/// accepted.
proof fn lemma_scan(state: nat, from: nat, last: nat) -> (k: nat)
    requires
        1 <= from <= last,
        forall|j: nat| 1 <= j < from ==> #[trigger] candidate_rejected(state, j),
        !candidate_rejected(state, last),
    ensures
        from <= k <= last,
        first_accepted_point(state, k),
    decreases last - from,
{
    if !candidate_rejected(state, from) {
        from
    } else {
        lemma_scan(state, from + 1, last)
    }
}

/// The first accepted point is unique, so it is the one that
/// `points_needed` names.
pub proof fn lemma_points_needed(state: nat, k: nat)
    requires
        first_accepted_point(state, k),
    ensures
        points_needed(state) == k,
{
    let other = points_needed(state);
    assert(first_accepted_point(state, other));
    if other < k {
        assert(candidate_rejected(state, other));
    } else if k < other {
        assert(candidate_rejected(state, k));
    }
}

/// The polar method ends: from every state there is a first accepted
/// candidate point, and it is among the first `15 * 2^42 + 1`.
pub proof fn lemma_polar_ends(state: nat)
    ensures
        first_accepted_point(state, points_needed(state)),
        points_needed(state) <= point_limit(),
{
    let last = lemma_some_point_accepted(state);
    let k = lemma_scan(state, 1, last);
    lemma_points_needed(state, k);
}

} // verus!
