use java_rand::gauss::{polar_point, rejects_point, round_to_53_digits};
use java_rand::ieee::{binary64_of, unit_binary32, unit_binary64, ONE_32, ONE_64};
use java_rand::laws::{serve, serve_all, Request};
use java_rand::lcg::{INCREMENT, MASK, MULTIPLIER};
use java_rand::Random;

/// The candidate point of the polar method in `f64` arithmetic: nothing if
/// it is rejected, else the bit patterns of `x`, `y` and `s`.
fn point_in_floats(nx: u64, ny: u64) -> Option<(u64, u64, u64)> {
    let x = 2.0 * (nx as f64 / (1u64 << 53) as f64) - 1.0;
    let y = 2.0 * (ny as f64 / (1u64 << 53) as f64) - 1.0;
    let s = x * x + y * y;
    if s >= 1.0 || s == 0.0 {
        None
    } else {
        Some((x.to_bits(), y.to_bits(), s.to_bits()))
    }
}

/// The numerator over `2^53` of a fraction given by its bit pattern.
fn numerator(fraction: u64) -> u64 {
    (f64::from_bits(fraction) * (1u64 << 53) as f64) as u64
}

/// The number of draws that lead from the state of `from` to that of `to`.
fn draws_between(from: &Random, to: &Random) -> usize {
    let target = to.clone().next(48);
    let mut walker = from.clone();
    let mut count = 0;
    while walker.clone().next(48) != target {
        walker.next(48);
        count += 1;
        assert!(count < 10000);
    }
    count
}

/// The deviate that a coordinate and `s` stand for.
fn deviate(pair: (u64, u64)) -> f64 {
    let s = f64::from_bits(pair.1);
    f64::from_bits(pair.0) * (-2.0 * s.ln() / s).sqrt()
}

/// The acceptance test of the polar method in `f64` arithmetic.
fn rejects_in_floats(nx: u64, ny: u64) -> bool {
    point_in_floats(nx, ny).is_none()
}

#[test]
fn seed_42_first_word() {
    assert_eq!(Random::new(42).next_u32(), 3124862261);
    assert_eq!(Random::new(42).next_i32(), -1170105035);
}

#[test]
fn seed_0_first_sixteen_bytes() {
    let mut random = Random::new(0);
    let mut bytes = [0u8; 16];
    random.next_bytes(&mut bytes);
    assert_eq!(
        bytes,
        [96, 180, 32, 187, 56, 81, 217, 212, 122, 203, 147, 61, 190, 112, 57, 155]
    );
}

#[test]
fn seed_0_first_gaussian_pair() {
    let mut random = Random::new(0);
    let (x, y, s) = random.next_gaussian_pair();
    assert_eq!((x, y, s), (0x3fdd905a3a9b2a24, 0xbfe09b0d264c68f6, 0x3fdee410370d366e));
    let (x, y, s) = (f64::from_bits(x), f64::from_bits(y), f64::from_bits(s));
    assert_eq!(s, x * x + y * y);
    let multiplier = (-2.0 * s.ln() / s).sqrt();
    assert_eq!((x * multiplier).to_bits(), 0x3fe9ae59d1d6f861);
    assert_eq!((y * multiplier).to_bits(), 0xbfecd9772eb2e0c8);
    assert_eq!(x * multiplier, 0.8025330637390305);
}

#[test]
fn seed_0_two_gaussians_take_one_point() {
    let mut random = Random::new(0);
    let first = deviate(random.next_gaussian());
    let mut after_first = random.clone();
    let second = deviate(random.next_gaussian());
    assert_eq!(first.to_bits(), 4605403794758891617);
    assert_eq!(second.to_bits(), 13829667661655761096);
    // the second request drew nothing: both stand after the fourth draw
    assert_eq!(random.next_u32(), 2737687030);
    assert_eq!(after_first.next_u32(), 2737687030);
    let mut draws = Random::new(0);
    for _ in 0..4 {
        draws.next_u32();
    }
    assert_eq!(draws.next_u32(), 2737687030);
}

#[test]
fn gaussian_pair_redraws_after_a_rejected_point() {
    let mut random = Random::new(23);
    let mut candidates = random.clone();
    let first = (candidates.next_f64(), candidates.next_f64());
    assert!(rejects_in_floats(numerator(first.0), numerator(first.1)));
    let second = (candidates.next_f64(), candidates.next_f64());
    assert!(!rejects_in_floats(numerator(second.0), numerator(second.1)));
    assert_eq!(
        random.next_gaussian_pair(),
        (0xbfe1b157524f4412, 0xbfce841ebb56f188, 0x3fd733c2905f5de4)
    );
    // eight draws were made
    assert_eq!(random.next_u32(), 3370721163);
    assert_eq!(candidates.next_u32(), 3370721163);
    let mut random = Random::new(23);
    assert_eq!(deviate(random.next_gaussian()).to_bits(), 0xbff4edf9f46640a8);
    assert_eq!(deviate(random.next_gaussian()).to_bits(), 0xbfe20caac67b852b);
    assert_eq!(random.next_u32(), 3370721163);
}

#[test]
fn seed_is_scrambled_and_masked() {
    let mut plain = Random::new(0x1234);
    let mut high_bits_set = Random::new(0x1234 | 0xABCD_0000_0000_0000);
    assert_eq!(plain.next(48), high_bits_set.next(48));
    let state = (0x1234u64 ^ MULTIPLIER) & MASK;
    let next = state.wrapping_mul(MULTIPLIER).wrapping_add(INCREMENT) & MASK;
    assert_eq!(Random::new(0x1234).next(48), next);
}

#[test]
fn next_gives_the_top_bits() {
    let mut random = Random::new(5);
    assert_eq!(random.next(1), 1);
    assert_eq!(random.next(5), 5);
    assert_eq!(random.next(17), 11568);
    assert_eq!(random.next(31), 1313869424);
    assert_eq!(random.next(32), 2099829013);
    assert_eq!(random.next(48), 265986717128838);
}

#[test]
fn next_stays_below_two_to_the_bits() {
    let mut random = Random::new(0xDEAD_BEEF);
    for round in 0..64 {
        for bits in 1..=48u8 {
            let value = random.next(bits);
            assert!(value < 1u64 << bits, "round {} bits {}", round, bits);
        }
    }
}

#[test]
fn next_of_fewer_bits_is_a_prefix() {
    let mut wide = Random::new(77);
    let mut narrow = wide.clone();
    for bits in 0..=48u8 {
        assert_eq!(narrow.next(bits), wide.next(48) >> (48 - bits));
    }
}

#[test]
fn signed_results_reinterpret_the_unsigned_ones() {
    let mut signed = Random::new(31337);
    let mut unsigned = signed.clone();
    for _ in 0..200 {
        assert_eq!(signed.next_i32(), unsigned.next_u32() as i32);
    }
    for _ in 0..200 {
        assert_eq!(signed.next_i64(), unsigned.next_u64() as i64);
    }
}

#[test]
fn next_u64_joins_two_words_high_first() {
    let mut random = Random::new(0);
    assert_eq!(random.next_u64(), 13483975612328137016);
    assert_eq!(Random::new(0).next_i64(), -4962768461381414600);
    let mut joined = Random::new(8);
    let mut words = joined.clone();
    for _ in 0..100 {
        let high = words.next_u32() as u64;
        let low = words.next_u32() as u64;
        assert_eq!(joined.next_u64(), (high << 32) + low);
    }
}

#[test]
fn next_bool_is_the_top_bit() {
    let mut flags = Random::new(2024);
    let mut bits = flags.clone();
    for _ in 0..200 {
        assert_eq!(flags.next_bool(), bits.next(1) == 1);
    }
}

#[test]
fn bounded_values() {
    let mut random = Random::new(12345);
    let bounds = [1, 2, 3, 10, 100, 1 << 30, (1 << 30) + 1, i32::MAX, 65536, 999999999];
    let expected = [0, 1, 0, 8, 55, 40451042, 701101375, 267722802, 15435, 75883389];
    for (max, value) in bounds.iter().zip(expected.iter()) {
        assert_eq!(random.next_i32_bound(*max), *value);
    }
}

#[test]
fn bounded_stays_in_range() {
    let mut random = Random::new(424242);
    for max in [1, 2, 3, 5, 7, 16, 100, 1000, 65536, 1 << 30, (1 << 30) + 1, i32::MAX - 1, i32::MAX]
    {
        for _ in 0..200 {
            let value = random.next_i32_bound(max);
            assert!(0 <= value && value < max, "max {} value {}", max, value);
        }
    }
    for max in [1u32, 6, 1 << 16, (1 << 31) - 1] {
        for _ in 0..200 {
            assert!(random.next_u32_bound(max) < max);
        }
    }
}

#[test]
fn bounded_redraws_after_a_rejected_draw() {
    let max = (1 << 30) + 1;
    let mut random = Random::new(1);
    let mut draws = random.clone();
    assert_eq!(random.next_i32_bound(max), 215764588);
    let rejected = draws.next(31) as i64;
    assert!(rejected - rejected % max as i64 + (max as i64 - 1) > i32::MAX as i64);
    let accepted = draws.next(31) as i64;
    assert_eq!(accepted % max as i64, 215764588);
    assert_eq!(random.next_u32(), 1761283695);
    assert_eq!(draws.next_u32(), 1761283695);
}

#[test]
fn power_of_two_bound_scales_one_draw() {
    let mut random = Random::new(90210);
    let mut draws = random.clone();
    for shift in 0..31u32 {
        let max = 1i32 << shift;
        let drawn = draws.next(31);
        let value = random.next_i32_bound(max);
        assert_eq!(value as u64, drawn >> (31 - shift));
        let modulo = drawn % max as u64;
        let block = drawn - modulo + (max as u64 - 1);
        assert!(block < 1 << 31, "a power of two never rejects");
        if drawn >> (31 - shift) == modulo {
            assert_eq!(value as u64, modulo);
        }
    }
    assert_eq!(random.next_u32(), draws.next_u32());
}

#[test]
fn unsigned_bound_is_the_signed_one() {
    let mut unsigned = Random::new(606);
    let mut signed = unsigned.clone();
    for max in [1u32, 2, 9, 65536, 999999999, (1 << 31) - 1] {
        assert_eq!(unsigned.next_u32_bound(max), signed.next_i32_bound(max as i32) as u32);
    }
}

#[test]
fn bytes_come_low_byte_first() {
    let mut random = Random::new(17);
    let mut words = random.clone();
    let mut bytes = [0u8; 12];
    random.next_bytes(&mut bytes);
    for chunk in bytes.chunks(4) {
        assert_eq!(chunk, words.next_u32().to_le_bytes());
    }
}

#[test]
fn bytes_of_a_partial_group_take_one_draw() {
    let mut whole = [0u8; 8];
    Random::new(3).next_bytes(&mut whole);
    for len in 0..=8usize {
        let mut random = Random::new(3);
        let mut draws = random.clone();
        let mut bytes = vec![0u8; len];
        random.next_bytes(&mut bytes);
        assert_eq!(bytes[..], whole[..len]);
        for _ in 0..(len + 3) / 4 {
            draws.next_u32();
        }
        assert_eq!(random.next_u32(), draws.next_u32());
    }
}

#[test]
fn float_patterns() {
    let mut random = Random::new(99);
    assert_eq!(random.next_f32(), 0x3f38f2fa);
    assert_eq!(random.next_f32(), 0x3ec76cc2);
    assert_eq!(random.next_f32(), 0x3eb1cb48);
    let mut random = Random::new(99);
    assert_eq!(random.next_f64(), 0x3fe71e5f4b1db30c);
    assert_eq!(random.next_f64(), 0x3fd639691b5d8374);
    assert_eq!(random.next_f64(), 0x3fea19fd2b22035f);
    assert_eq!(f64::from_bits(Random::new(0).next_f64()), 0.730967787376657);
    assert_eq!(f32::from_bits(Random::new(0).next_f32()), 0.73096776);
}

#[test]
fn floats_are_the_draws_divided() {
    let mut random = Random::new(555);
    let mut draws = random.clone();
    for _ in 0..500 {
        let numerator = draws.next(24) as f32;
        let quotient = numerator / (1u32 << 24) as f32;
        assert_eq!(random.next_f32(), quotient.to_bits());
    }
    for _ in 0..500 {
        let high = (draws.next(26) as i64) << 27;
        let low = draws.next(27) as i64;
        let quotient = high.wrapping_add(low) as f64 / (1u64 << 53) as f64;
        assert_eq!(random.next_f64(), quotient.to_bits());
    }
}

#[test]
fn floats_lie_in_the_unit_interval() {
    let mut random = Random::new(987654321);
    for _ in 0..1000 {
        let bits = random.next_f32();
        assert!(bits < ONE_32);
        let single = f32::from_bits(bits);
        assert!(0.0 <= single && single < 1.0);
        let bits = random.next_f64();
        assert!(bits < ONE_64);
        let double = f64::from_bits(bits);
        assert!(0.0 <= double && double < 1.0);
    }
}

#[test]
fn unit_patterns_at_the_edges() {
    assert_eq!(unit_binary32(0), 0);
    assert_eq!(unit_binary32(1), 0x3380_0000);
    assert_eq!(unit_binary32(0x80_0000), 0x3F00_0000);
    assert_eq!(unit_binary32(0xFF_FFFF), 0x3F7F_FFFF);
    assert_eq!(unit_binary64(0), 0);
    assert_eq!(unit_binary64(1), 0x3CA0_0000_0000_0000);
    assert_eq!(unit_binary64(1 << 52), 0x3FE0_0000_0000_0000);
    assert_eq!(unit_binary64((1 << 53) - 1), 0x3FEF_FFFF_FFFF_FFFF);
    for shift in 0..24 {
        let n = (1u32 << shift) | (0x5A5A5A >> (24 - shift));
        assert_eq!(unit_binary32(n), (n as f32 / 16777216.0).to_bits());
    }
    for shift in 0..53 {
        let n = (1u64 << shift) | (0x15_5555_5555_5555 >> (53 - shift));
        assert_eq!(unit_binary64(n), (n as f64 / 9007199254740992.0).to_bits());
    }
}

#[test]
fn binary64_patterns_of_scaled_numbers() {
    // magnitude * 2^k, scaled by 2^1074: k = 1074 is the magnitude itself
    assert_eq!(binary64_of(1, 1074), 1.0f64.to_bits());
    assert_eq!(binary64_of(3, 1073), 1.5f64.to_bits());
    assert_eq!(binary64_of(1 << 53, 1021), 1.0f64.to_bits());
    assert_eq!(binary64_of(0, 1074), 0);
    assert_eq!(binary64_of((1 << 53) - 1, 1074), 9007199254740991.0f64.to_bits());
    assert_eq!(binary64_of(1, 53), (2.0 * f64::MIN_POSITIVE).to_bits());
    assert_eq!(binary64_of(1, 970), 2.0f64.powi(-104).to_bits());
    assert_eq!(binary64_of(5, 1022), (5.0 / 4503599627370496.0f64).to_bits());
}

#[test]
fn held_gaussian_is_served_without_a_draw() {
    let mut random = Random::new(2718);
    let (_, y, s) = random.clone().next_gaussian_pair();
    let (x, norm) = random.next_gaussian();
    assert_eq!(norm, s);
    let mut untouched = random.clone();
    assert_eq!(random.next_gaussian(), (y, s));
    assert_eq!(random.next(48), untouched.next(48));
    // the slot is empty again: the next request draws a new point
    let mut pairs = random.clone();
    let (next_x, _, next_s) = pairs.next_gaussian_pair();
    assert_eq!(random.next_gaussian(), (next_x, next_s));
    assert_ne!((next_x, next_s), (x, norm));
}

#[test]
fn held_gaussian_outlives_other_requests() {
    let mut random = Random::new(4);
    let (_, y, s) = random.clone().next_gaussian_pair();
    random.next_gaussian();
    random.next_u64();
    random.next_i32_bound(10);
    let mut bytes = [0u8; 5];
    random.next_bytes(&mut bytes);
    let mut draws = random.clone();
    assert_eq!(random.next_gaussian(), (y, s));
    assert_eq!(random.next_u32(), draws.next_u32());
}

#[test]
fn every_other_gaussian_draws() {
    let mut random = Random::new(161803);
    let mut redrawn = 0;
    for _ in 0..500 {
        // an odd request draws a positive multiple of four values
        let before = random.clone();
        random.next_gaussian();
        let drawn = draws_between(&before, &random);
        assert!(drawn > 0 && drawn % 4 == 0, "{}", drawn);
        if drawn > 4 {
            redrawn += 1;
        }
        // an even request draws none
        let before = random.clone();
        random.next_gaussian();
        assert_eq!(draws_between(&before, &random), 0);
    }
    assert!(redrawn > 50);
}

#[test]
fn gaussian_pair_is_the_first_accepted_point() {
    let mut random = Random::new(1618);
    let mut draws = random.clone();
    let mut rejected = 0;
    for _ in 0..200 {
        let point = random.next_gaussian_pair();
        loop {
            let first = ((draws.next(26) << 27) + draws.next(27)) as f64 / (1u64 << 53) as f64;
            let second = ((draws.next(26) << 27) + draws.next(27)) as f64 / (1u64 << 53) as f64;
            let x = 2.0 * first - 1.0;
            let y = 2.0 * second - 1.0;
            let s = x * x + y * y;
            if s >= 1.0 || s == 0.0 {
                rejected += 1;
            } else {
                assert_eq!(point, (x.to_bits(), y.to_bits(), s.to_bits()));
                break;
            }
        }
    }
    assert!(rejected > 20);
    assert_eq!(random.next(48), draws.next(48));
}

#[test]
fn point_test_agrees_with_float_arithmetic_on_drawn_points() {
    let mut random = Random::new(31415926);
    let mut rejected = 0;
    for _ in 0..20000 {
        let nx = random.next(48) << 5 | random.next(5);
        let ny = random.next(48) << 5 | random.next(5);
        assert_eq!(rejects_point(nx, ny), rejects_in_floats(nx, ny), "{} {}", nx, ny);
        assert_eq!(polar_point(nx, ny), point_in_floats(nx, ny), "{} {}", nx, ny);
        if rejects_point(nx, ny) {
            rejected += 1;
        }
    }
    assert!(rejected > 3000 && rejected < 6000);
}

#[test]
fn point_test_agrees_with_float_arithmetic_near_the_circle() {
    let one = 1u64 << 52;
    let top = (1u64 << 53) - 1;
    assert!(rejects_point(one, one));
    assert!(rejects_point(0, one));
    assert!(rejects_point(one, 0));
    assert!(rejects_point(0, 0));
    assert!(!rejects_point(one + 1, one));
    assert!(!rejects_point(one, one - 1));
    assert!(!rejects_point(top, one));
    assert!(!rejects_point(1, one));
    let mut random = Random::new(8675309);
    for _ in 0..20000 {
        // a point on the circle, moved by a few units in the last place
        let nx = random.next(48) << 5 | random.next(5);
        let x = 2.0 * (nx as f64 / (1u64 << 53) as f64) - 1.0;
        let y = (1.0 - x * x).sqrt();
        let on_circle = ((y + 1.0) / 2.0 * (1u64 << 53) as f64) as u64;
        for offset in 0..9u64 {
            let ny = (on_circle + offset).saturating_sub(4).min(top);
            assert_eq!(rejects_point(nx, ny), rejects_in_floats(nx, ny), "{} {}", nx, ny);
            assert_eq!(rejects_point(ny, nx), rejects_in_floats(ny, nx), "{} {}", ny, nx);
            assert_eq!(polar_point(nx, ny), point_in_floats(nx, ny), "{} {}", nx, ny);
            let mirrored = (1u64 << 53) - 1 - ny;
            assert_eq!(rejects_point(nx, mirrored), rejects_in_floats(nx, mirrored));
        }
    }
    for near in 0..64u64 {
        for other in 0..64u64 {
            for (nx, ny) in [
                (near, one + other),
                (top - near, one - other),
                (one + near, other),
                (one + near, one - other),
                (one - near, one + other),
            ] {
                assert_eq!(rejects_point(nx, ny), rejects_in_floats(nx, ny), "{} {}", nx, ny);
                assert_eq!(polar_point(nx, ny), point_in_floats(nx, ny), "{} {}", nx, ny);
            }
        }
    }
}

#[test]
fn rounding_agrees_with_the_conversion_to_f64() {
    assert_eq!(round_to_53_digits(0), 0);
    assert_eq!(round_to_53_digits((1 << 53) - 1), (1 << 53) - 1);
    assert_eq!(round_to_53_digits(1 << 53), 1 << 53);
    // a tie goes to the even neighbour
    assert_eq!(round_to_53_digits((1 << 53) + 1), 1 << 53);
    assert_eq!(round_to_53_digits((1 << 53) + 3), (1 << 53) + 4);
    assert_eq!(round_to_53_digits((1 << 54) + 2), 1 << 54);
    assert_eq!(round_to_53_digits((1 << 54) + 3), (1 << 54) + 4);
    assert_eq!(round_to_53_digits((1 << 54) - 1), 1 << 54);
    let mut random = Random::new(1123581321);
    for _ in 0..5000 {
        let wide = (random.next_u64() as u128) << 50 | random.next_u64() as u128;
        for shift in 0..64 {
            let p = wide >> shift;
            assert_eq!(round_to_53_digits(p), (p as f64) as u128, "{}", p);
            let q = (p | 1 << 113) & !((1u128 << (shift + 1)) - 1) | 1 << shift;
            assert_eq!(round_to_53_digits(q), (q as f64) as u128, "{}", q);
        }
    }
}

#[test]
fn set_seed_is_a_new_generator() {
    let mut used = Random::new(1);
    used.next_u64();
    used.next_i32_bound(1000);
    let held = used.next_gaussian();
    used.set_seed(2);
    let mut made = Random::new(2);
    // what was held before is gone: the request draws a new point
    let mut draws = made.clone();
    let after_reseed = used.next_gaussian();
    assert_ne!(after_reseed, held);
    assert_eq!(after_reseed, made.next_gaussian());
    for _ in 0..4 {
        draws.next_u32();
    }
    assert_eq!(used.clone().next_u32(), draws.next_u32());
    for _ in 0..100 {
        assert_eq!(used.next_u64(), made.next_u64());
        assert_eq!(used.next_i32_bound(1000), made.next_i32_bound(1000));
        assert_eq!(used.next_gaussian(), made.next_gaussian());
    }
}

#[test]
fn same_seed_same_answers() {
    let requests = vec![
        Request::Bits(48),
        Request::Bytes(7),
        Request::I32,
        Request::U32,
        Request::Gaussian,
        Request::I64,
        Request::U64,
        Request::Bool,
        Request::Bound(999999999),
        Request::Bound(65536),
        Request::UnsignedBound(12345),
        Request::GaussianPair,
        Request::F32,
        Request::Gaussian,
        Request::F64,
        Request::Bits(1),
        Request::Bytes(0),
    ];
    let mut one = Random::new(20240229);
    let mut other = Random::new(20240229);
    let mut different = Random::new(20240230);
    for _ in 0..50 {
        let answers = serve_all(&mut one, &requests);
        assert_eq!(answers.len(), requests.len());
        assert_eq!(answers, serve_all(&mut other, &requests));
        assert_ne!(answers, serve_all(&mut different, &requests));
    }
}

#[test]
fn serve_answers_as_the_operations_do() {
    let mut served = Random::new(11);
    let mut direct = served.clone();
    assert_eq!(serve(&mut served, Request::Bits(17)), [direct.next(17) as i128]);
    assert_eq!(serve(&mut served, Request::I32), [direct.next_i32() as i128]);
    assert_eq!(serve(&mut served, Request::U32), [direct.next_u32() as i128]);
    assert_eq!(serve(&mut served, Request::I64), [direct.next_i64() as i128]);
    assert_eq!(serve(&mut served, Request::U64), [direct.next_u64() as i128]);
    assert_eq!(serve(&mut served, Request::Bool), [direct.next_bool() as i128]);
    assert_eq!(serve(&mut served, Request::Bound(12345)), [direct.next_i32_bound(12345) as i128]);
    assert_eq!(serve(&mut served, Request::Bound(4096)), [direct.next_i32_bound(4096) as i128]);
    assert_eq!(
        serve(&mut served, Request::UnsignedBound(77)),
        [direct.next_u32_bound(77) as i128]
    );
    assert_eq!(serve(&mut served, Request::F32), [direct.next_f32() as i128]);
    assert_eq!(serve(&mut served, Request::F64), [direct.next_f64() as i128]);
    let mut bytes = [0u8; 6];
    direct.next_bytes(&mut bytes);
    let expected: Vec<i128> = bytes.iter().map(|byte| *byte as i128).collect();
    assert_eq!(serve(&mut served, Request::Bytes(6)), expected);
    let (x, s) = direct.next_gaussian();
    assert_eq!(serve(&mut served, Request::Gaussian), [x as i128, s as i128]);
    let (y, s) = direct.next_gaussian();
    assert_eq!(serve(&mut served, Request::Gaussian), [y as i128, s as i128]);
    let (x, y, s) = direct.next_gaussian_pair();
    assert_eq!(serve(&mut served, Request::GaussianPair), [x as i128, y as i128, s as i128]);
    assert_eq!(served.next_u64(), direct.next_u64());
}

#[test]
fn clone_goes_its_own_way() {
    let mut source = Random::new(1000);
    source.next_gaussian();
    let mut copy = source.clone();
    assert_eq!(copy.next_gaussian(), source.next_gaussian());
    let first = source.next_u32();
    source.next_u32();
    assert_eq!(copy.next_u32(), first);
}
