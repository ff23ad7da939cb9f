use math2d::Binary32;

fn num(v: f32) -> Binary32 {
    Binary32::from_bits(v.to_bits())
}

/// Whether `got` is the number that the machine computed: the same pattern,
/// or a NaN where the machine has a NaN.
fn agrees(got: Binary32, machine: f32) -> bool {
    if machine.is_nan() {
        got.is_nan()
    } else {
        got.to_bits() == machine.to_bits()
    }
}

fn landmarks() -> Vec<f32> {
    let mut all: Vec<f32> = vec![
        0.0,
        f32::from_bits(1),
        f32::from_bits(2),
        f32::from_bits(0x007f_ffff),
        f32::MIN_POSITIVE,
        f32::from_bits(0x0080_0001),
        f32::from_bits(0x00ff_ffff),
        f32::from_bits(0x0100_0000),
        1.0e-38,
        1.0e-20,
        f32::EPSILON,
        0.1,
        0.25,
        0.49999997,
        0.5,
        0.50000006,
        0.75,
        0.99999994,
        1.0,
        1.0000001,
        1.5,
        2.0,
        2.5,
        3.0,
        3.5,
        7.0,
        10.0,
        12.0,
        1024.0,
        4194303.5,
        4194304.5,
        8388607.0,
        8388607.5,
        8388608.0,
        8388609.0,
        16777215.0,
        16777216.0,
        16777218.0,
        1.0e20,
        1.8446744e19,
        1.7014117e38,
        1.7014118e38,
        3.4028233e38,
        f32::MAX,
        f32::INFINITY,
        f32::NAN,
    ];
    let positive: usize = all.len();
    for i in 0..positive {
        let negated: f32 = -all[i];
        all.push(negated);
    }
    all
}

/// A fixed sequence of patterns that covers all exponents.
fn next_pattern(state: &mut u32) -> u32 {
    let mut x: u32 = *state;
    x ^= x << 13;
    x ^= x >> 17;
    x ^= x << 5;
    *state = x;
    x
}

#[test]
fn from_bits_keeps_the_pattern() {
    let one = Binary32::from_bits(1.0f32.to_bits());
    assert_eq!(one.bits, 0x3f80_0000);
    assert_eq!(one.to_bits(), 0x3f80_0000);
    assert_eq!(f32::from_bits(one.to_bits()), 1.0);
}

#[test]
fn classification_follows_the_pattern() {
    for v in landmarks() {
        let n = num(v);
        assert_eq!(n.is_nan(), v.is_nan());
        assert_eq!(n.is_infinite(), v.is_infinite());
        assert_eq!(n.is_finite(), v.is_finite());
        assert_eq!(n.is_sign_negative(), v.is_sign_negative());
        assert_eq!(n.abs().to_bits(), v.abs().to_bits());
        assert_eq!(n.neg().to_bits(), (-v).to_bits());
        assert_eq!(n.magnitude_bits(), v.to_bits() & 0x7fff_ffff);
    }
}

#[test]
fn from_sign_and_magnitude_sets_the_sign_bit() {
    assert_eq!(Binary32::from_sign_and_magnitude(false, 0x3f80_0000).to_bits(), 1.0f32.to_bits());
    assert_eq!(Binary32::from_sign_and_magnitude(true, 0x3f80_0000).to_bits(), (-1.0f32).to_bits());
    assert_eq!(Binary32::from_sign_and_magnitude(true, 0).to_bits(), 0x8000_0000);
}

#[test]
fn comparisons_agree_with_the_machine_on_landmarks() {
    for a in landmarks() {
        for b in landmarks() {
            assert_eq!(num(a).lt(num(b)), a < b, "{a:e} < {b:e}");
            assert_eq!(num(a).le(num(b)), a <= b, "{a:e} <= {b:e}");
            assert_eq!(num(a).gt(num(b)), a > b, "{a:e} > {b:e}");
            assert_eq!(num(a).ge(num(b)), a >= b, "{a:e} >= {b:e}");
            assert_eq!(num(a).eq(num(b)), a == b, "{a:e} == {b:e}");
        }
    }
}

#[test]
fn zeros_are_equal_and_nan_is_unordered() {
    assert!(num(0.0).eq(num(-0.0)));
    assert!(!num(-0.0).lt(num(0.0)));
    assert!(num(-0.0).le(num(0.0)));
    assert!(!num(f32::NAN).eq(num(f32::NAN)));
    assert!(!num(f32::NAN).le(num(1.0)));
    assert!(!num(1.0).ge(num(f32::NAN)));
}

#[test]
fn sums_agree_with_the_machine_on_landmarks() {
    for a in landmarks() {
        for b in landmarks() {
            assert!(agrees(num(a).add(num(b)), a + b), "{a:e} + {b:e}");
            assert!(agrees(num(a).sub(num(b)), a - b), "{a:e} - {b:e}");
        }
    }
}

#[test]
fn products_agree_with_the_machine_on_landmarks() {
    for a in landmarks() {
        for b in landmarks() {
            assert!(agrees(num(a).mul(num(b)), a * b), "{a:e} * {b:e}");
        }
    }
}

#[test]
fn sums_agree_with_the_machine_on_many_patterns() {
    let mut state: u32 = 0x2545_f491;
    for _ in 0..1_000_000 {
        let a: f32 = f32::from_bits(next_pattern(&mut state));
        let b: f32 = f32::from_bits(next_pattern(&mut state));
        assert!(agrees(num(a).add(num(b)), a + b), "{a:e} + {b:e}");
        assert!(agrees(num(a).sub(num(b)), a - b), "{a:e} - {b:e}");
    }
}

#[test]
fn sums_of_near_magnitudes_agree_with_the_machine() {
    let mut state: u32 = 0x9e37_79b9;
    for _ in 0..1_000_000 {
        let a_bits: u32 = next_pattern(&mut state);
        let r: u32 = next_pattern(&mut state);
        // the exponent of `b` within 32 of that of `a`, its fraction and sign as they come
        let ea: u32 = (a_bits >> 23) & 0xff;
        let shifted: u32 = (ea + (r >> 26)).saturating_sub(32).min(254);
        let b_bits: u32 = (r & 0x807f_ffff) | (shifted << 23);
        let a: f32 = f32::from_bits(a_bits);
        let b: f32 = f32::from_bits(b_bits);
        assert!(agrees(num(a).add(num(b)), a + b), "{a:e} + {b:e}");
        assert!(agrees(num(a).sub(num(b)), a - b), "{a:e} - {b:e}");
    }
}

#[test]
fn products_agree_with_the_machine_on_many_patterns() {
    let mut state: u32 = 0x1234_5678;
    for _ in 0..1_000_000 {
        let a: f32 = f32::from_bits(next_pattern(&mut state));
        let b: f32 = f32::from_bits(next_pattern(&mut state));
        assert!(agrees(num(a).mul(num(b)), a * b), "{a:e} * {b:e}");
        // a second factor that brings the product near the subnormal range
        let ea: u32 = (a.to_bits() >> 23) & 0xff;
        let eb: u32 = (254 - ea).saturating_sub(b.to_bits() >> 27).min(254);
        let c: f32 = f32::from_bits((b.to_bits() & 0x807f_ffff) | (eb << 23));
        let small: u32 = 127u32.saturating_sub(ea / 2);
        let tiny: f32 = f32::from_bits((c.to_bits() & 0x807f_ffff) | (small << 23));
        assert!(agrees(num(a).mul(num(c)), a * c), "{a:e} * {c:e}");
        assert!(agrees(num(a).mul(num(tiny)), a * tiny), "{a:e} * {tiny:e}");
    }
}

#[test]
fn signs_of_zero_results() {
    assert_eq!(num(0.0).add(num(-0.0)).to_bits(), 0);
    assert_eq!(num(-0.0).add(num(-0.0)).to_bits(), 0x8000_0000);
    assert_eq!(num(1.5).sub(num(1.5)).to_bits(), 0);
    assert_eq!(num(-1.5).add(num(1.5)).to_bits(), 0);
    assert_eq!(num(-0.0).sub(num(0.0)).to_bits(), 0x8000_0000);
    assert_eq!(num(-3.0).mul(num(0.0)).to_bits(), 0x8000_0000);
    assert_eq!(num(-3.0).mul(num(-0.0)).to_bits(), 0);
}

#[test]
fn results_that_are_no_number() {
    assert!(num(f32::INFINITY).sub(num(f32::INFINITY)).is_nan());
    assert!(num(f32::INFINITY).add(num(f32::NEG_INFINITY)).is_nan());
    assert!(num(f32::INFINITY).mul(num(0.0)).is_nan());
    assert!(num(-0.0).mul(num(f32::NEG_INFINITY)).is_nan());
    assert!(num(f32::NAN).add(num(1.0)).is_nan());
    assert!(num(1.0).mul(num(f32::NAN)).is_nan());
    assert!(num(f32::NAN).round().is_nan());
}

#[test]
fn sums_round_to_nearest_with_ties_to_even() {
    // 2^24 + 1 lies halfway between 2^24 and 2^24 + 2
    assert_eq!(num(16777216.0).add(num(1.0)).to_bits(), 16777216.0f32.to_bits());
    // 2^24 + 3 lies halfway between 2^24 + 2 and 2^24 + 4
    assert_eq!(num(16777218.0).add(num(1.0)).to_bits(), 16777220.0f32.to_bits());
    assert_eq!(num(f32::MAX).add(num(f32::MAX)).to_bits(), f32::INFINITY.to_bits());
    // half a unit in the last place of the largest number is enough to overflow
    assert_eq!(num(f32::MAX).add(num(1.0141205e31)).to_bits(), f32::INFINITY.to_bits());
    assert_eq!(num(f32::MAX).add(num(1.0141204e31)).to_bits(), f32::MAX.to_bits());
    assert_eq!(num(0.1).add(num(0.2)).to_bits(), 0.3f32.to_bits());
    assert_eq!(num(1.0).sub(num(5.9604645e-8)).to_bits(), 0.99999994f32.to_bits());
    // 1 - 2^-25 lies halfway between that and 1
    assert_eq!(num(1.0).sub(num(2.9802322e-8)).to_bits(), 1.0f32.to_bits());
}

#[test]
fn products_round_into_the_subnormal_range() {
    let least: f32 = f32::from_bits(1);
    assert_eq!(num(least).mul(num(0.5)).to_bits(), 0);
    assert_eq!(num(least).mul(num(0.75)).to_bits(), 1);
    assert_eq!(num(least).mul(num(1.5)).to_bits(), 2);
    assert_eq!(num(least).mul(num(-2.5)).to_bits(), 0x8000_0002);
    assert_eq!(num(f32::MIN_POSITIVE).mul(num(0.5)).to_bits(), 0x0040_0000);
    assert_eq!(num(1.0e-30).mul(num(1.0e-30)).to_bits(), 0);
    assert_eq!(num(1.0e30).mul(num(-1.0e30)).to_bits(), f32::NEG_INFINITY.to_bits());
    assert_eq!(num(3.0).mul(num(7.0)).to_bits(), 21.0f32.to_bits());
}

#[test]
fn rounding_to_whole_numbers_agrees_with_the_machine() {
    for v in landmarks() {
        assert!(agrees(num(v).round(), v.round()), "round {v:e}");
    }
    let mut state: u32 = 0x0bad_cafe;
    for _ in 0..1_000_000 {
        let raw: u32 = next_pattern(&mut state);
        let v: f32 = f32::from_bits(raw);
        assert!(agrees(num(v).round(), v.round()), "round {v:e}");
        // the same fraction with an exponent where digits after the point exist
        let near: f32 = f32::from_bits((raw & 0x807f_ffff) | ((120 + (raw >> 23) % 32) << 23));
        assert!(agrees(num(near).round(), near.round()), "round {near:e}");
    }
}

#[test]
fn halves_round_away_from_zero() {
    assert_eq!(num(0.5).round().to_bits(), 1.0f32.to_bits());
    assert_eq!(num(-0.5).round().to_bits(), (-1.0f32).to_bits());
    assert_eq!(num(1.5).round().to_bits(), 2.0f32.to_bits());
    assert_eq!(num(2.5).round().to_bits(), 3.0f32.to_bits());
    assert_eq!(num(-2.5).round().to_bits(), (-3.0f32).to_bits());
    assert_eq!(num(3.49).round().to_bits(), 3.0f32.to_bits());
    assert_eq!(num(0.49999997).round().to_bits(), 0);
    assert_eq!(num(-0.3).round().to_bits(), 0x8000_0000);
    assert_eq!(num(8388607.5).round().to_bits(), 8388608.0f32.to_bits());
    assert_eq!(num(f32::NEG_INFINITY).round().to_bits(), f32::NEG_INFINITY.to_bits());
}

#[test]
fn zero_and_epsilon_are_the_machine_constants() {
    assert_eq!(Binary32::zero().to_bits(), 0.0f32.to_bits());
    assert_eq!(Binary32::epsilon().to_bits(), f32::EPSILON.to_bits());
}

#[test]
fn quotients_agree_with_the_machine_on_landmarks() {
    for a in landmarks() {
        for b in landmarks() {
            assert!(agrees(num(a).div(num(b)), a / b), "{a:e} / {b:e}");
        }
    }
}

#[test]
fn quotients_agree_with_the_machine_on_many_patterns() {
    let mut state: u32 = 0x7f4a_7c15;
    for _ in 0..1_000_000 {
        let a: f32 = f32::from_bits(next_pattern(&mut state));
        let b: f32 = f32::from_bits(next_pattern(&mut state));
        assert!(agrees(num(a).div(num(b)), a / b), "{a:e} / {b:e}");
        // a divisor that brings the quotient near the subnormal range
        let ea: u32 = (a.to_bits() >> 23) & 0xff;
        let eb: u32 = (ea + 110 + (b.to_bits() >> 27)).min(254);
        let c: f32 = f32::from_bits((b.to_bits() & 0x807f_ffff) | (eb << 23));
        assert!(agrees(num(a).div(num(c)), a / c), "{a:e} / {c:e}");
    }
}

#[test]
fn quotients_of_special_values() {
    assert_eq!(num(1.0).div(num(0.0)).to_bits(), f32::INFINITY.to_bits());
    assert_eq!(num(-1.0).div(num(0.0)).to_bits(), f32::NEG_INFINITY.to_bits());
    assert_eq!(num(1.0).div(num(-0.0)).to_bits(), f32::NEG_INFINITY.to_bits());
    assert!(num(0.0).div(num(0.0)).is_nan());
    assert!(num(f32::INFINITY).div(num(f32::NEG_INFINITY)).is_nan());
    assert_eq!(num(3.0).div(num(f32::NEG_INFINITY)).to_bits(), 0x8000_0000);
    assert_eq!(num(0.0).div(num(-3.0)).to_bits(), 0x8000_0000);
    assert_eq!(num(1.0).div(num(3.0)).to_bits(), 0.33333334f32.to_bits());
    assert_eq!(num(2.0).div(num(3.0)).to_bits(), 0.6666667f32.to_bits());
    assert_eq!(num(f32::from_bits(1)).div(num(2.0)).to_bits(), 0);
    assert_eq!(num(f32::from_bits(3)).div(num(2.0)).to_bits(), 2);
    assert_eq!(num(f32::MAX).div(num(0.5)).to_bits(), f32::INFINITY.to_bits());
}

#[test]
fn square_roots_agree_with_the_machine() {
    for v in landmarks() {
        assert!(agrees(num(v).sqrt(), v.sqrt()), "sqrt {v:e}");
    }
    let mut state: u32 = 0x3c6e_f372;
    for _ in 0..1_000_000 {
        let v: f32 = f32::from_bits(next_pattern(&mut state));
        assert!(agrees(num(v).sqrt(), v.sqrt()), "sqrt {v:e}");
        let w: f32 = v.abs();
        assert!(agrees(num(w).sqrt(), w.sqrt()), "sqrt {w:e}");
    }
}

#[test]
fn square_roots_of_special_values() {
    assert_eq!(num(0.0).sqrt().to_bits(), 0);
    assert_eq!(num(-0.0).sqrt().to_bits(), 0x8000_0000);
    assert!(num(-1.0).sqrt().is_nan());
    assert!(num(f32::NEG_INFINITY).sqrt().is_nan());
    assert_eq!(num(f32::INFINITY).sqrt().to_bits(), f32::INFINITY.to_bits());
    assert_eq!(num(4.0).sqrt().to_bits(), 2.0f32.to_bits());
    assert_eq!(num(2.0).sqrt().to_bits(), 1.4142135f32.to_bits());
    assert_eq!(num(0.25).sqrt().to_bits(), 0.5f32.to_bits());
    assert_eq!(num(f32::from_bits(1)).sqrt().to_bits(), 3.7433922e-23f32.to_bits());
    assert_eq!(num(f32::MAX).sqrt().to_bits(), 1.8446743e19f32.to_bits());
}

#[test]
fn bit_length_counts_the_bits() {
    assert_eq!(math2d::pack::bit_length(0), 0);
    assert_eq!(math2d::pack::bit_length(1), 1);
    assert_eq!(math2d::pack::bit_length(2), 2);
    assert_eq!(math2d::pack::bit_length(3), 2);
    assert_eq!(math2d::pack::bit_length(0x80_0000), 24);
    assert_eq!(math2d::pack::bit_length(0xff_ffff), 24);
    assert_eq!(math2d::pack::bit_length(u64::MAX), 64);
    for n in 1..64u32 {
        assert_eq!(math2d::pack::bit_length(1u64 << n), n + 1);
        assert_eq!(math2d::pack::bit_length((1u64 << n) - 1), n);
    }
}

#[test]
fn integer_sqrt_is_the_whole_part_of_the_root() {
    let exact: [(u64, u64); 9] = [
        (0, 0),
        (1, 1),
        (3, 1),
        (4, 2),
        (15, 3),
        (16, 4),
        (1_000_000, 1000),
        (999_999, 999),
        (u64::MAX, 0xffff_ffff),
    ];
    for (m, root) in exact {
        assert_eq!(math2d::quotient::integer_sqrt(m), root);
    }
    let mut state: u32 = 0x0f1e_2d3c;
    for _ in 0..20_000 {
        let high: u64 = next_pattern(&mut state) as u64;
        let low: u64 = next_pattern(&mut state) as u64;
        let m: u64 = (high << 32 | low) >> (high % 64);
        let r: u128 = math2d::quotient::integer_sqrt(m) as u128;
        assert!(r * r <= m as u128 && (m as u128) < (r + 1) * (r + 1));
    }
}
