use bullet::binary64::Binary64;

fn of(value: f64) -> Binary64 {
    Binary64::from_bits(value.to_bits())
}

fn same(actual: Binary64, expected: f64) {
    if expected.is_nan() {
        assert!(actual.is_nan());
    } else {
        assert_eq!(actual.to_bits(), expected.to_bits(), "expected {expected}");
    }
}

/// A fixed sequence of bit patterns spread over all exponents.
fn patterns(count: usize) -> Vec<u64> {
    let mut state: u64 = 0x9e37_79b9_7f4a_7c15;
    let mut values = Vec::new();
    for _ in 0..count {
        state ^= state << 13;
        state ^= state >> 7;
        state ^= state << 17;
        values.push(state);
    }
    values
}

#[test]
fn operations_agree_with_the_hardware_on_spread_patterns() {
    let values = patterns(4_000);
    for pair in values.windows(2) {
        let (a, b) = (f64::from_bits(pair[0]), f64::from_bits(pair[1]));
        same(of(a).plus(of(b)), a + b);
        same(of(a).minus(of(b)), a - b);
        same(of(a).times(of(b)), a * b);
        same(of(a).over(of(b)), a / b);
        assert_eq!(of(a).is_less(of(b)), a < b);
        assert_eq!(of(a).is_at_most(of(b)), a <= b);
        assert_eq!(of(a).is_finite(), a.is_finite());
    }
}

#[test]
fn operations_agree_with_the_hardware_near_one() {
    let values = patterns(4_000);
    for pair in values.windows(2) {
        let near = |bits: u64| {
            let spread = (bits >> 60) << 52;
            f64::from_bits((bits & 0x800f_ffff_ffff_ffff) | (0x3f80_0000_0000_0000 + spread))
        };
        let (a, b) = (near(pair[0]), near(pair[1]));
        same(of(a).plus(of(b)), a + b);
        same(of(a).minus(of(b)), a - b);
        same(of(a).times(of(b)), a * b);
        same(of(a).over(of(b)), a / b);
    }
}

#[test]
fn special_values_follow_the_standard() {
    let specials = [
        0.0,
        -0.0,
        1.0,
        -1.0,
        f64::INFINITY,
        f64::NEG_INFINITY,
        f64::NAN,
        f64::MIN_POSITIVE,
        5e-324,
        -5e-324,
        f64::MAX,
        f64::MIN,
        f64::EPSILON,
        2.225_073_858_507_200_9e-308,
        9_007_199_254_740_993.0,
    ];
    for a in specials {
        for b in specials {
            same(of(a).plus(of(b)), a + b);
            same(of(a).minus(of(b)), a - b);
            same(of(a).times(of(b)), a * b);
            same(of(a).over(of(b)), a / b);
            assert_eq!(of(a).is_less(of(b)), a < b);
            assert_eq!(of(a).is_at_most(of(b)), a <= b);
        }
        assert_eq!(of(a).is_positive(), a > 0.0);
        assert_eq!(of(a).is_below_zero(), a < 0.0);
        same(of(a).negate(), -a);
    }
}

#[test]
fn integers_convert_to_the_nearest_value() {
    for value in patterns(2_000) {
        same(Binary64::from_u64(value), value as f64);
        same(Binary64::from_i64(value as i64), value as i64 as f64);
        same(Binary64::from_u64(value >> 40), (value >> 40) as f64);
    }
    same(Binary64::from_i64(i64::MIN), i64::MIN as f64);
    same(Binary64::from_u64(u64::MAX), u64::MAX as f64);
    same(Binary64::from_i64(0), 0.0);
}

#[test]
fn roots_agree_with_the_hardware() {
    for bits in patterns(4_000) {
        let value = f64::from_bits(bits);
        same(of(value).square_root(), value.sqrt());
    }
    for value in [0.0, -0.0, 1.0, 2.0, 4.0, 0.0002, 5e-324, f64::MAX, f64::INFINITY, -1.0, f64::NAN] {
        same(of(value).square_root(), value.sqrt());
    }
}

#[test]
fn magnitudes_and_extremes_follow_the_standard() {
    for (a, b) in [(1.0, 2.0), (-3.0, 2.0), (2.0, 2.0), (f64::NEG_INFINITY, 0.5)] {
        same(of(a).min(of(b)), a.min(b));
        same(of(a).max(of(b)), a.max(b));
        same(of(a).abs(), a.abs());
        assert_eq!(of(a).is_equal(of(b)), a == b);
    }
    assert!(of(0.0).is_equal(of(-0.0)));
    assert!(!of(f64::NAN).is_equal(of(f64::NAN)));
}
