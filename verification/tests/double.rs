use perf_model::double::Double;

fn d(x: f64) -> Double {
    Double { bits: x.to_bits() }
}

fn f(x: Double) -> f64 {
    f64::from_bits(x.bits)
}

/// The same number, with every result that is not a number counted as one.
fn same(x: Double, y: f64) -> bool {
    if y.is_nan() {
        f(x).is_nan()
    } else {
        x.bits == y.to_bits()
    }
}

/// Encodings that exercise every class of number and every exponent distance.
fn samples() -> Vec<f64> {
    let mut v = vec![
        0.0,
        -0.0,
        1.0,
        -1.0,
        0.5,
        3.0,
        1.0 / 3.0,
        f64::MAX,
        f64::MIN,
        f64::MIN_POSITIVE,
        -f64::MIN_POSITIVE,
        f64::from_bits(1),
        f64::from_bits(0x000f_ffff_ffff_ffff),
        f64::INFINITY,
        f64::NEG_INFINITY,
        f64::NAN,
        f64::EPSILON,
        9007199254740992.0,
        9007199254740993.0,
        9007199254740994.0,
    ];
    let mut state: u64 = 0x9e37_79b9_7f4a_7c15;
    for i in 0..400u64 {
        state = state
            .wrapping_mul(6364136223846793005)
            .wrapping_add(1442695040888963407);
        let mixed = state ^ (state >> 29);
        if i % 4 == 0 {
            v.push(f64::from_bits(mixed));
        } else if i % 4 == 1 {
            // Few significant bits, close exponents: ties and cancellations.
            v.push(f64::from_bits((mixed & 0x801f_0000_0000_00ff) | 0x3fe0_0000_0000_0000));
        } else if i % 4 == 2 {
            // Subnormal numbers and the smallest normal ones.
            v.push(f64::from_bits(mixed & 0x801f_ffff_ffff_ffff));
        } else {
            v.push((mixed >> 40) as f64 / 8.0);
        }
    }
    v
}

#[test]
fn arithmetic_agrees_with_the_machine() {
    let v = samples();
    for &a in v.iter() {
        for &b in v.iter() {
            assert!(same(d(a).plus(d(b)), a + b), "{:e} + {:e}", a, b);
            assert!(same(d(a).minus(d(b)), a - b), "{:e} - {:e}", a, b);
            assert!(same(d(a).times(d(b)), a * b), "{:e} * {:e}", a, b);
            assert!(same(d(a).over(d(b)), a / b), "{:e} / {:e}", a, b);
            assert_eq!(d(a).at_most(d(b)), a <= b);
            // The sign of a zero is open.
            let max = f(d(a).max(d(b)));
            assert!(max == a.max(b) || (max.is_nan() && a.max(b).is_nan()));
        }
        assert_eq!(d(a).is_finite(), a.is_finite());
        assert_eq!(d(a).is_nan(), a.is_nan());
        assert!(same(d(a).negate(), -a));
    }
}

#[test]
fn integers_and_decimal_literals_are_rounded_once() {
    for n in [0usize, 1, 2, 1000, 9007199254740993, 9007199254740995, usize::MAX, usize::MAX - 1024] {
        assert!(same(Double::from_usize(n), n as f64));
    }
    assert!(same(Double::from_ratio(4209989, 10_000_000_000_000), 4.209989e-07));
    assert!(same(Double::from_ratio(1518344, 100_000_000), 1.518344e-02));
    assert!(same(Double::from_ratio(1650142, 100_000), 1.650142e+01));
    assert!(same(Double::from_ratio(2574, 100), 25.74));
    assert!(same(Double::from_ratio(5401, 100), 54.01));
    assert!(same(Double::from_ratio(574, 100), 5.74));
    assert!(same(Double::from_ratio(0, 7), 0.0));
    assert!(same(Double::from_ratio(u64::MAX, u64::MAX), 1.0));
    assert!(same(Double::from_ratio(1, u64::MAX), 1.0 / 18446744073709551615.0));
}

#[test]
fn ties_go_to_the_even_significand() {
    let two53 = 9007199254740992.0;
    assert_eq!(f(d(two53).plus(d(1.0))), two53);
    assert_eq!(f(d(two53 + 2.0).plus(d(1.0))), two53 + 4.0);
    assert_eq!(Double::from_usize(9007199254740993).bits, two53.to_bits());
    assert_eq!(Double::from_usize(9007199254740995).bits, (two53 + 4.0).to_bits());
    assert_eq!(f(Double::from_usize(9007199254740991)) as u64, 9007199254740991);
}

#[test]
fn overflow_begins_half_a_spacing_above_the_largest_number() {
    let half = 2.0f64.powi(970);
    let below = f64::from_bits(half.to_bits() - 1);
    assert_eq!(f(d(f64::MAX).plus(d(below))), f64::MAX);
    assert_eq!(f(d(f64::MAX).plus(d(half))), f64::INFINITY);
    assert_eq!(f(d(-f64::MAX).minus(d(half))), f64::NEG_INFINITY);
}

#[test]
fn results_that_are_doubles_are_exact() {
    assert_eq!(f(d(0.5).plus(d(0.25))), 0.75);
    assert_eq!(f(d(3.0).minus(d(0.125))), 2.875);
    assert_eq!(f(d(1.5).times(d(-2.5))), -3.75);
    assert_eq!(f(d(21.0).over(d(-6.0))), -3.5);
    assert_eq!(d(1.0).minus(d(1.0)).bits, 0);
    assert_eq!(Double::zero().bits, 0);
}
