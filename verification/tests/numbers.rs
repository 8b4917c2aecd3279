use magpyxl::number::Number;

fn n(x: f64) -> Number {
    Number { bits: x.to_bits() }
}

const SAMPLES: [f64; 24] = [
    0.0,
    -0.0,
    1.0,
    -1.0,
    0.1,
    0.2,
    0.3,
    0.30000000000000004,
    1e-9,
    -1e-9,
    9.99e-10,
    1.0000000005,
    1.000000001,
    5e-324,
    2.2250738585072014e-308,
    1e15,
    1e15 + 0.125,
    9007199254740992.0,
    9007199254740994.0,
    1.7976931348623157e308,
    f64::INFINITY,
    f64::NEG_INFINITY,
    f64::NAN,
    3.0000000010000003,
];

#[test]
fn comparisons_are_those_of_doubles() {
    for a in SAMPLES {
        for b in SAMPLES {
            assert_eq!(n(a).at_most(n(b)), a <= b, "{} <= {}", a, b);
            assert_eq!(n(a).below(n(b)), a < b, "{} < {}", a, b);
            assert_eq!(n(a).same_value(n(b)), a == b, "{} == {}", a, b);
            assert_eq!(n(a).is_near(n(b)), (a - b).abs() < 1e-9, "{} near {}", a, b);
            assert_eq!(n(a).is_apart(n(b)), (a - b).abs() >= 1e-9, "{} apart {}", a, b);
        }
        assert_eq!(n(a).is_nan(), a.is_nan());
    }
}

#[test]
fn nearness_at_the_edge_of_the_tolerance() {
    let mut seed: u64 = 88172645463325252;
    let mut edges: usize = 0;
    for k in 0..20000u64 {
        seed ^= seed << 13;
        seed ^= seed >> 7;
        seed ^= seed << 17;
        let a = ((seed >> 20) as f64) / 1e9 * if k % 2 == 0 { 1.0 } else { -1e-6 };
        let step = f64::from_bits((1e-9f64).to_bits() + (seed % 5) - 2);
        for b in [a + step, a - step, a + 1e-9, a - 9.999999999999999e-10] {
            let near = (a - b).abs() < 1e-9;
            assert_eq!(n(a).is_near(n(b)), near, "{:e} {:e}", a, b);
            assert_eq!(n(b).is_near(n(a)), near, "{:e} {:e}", b, a);
            if near {
                edges += 1;
            }
        }
    }
    assert!(edges > 0);
}

#[test]
fn tiny_differences_round_like_doubles() {
    for k in 0..200u64 {
        let a = f64::from_bits((1e-9f64).to_bits() - 100 + k);
        for b in [0.0, 5e-324, -5e-324, 1e-300, 1e-25, -1e-25, 2.067951531382569e-25, 1.0339757656912846e-25] {
            assert_eq!(n(a).is_near(n(b)), (a - b).abs() < 1e-9, "{:e} {:e}", a, b);
        }
    }
}

#[test]
fn integers_become_the_nearest_doubles() {
    let mut values: Vec<i64> = vec![0, 1, -1, 2, 255, i64::MAX, i64::MIN, i64::MAX - 1, i64::MIN + 1];
    for shift in 50..63u32 {
        for d in -3i64..=3 {
            values.push((1i64 << shift) + d);
            values.push(-(1i64 << shift) + d);
            values.push((3i64 << (shift - 1)) + d);
        }
    }
    let mut seed: u64 = 1234567;
    for _ in 0..2000 {
        seed ^= seed << 13;
        seed ^= seed >> 7;
        seed ^= seed << 17;
        values.push(seed as i64);
    }
    for x in values {
        assert_eq!(Number::from_i64(x).bits, (x as f64).to_bits(), "{}", x);
    }
}

#[test]
fn truth_values_are_one_and_zero() {
    assert_eq!(Number::from_bool(true).bits, 1.0f64.to_bits());
    assert_eq!(Number::from_bool(false).bits, 0.0f64.to_bits());
}

fn random(seed: &mut u64) -> u64 {
    *seed ^= *seed << 13;
    *seed ^= *seed >> 7;
    *seed ^= *seed << 17;
    *seed
}

fn same(r: Number, x: f64) -> bool {
    if x.is_nan() {
        r.is_nan()
    } else {
        r.bits == x.to_bits()
    }
}

#[test]
fn arithmetic_is_that_of_doubles() {
    let mut all: Vec<f64> = SAMPLES.to_vec();
    let mut seed: u64 = 2463534242;
    for k in 0..60u64 {
        let r = random(&mut seed);
        all.push(f64::from_bits(r));
        all.push(((r % 2_000_001) as f64 - 1_000_000.0) / 128.0);
        all.push(f64::from_bits(k * 3));
        all.push(f64::from_bits(0x000f_ffff_ffff_fff0 + k));
        all.push(f64::from_bits(0x7fef_ffff_ffff_ffe0 + (k % 32)));
        all.push(1.0 + k as f64 * f64::EPSILON);
    }
    for a in &all {
        for b in &all {
            let (x, y) = (n(*a), n(*b));
            assert!(same(x.plus(y), a + b), "{:e} + {:e}", a, b);
            assert!(same(x.minus(y), a - b), "{:e} - {:e}", a, b);
            assert!(same(x.times(y), a * b), "{:e} * {:e}", a, b);
        }
        assert!(same(n(*a).negated(), -a) || a.is_nan());
    }
}

#[test]
fn quotients_and_roots_are_those_of_doubles() {
    let mut all: Vec<f64> = SAMPLES.to_vec();
    let mut seed: u64 = 88675123;
    for k in 0..40u64 {
        let r = random(&mut seed);
        all.push(f64::from_bits(r));
        all.push((r % 1_000_001) as f64 / 64.0);
        all.push(f64::from_bits(k * 5 + 1));
    }
    for a in &all {
        for d in [1.0, 2.0, 3.0, 7.0, 10.0, 1e6, 1e-300, 5e-324, 1.7976931348623157e308] {
            assert!(same(n(*a).over(n(d)), a / d), "{:e} / {:e}", a, d);
        }
        assert!(same(n(*a).square_root(), a.sqrt()), "sqrt {:e}", a);
        assert_eq!(n(*a).round_to_count(), a.round() as usize, "round {:e}", a);
    }
    for x in [0.49999999999999994, 0.5, 1.5, 2.5, 4503599627370495.5, 9007199254740993.0, 1.8446744073709552e19, 1e20] {
        assert_eq!(n(x).round_to_count(), x.round() as usize, "round {:e}", x);
    }
}

#[test]
fn counts_become_doubles() {
    for c in [0usize, 1, 2, 1000, 9007199254740993, usize::MAX, usize::MAX - 1025] {
        assert_eq!(Number::from_count(c).bits, (c as f64).to_bits());
    }
}

#[test]
fn sums_are_added_up_in_order() {
    let v: Vec<f64> = vec![1e16, 1.0, 1.0, -1e16, 0.1, 0.2];
    let numbers: Vec<Number> = v.iter().map(|x| n(*x)).collect();
    let sum = v.iter().fold(0.0, |t, x| t + x);
    assert_eq!(magpyxl::arith::sum_of(&numbers), n(sum));
    assert_eq!(magpyxl::arith::mean_of(&numbers), n(sum / 6.0));
    assert_eq!(magpyxl::arith::sum_of(&vec![]), n(0.0));
}
