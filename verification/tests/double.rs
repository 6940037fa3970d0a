use veridex_core::double;

/// Doubles of many sizes: zeros, subnormals, normals and the largest, of both signs.
fn doubles() -> Vec<f64> {
    let mut out: Vec<f64> = vec![
        0.0,
        1.0,
        1.5,
        2.0,
        3.0,
        0.1,
        0.3,
        1.0 / 3.0,
        1e-9,
        1e-6,
        4.9e-324,
        1e-310,
        2.2250738585072014e-308,
        2.225073858507201e-308,
        1.7976931348623157e308,
        9007199254740993.0,
        123456789.123456789,
        6.02e23,
        1e200,
        1e-200,
        1e-160,
        f64::INFINITY,
    ];
    let mut seed: u64 = 0x9e37_79b9_7f4a_7c15;
    for _ in 0..60 {
        seed = seed.wrapping_mul(6364136223846793005).wrapping_add(1442695040888963407);
        let x = f64::from_bits(seed);
        if x.is_finite() {
            out.push(x);
        }
        seed = seed.wrapping_mul(6364136223846793005).wrapping_add(1442695040888963407);
        out.push(f64::from_bits((seed >> 12) | 0x3ff0_0000_0000_0000));
    }
    let negative: Vec<f64> = out.iter().map(|x| -x).collect();
    out.extend(negative);
    out
}

fn rank(x: f64) -> i128 {
    double::rank(x.to_bits())
}

#[test]
fn sums_and_differences_round_as_doubles_do() {
    let all = doubles();
    for &x in &all {
        for &y in &all {
            if (x + y).is_finite() || !(x.is_infinite() && y.is_infinite()) {
                assert_eq!(double::sum(rank(x), rank(y)), rank(x + y), "{} + {}", x, y);
            }
            if (x - y).is_finite() || !(x.is_infinite() && y.is_infinite()) {
                assert_eq!(double::difference(rank(x), rank(y)), rank(x - y), "{} - {}", x, y);
            }
        }
    }
}

#[test]
fn products_round_as_doubles_do() {
    let all = doubles();
    for &x in &all {
        for &y in &all {
            if !(x * y).is_nan() {
                assert_eq!(double::product(rank(x), rank(y)), rank(x * y), "{} * {}", x, y);
            }
        }
    }
    assert_eq!(double::product(0, double::TOP), 0);
}

#[test]
fn quotients_round_as_doubles_do() {
    let all = doubles();
    for &x in &all {
        for &y in &all {
            if y != 0.0 && !(x / y).is_nan() {
                assert_eq!(double::quotient(rank(x), rank(y)), rank(x / y), "{} / {}", x, y);
            }
        }
    }
}

#[test]
fn square_roots_round_as_doubles_do() {
    for &x in &doubles() {
        if x >= 0.0 {
            assert_eq!(double::find_square_root(rank(x)), rank(x.sqrt()), "sqrt {}", x);
        }
    }
    assert_eq!(double::find_square_root(rank(-1.0)), 0);
}

#[test]
fn whole_numbers_round_as_casts_do() {
    for n in [0i64, 1, -1, 7, 1_000_000_007, 9007199254740993, i64::MAX, i64::MIN, -9007199254740995] {
        assert_eq!(double::to_whole(n as i128), rank(n as f64), "{}", n);
    }
    assert_eq!(double::to_whole(u64::MAX as i128), rank(u64::MAX as f64));
}

#[test]
fn the_constants_are_what_they_are_called() {
    assert_eq!(double::ONE, rank(1.0));
    assert_eq!(double::TWO, rank(2.0));
    assert_eq!(double::FOUR, rank(4.0));
    assert_eq!(double::HUNDREDTH, rank(0.01));
    assert_eq!(double::MILLIONTH, rank(1e-6));
    assert_eq!(double::BILLIONTH, rank(1e-9));
    assert_eq!(double::BILLION, rank(1e9));
    assert_eq!(double::TOP, rank(f64::INFINITY));
}
