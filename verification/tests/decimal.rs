use veridex_core::decimal::{fixed, fixed_rank, plain, scientific, short};

fn doubles() -> Vec<f64> {
    let mut out: Vec<f64> = vec![
        0.0, 0.5, 1.5, 2.5, 0.05, 0.25, 0.35, 0.125, 0.375, 1.0, 9.95, 99.95, 999.9999, 0.0005, 0.0015, 1e-300, 4.9e-324, 1e15,
        9007199254740993.0, 1e22, 1e23, 1.7976931348623157e308, 123456.789, 33.333333333333336, 29.97002997002997,
    ];
    let mut seed: u64 = 88172645463325252;
    for _ in 0..200 {
        seed ^= seed << 13;
        seed ^= seed >> 7;
        seed ^= seed << 17;
        out.push((seed >> 20) as f64 / 4096.0);
        let x = f64::from_bits(seed & 0x7fff_ffff_ffff_ffff);
        if x.is_finite() {
            out.push(x);
        }
    }
    out
}

#[test]
fn fixed_digits_are_those_of_the_exact_value() {
    for x in doubles() {
        for k in [0usize, 1, 2, 3, 6] {
            assert_eq!(fixed(x.to_bits(), k), format!("{x:.k$}"), "{x:?} with {k}");
        }
        assert_eq!(fixed((-x).to_bits(), 2), format!("{:.2}", -x));
        assert_eq!(fixed_rank(x.to_bits() as i128, 1), format!("{x:.1}"));
    }
    assert_eq!(fixed_rank(-(2.25f64.to_bits() as i128), 1), "-2.2");
    assert_eq!(fixed(f64::NAN.to_bits(), 1), "NaN");
    assert_eq!(fixed(f64::INFINITY.to_bits(), 1), "inf");
    assert_eq!(fixed(f64::NEG_INFINITY.to_bits(), 1), "-inf");
}

#[test]
fn scientific_notation_has_two_digits() {
    for x in doubles() {
        if x >= 1.0 {
            assert_eq!(scientific(x.to_bits()), format!("{x:.1e}"), "{x:?}");
        }
    }
    assert_eq!(scientific(99500.0f64.to_bits()), "1.0e5");
    assert_eq!(scientific(10000.0f64.to_bits()), "1.0e4");
    assert_eq!(scientific(f64::INFINITY.to_bits()), "inf");
}

#[test]
fn short_texts_have_no_trailing_zeros() {
    for (x, text) in [(3.0, "3"), (0.05, "0.05"), (100.0, "100"), (0.0, "0"), (1.0000001, "1"), (2.5, "2.5"), (-0.5, "-0.5")] {
        assert_eq!(short(f64::to_bits(x)), text);
    }
}

#[test]
fn the_shortest_text_reads_back() {
    let mut all = doubles();
    all.extend([1e-5, 1e-7, 5e-324, 1e-323, 1.5e-323, 2.2250738585072014e-308, 2.225073858507201e-308, 0.1, 0.2, 0.3, 1.0 / 3.0, 1e21, 1e100]);
    for e in 0..60 {
        all.push(f64::from_bits((e * 34 + 1) << 52));
        all.push(f64::from_bits(((e * 34 + 1) << 52) + 1));
        all.push(f64::from_bits(((e * 34 + 2) << 52) - 1));
    }
    for x in all {
        assert_eq!(plain(x.to_bits()), format!("{x}"), "{x:?}");
        assert_eq!(plain((-x).to_bits()), format!("{}", -x));
    }
    assert_eq!(plain(f64::NAN.to_bits()), "NaN");
    assert_eq!(plain(f64::NEG_INFINITY.to_bits()), "-inf");
}
