use veridex_core::number;

fn seeds() -> Vec<f64> {
    vec![0.0, 1.0, 0.1, 0.5, 1.5, 2.0, 3.0, 0.05, 10.0, 100.0, 1e-9, 1e9, 123456.789, 33.333333, 0.001]
}

#[test]
fn doubles_are_ordered_as_their_values() {
    let mut all = seeds();
    all.extend([-1.0, -0.0, f64::INFINITY, f64::NEG_INFINITY, f64::NAN, f64::MIN_POSITIVE, 5e-324]);
    for a in &all {
        for b in &all {
            assert_eq!(number::lt(a.to_bits(), b.to_bits()), a < b, "{a} < {b}");
            assert_eq!(number::le(a.to_bits(), b.to_bits()), a <= b, "{a} <= {b}");
            assert_eq!(number::eq(a.to_bits(), b.to_bits()), a == b, "{a} == {b}");
        }
        assert_eq!(number::finite(a.to_bits()), a.is_finite());
    }
}

#[test]
fn quotients_of_whole_numbers_round_to_the_nearest_double() {
    for (n, d) in [(1u64, 3u64), (2, 3), (1, 10), (7, 2), (999_999, 1_000_000), (1, 1), (5, 6), (u64::MAX, 3)] {
        let got = f64::from_bits(number::nearest(n as u128, d as u128));
        if n < 1 << 53 {
            assert_eq!(got, n as f64 / d as f64, "{n}/{d}");
        }
    }
    assert_eq!(number::nearest(1, 10), 0.1f64.to_bits());
}

#[test]
fn products_and_quotients_round_as_doubles_do() {
    for a in seeds() {
        for b in seeds() {
            if a > 0.0 && b > 0.0 {
                let product = number::multiply(a.to_bits(), b.to_bits());
                assert_eq!(product, (a * b).to_bits() as i128, "{a} * {b}");
                let quotient = number::divide(a.to_bits(), b.to_bits());
                assert_eq!(quotient, (a / b).to_bits() as i128, "{a} / {b}");
            }
        }
    }
}

#[test]
fn milliseconds_become_whole_nanoseconds() {
    for ms in [0.0, 50.0, 0.1, 33.333333, 1e-9, -2.5, 20.5, 1e12, 1e300, -1e300, f64::INFINITY, f64::NAN] {
        assert_eq!(number::to_nanos(ms.to_bits()), (ms * 1_000_000.0) as i64, "{ms}");
    }
}

#[test]
fn nanoseconds_are_shown_as_short_milliseconds() {
    for ns in [0i64, 50_000_000, 1, 1_500_000, -1_500_000, 123_456_789, 20_000_000, i64::MAX, i64::MIN] {
        let s = format!("{:.6}", ns as f64 / 1_000_000.0);
        let s = s.trim_end_matches('0').trim_end_matches('.');
        assert_eq!(number::short_millis(ns), if s.is_empty() { "0" } else { s }, "{ns}");
    }
}

#[test]
fn nanoseconds_are_shown_as_milliseconds() {
    for ns in [0u64, 1_000_000, 41_000_000, 41_500_000, 999_999, 1_234_567_890] {
        assert_eq!(number::millis(ns), format!("{:.1}", ns as f64 / 1_000_000.0), "{ns}");
    }
}

#[test]
fn shares_are_shown_in_percent() {
    for (n, d) in [(1u64, 3u64), (1, 20), (1, 2), (19, 20), (1, 1)] {
        let share = number::nearest(n as u128, d as u128);
        assert_eq!(number::percent(share), format!("{:.0}", n as f64 / d as f64 * 100.0), "{n}/{d}");
    }
}
