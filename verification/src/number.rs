//! Double-precision numbers, held as their bits, and the doubles that integers give rise to.
//!
//! The bits of a double order it. What a check derives from integers alone (a ratio of counts, a span
//! in milliseconds) is computed here on integers: the double nearest to a ratio, and a double written
//! with a fixed number of decimals.

use vstd::arithmetic::power2;
use vstd::prelude::*;
use vstd::string::*;

use crate::text;

verus! {

/// Two to the power 52: the weight of a double's lowest exponent bit.
pub const EXPONENT_UNIT: u64 = 0x10_0000_0000_0000;

/// The bits of positive infinity.
pub const INFINITY: u64 = 0x7ff0_0000_0000_0000;

/// Two to the power 63: the weight of a double's sign bit.
pub const SIGN_UNIT: u64 = 0x8000_0000_0000_0000;

// ---- order -----------------------------------------------------------------------------------

/// The bits of a double without its sign.
pub open spec fn magnitude(bits: u64) -> nat {
    if bits >= SIGN_UNIT { (bits - SIGN_UNIT) as nat } else { bits as nat }
}

/// Whether the double is not a number.
pub open spec fn is_nan(bits: u64) -> bool {
    magnitude(bits) > INFINITY
}

/// Whether the double is neither infinite nor not a number.
pub open spec fn is_finite(bits: u64) -> bool {
    magnitude(bits) < INFINITY
}

/// A number that orders doubles as their values do: both zeros at zero.
pub open spec fn rank(bits: u64) -> int {
    if bits >= SIGN_UNIT { -(magnitude(bits) as int) } else { magnitude(bits) as int }
}

/// Whether `a` is less than `b`; never where either is not a number.
pub open spec fn less(a: u64, b: u64) -> bool {
    !is_nan(a) && !is_nan(b) && rank(a) < rank(b)
}

/// Whether `a` equals `b`; never where either is not a number.
pub open spec fn equal(a: u64, b: u64) -> bool {
    !is_nan(a) && !is_nan(b) && rank(a) == rank(b)
}

/// Whether the double is neither infinite nor not a number.
pub fn finite(bits: u64) -> (r: bool)
    ensures
        r == is_finite(bits),
{
    let m: u64 = if bits >= SIGN_UNIT { bits - SIGN_UNIT } else { bits };
    m < INFINITY
}

/// Whether the double is not a number.
fn nan(bits: u64) -> (r: bool)
    ensures
        r == is_nan(bits),
{
    let m: u64 = if bits >= SIGN_UNIT { bits - SIGN_UNIT } else { bits };
    m > INFINITY
}

/// The number that orders the double.
fn rank_of(bits: u64) -> (r: i64)
    ensures
        r as int == rank(bits),
{
    if bits >= SIGN_UNIT {
        -((bits - SIGN_UNIT) as i64)
    } else {
        bits as i64
    }
}

/// Whether `a` is less than `b`.
pub fn lt(a: u64, b: u64) -> (r: bool)
    ensures
        r == less(a, b),
{
    !nan(a) && !nan(b) && rank_of(a) < rank_of(b)
}

/// Whether `a` equals `b`.
pub fn eq(a: u64, b: u64) -> (r: bool)
    ensures
        r == equal(a, b),
{
    !nan(a) && !nan(b) && rank_of(a) == rank_of(b)
}

/// Whether the double is positive and finite.
pub open spec fn is_positive_finite(bits: u64) -> bool {
    is_finite(bits) && less(0, bits)
}

/// Whether the double is positive and finite.
pub fn positive_finite(bits: u64) -> (r: bool)
    ensures
        r == is_positive_finite(bits),
{
    finite(bits) && lt(0, bits)
}

/// Doubles are ordered: of two numbers exactly one of less, equal and greater holds, and less is
/// transitive.
pub proof fn law_doubles_are_ordered(a: u64, b: u64, c: u64)
    requires
        !is_nan(a),
        !is_nan(b),
    ensures
        less(a, b) ==> !less(b, a) && !equal(a, b),
        less(a, b) || less(b, a) || equal(a, b),
        less(a, b) && less(b, c) ==> less(a, c),
{
}

// ---- rounding --------------------------------------------------------------------------------

/// The whole number nearest to `num / den`; of two equally near ones, the even one.
pub open spec fn rounded(num: nat, den: nat) -> nat
    recommends
        den > 0,
{
    let q = num / den;
    let r = num % den;
    if 2 * r < den || (2 * r == den && q % 2 == 0) { q } else { q + 1 }
}

/// The whole number nearest to `num / den`.
pub fn round(num: u128, den: u128) -> (r: u128)
    requires
        0 < den < 0x8000_0000_0000_0000_0000_0000_0000_0000,
        num < 0x8000_0000_0000_0000_0000_0000_0000_0000,
    ensures
        r as nat == rounded(num as nat, den as nat),
{
    let q: u128 = num / den;
    let r: u128 = num % den;
    proof {
        vstd::arithmetic::div_mod::lemma_fundamental_div_mod(num as int, den as int);
        vstd::arithmetic::div_mod::lemma_div_is_ordered_by_denominator(num as int, 1, den as int);
    }
    if 2 * r < den || (2 * r == den && q % 2 == 0) {
        q
    } else {
        q + 1
    }
}

/// How far `num / den` is from the range in which a double's significand is a whole number.
pub open spec fn distance(num: nat, den: nat) -> nat {
    if num >= den * 0x20_0000_0000_0000 {
        (num - den) as nat
    } else if num < den * 0x10_0000_0000_0000 {
        (den * 0x10_0000_0000_0000 - num) as nat
    } else {
        0
    }
}

/// The bits of the double nearest to `num / den`, ties to even, for a ratio in the range of normal
/// doubles; zero for zero. A factor of two is one step of the exponent.
pub open spec fn nearest_bits(num: nat, den: nat) -> int
    decreases distance(num, den),
{
    if num == 0 || den == 0 {
        0
    } else if num >= den * 0x20_0000_0000_0000 {
        nearest_bits(num, 2 * den) + 0x10_0000_0000_0000
    } else if num < den * 0x10_0000_0000_0000 {
        nearest_bits(2 * num, den) - 0x10_0000_0000_0000
    } else {
        // The significand lies between 2^52 and 2^53; 1075 is the exponent's bias plus 52.
        1074 * 0x10_0000_0000_0000int + rounded(num, den)
    }
}

/// The double nearest to `num / den`.
pub fn nearest(num: u128, den: u128) -> (r: u64)
    requires
        num < 0x4000_0000_0000_0000_0000_0000_0000_0000,
        0 < den < 0x400_0000_0000_0000_0000,
    ensures
        r as int == nearest_bits(num as nat, den as nat),
        r < INFINITY,
{
    if num == 0 {
        return 0;
    }
    proof {
        lemma_powers();
    }
    let mut n: u128 = num;
    let mut d: u128 = den;
    let mut steps: u64 = 1074;
    while n >= d * 0x20_0000_0000_0000
        invariant
            0 < n < 0x4000_0000_0000_0000_0000_0000_0000_0000,
            0 < d < 0x400_0000_0000_0000_0000,
            1074 <= steps,
            d as nat >= power2::pow2((steps - 1074) as nat),
            power2::pow2(74) == 0x400_0000_0000_0000_0000,
            nearest_bits(num as nat, den as nat) == nearest_bits(n as nat, d as nat) + (steps - 1074)
                * 0x10_0000_0000_0000,
        decreases n - d,
    {
        proof {
            power2::lemma_pow2_unfold((steps - 1074 + 1) as nat);
            if steps - 1074 >= 74 {
                if steps - 1074 > 74 {
                    power2::lemma_pow2_strictly_increases(74, (steps - 1074) as nat);
                }
                assert(false);
            }
        }
        d = 2 * d;
        steps = steps + 1;
    }
    assert(steps - 1074 < 74) by {
        if steps - 1074 > 74 {
            power2::lemma_pow2_strictly_increases(74, (steps - 1074) as nat);
        }
    }
    let high: u64 = steps;
    while n < d * 0x10_0000_0000_0000
        invariant
            0 < n,
            0 < d < 0x400_0000_0000_0000_0000,
            n < d * 0x20_0000_0000_0000,
            1074 <= high < 1074 + 74,
            steps <= high,
            n as nat >= power2::pow2((high - steps) as nat),
            power2::pow2(127) == 0x8000_0000_0000_0000_0000_0000_0000_0000,
            nearest_bits(num as nat, den as nat) == nearest_bits(n as nat, d as nat) + (steps - 1074)
                * 0x10_0000_0000_0000,
        decreases steps,
    {
        proof {
            power2::lemma_pow2_unfold((high - steps + 1) as nat);
            if high - steps >= 127 {
                if high - steps > 127 {
                    power2::lemma_pow2_strictly_increases(127, (high - steps) as nat);
                }
                assert(false);
            }
        }
        n = 2 * n;
        steps = steps - 1;
    }
    let m: u128 = round(n, d);
    proof {
        vstd::arithmetic::div_mod::lemma_multiply_divide_lt(n as int, d as int, 0x20_0000_0000_0000);
    }
    steps * EXPONENT_UNIT + m as u64
}

/// The powers of two that bound the intermediate values.
proof fn lemma_powers()
    ensures
        power2::pow2(0) == 1,
        power2::pow2(74) == 0x400_0000_0000_0000_0000,
        power2::pow2(127) == 0x8000_0000_0000_0000_0000_0000_0000_0000,
{
    power2::lemma2_to64();
    power2::lemma2_to64_rest();
    power2::lemma_pow2_adds(64, 10);
    power2::lemma_pow2_adds(64, 63);
}

/// A ratio below `2^(53 + k)` rounds to at most that.
pub proof fn lemma_nearest_at_most(num: nat, den: nat, k: nat)
    requires
        den > 0,
        num < den * 0x20_0000_0000_0000 * power2::pow2(k),
    ensures
        nearest_bits(num, den) <= (1076 + k) * 0x10_0000_0000_0000,
    decreases distance(num, den),
{
    power2::lemma2_to64();
    if num == 0 {
    } else if num >= den * 0x20_0000_0000_0000 {
        assert(k > 0) by {
            if k == 0 {
                assert(den * 0x20_0000_0000_0000 * 1 == den * 0x20_0000_0000_0000);
            }
        }
        power2::lemma_pow2_unfold(k);
        let p = power2::pow2((k - 1) as nat);
        assert(den * 0x20_0000_0000_0000 * (2 * p) == (2 * den) * 0x20_0000_0000_0000 * p)
            by (nonlinear_arith);
        lemma_nearest_at_most(num, 2 * den, (k - 1) as nat);
    } else if num < den * 0x10_0000_0000_0000 {
        assert(2 * num < den * 0x20_0000_0000_0000 * power2::pow2(0));
        lemma_nearest_at_most(2 * num, den, 0);
    } else {
        vstd::arithmetic::div_mod::lemma_multiply_divide_lt(
            num as int,
            den as int,
            0x20_0000_0000_0000,
        );
    }
}

/// A ratio of at least `2^(52 - k)` rounds to at least that.
pub proof fn lemma_nearest_at_least(num: nat, den: nat, k: nat)
    requires
        den > 0,
        num > 0,
        num * power2::pow2(k) >= den * 0x10_0000_0000_0000,
    ensures
        nearest_bits(num, den) >= (1075 - k) * 0x10_0000_0000_0000,
    decreases distance(num, den),
{
    power2::lemma2_to64();
    if num >= den * 0x20_0000_0000_0000 {
        assert(num * power2::pow2(0) >= (2 * den) * 0x10_0000_0000_0000);
        lemma_nearest_at_least(num, 2 * den, 0);
    } else if num < den * 0x10_0000_0000_0000 {
        assert(k > 0) by {
            if k == 0 {
                assert(num * 1 == num);
            }
        }
        power2::lemma_pow2_unfold(k);
        let p = power2::pow2((k - 1) as nat);
        assert(num * (2 * p) == (2 * num) * p) by (nonlinear_arith);
        lemma_nearest_at_least(2 * num, den, (k - 1) as nat);
    } else {
        vstd::arithmetic::div_mod::lemma_multiply_divide_le(
            0x10_0000_0000_0000 * den as int,
            den as int,
            0x10_0000_0000_0000,
        );
        vstd::arithmetic::div_mod::lemma_div_by_multiple(0x10_0000_0000_0000, den as int);
        vstd::arithmetic::div_mod::lemma_div_is_ordered(
            0x10_0000_0000_0000 * den as int,
            num as int,
            den as int,
        );
    }
}

// ---- the value of a double -------------------------------------------------------------------

/// The significand of a non-negative double.
pub open spec fn significand(bits: u64) -> nat {
    if bits < EXPONENT_UNIT {
        bits as nat
    } else {
        (EXPONENT_UNIT + bits % EXPONENT_UNIT) as nat
    }
}

/// The power of two that the significand of a non-negative double is scaled by.
pub open spec fn power(bits: u64) -> int {
    if bits < EXPONENT_UNIT { -1074 } else { bits / EXPONENT_UNIT - 1075 }
}

/// The numerator of the value of a non-negative finite double.
pub open spec fn numerator(bits: u64) -> nat {
    if power(bits) >= 0 {
        significand(bits) * power2::pow2(power(bits) as nat)
    } else {
        significand(bits)
    }
}

/// The denominator of the value of a non-negative finite double.
pub open spec fn denominator(bits: u64) -> nat {
    if power(bits) >= 0 { 1 } else { power2::pow2((-power(bits)) as nat) }
}

/// A power of two.
pub fn two_to(k: u32) -> (r: u128)
    requires
        k < 127,
    ensures
        r as nat == power2::pow2(k as nat),
{
    let mut r: u128 = 1;
    let mut i: u32 = 0;
    proof {
        lemma_powers();
    }
    while i < k
        invariant
            i <= k < 127,
            r as nat == power2::pow2(i as nat),
            power2::pow2(127) == 0x8000_0000_0000_0000_0000_0000_0000_0000,
        decreases k - i,
    {
        proof {
            power2::lemma_pow2_unfold((i + 1) as nat);
            if i + 1 < 127 {
                power2::lemma_pow2_strictly_increases((i + 1) as nat, 127);
            }
        }
        r = 2 * r;
        i = i + 1;
    }
    r
}

/// The value of a double between `2^-48` and `2^76` as a ratio.
pub fn ratio(bits: u64) -> (r: (u128, u128))
    requires
        975 * EXPONENT_UNIT <= bits < 1099 * EXPONENT_UNIT,
    ensures
        r.0 as nat == numerator(bits),
        r.1 as nat == denominator(bits),
        0x10_0000_0000_0000 <= r.0 < 0x4000_0000_0000_0000_0000,
        bits < 1093 * EXPONENT_UNIT ==> r.0 < 0x100_0000_0000_0000_0000,
        0 < r.1 <= 0x10_0000_0000_0000_0000_0000_0000,
        r.1 as nat == (if bits >= 1075 * EXPONENT_UNIT {
            1
        } else {
            power2::pow2((1075 - bits / EXPONENT_UNIT) as nat)
        }),
{
    let m: u64 = EXPONENT_UNIT + bits % EXPONENT_UNIT;
    let e: u32 = (bits / EXPONENT_UNIT) as u32;
    proof {
        power2::lemma2_to64();
        power2::lemma2_to64_rest();
        power2::lemma_pow2_adds(64, 36);
    }
    if e >= 1075 {
        let p: u128 = two_to(e - 1075);
        proof {
            let k = (e - 1075) as nat;
            if k < 23 {
                power2::lemma_pow2_strictly_increases(k, 23);
            }
            if k < 17 {
                power2::lemma_pow2_strictly_increases(k, 17);
            }
            power2::lemma_pow2_pos(k);
            assert(m <= m * p <= 0x20_0000_0000_0000 * 0x80_0000) by (nonlinear_arith)
                requires
                    m < 0x20_0000_0000_0000,
                    0 < p <= 0x80_0000,
            ;
            if e < 1093 {
                assert(m * p <= 0x20_0000_0000_0000 * 0x2_0000) by (nonlinear_arith)
                    requires
                        m < 0x20_0000_0000_0000,
                        0 < p <= 0x2_0000,
                ;
            }
        }
        (m as u128 * p, 1)
    } else {
        let p: u128 = two_to(1075 - e);
        proof {
            power2::lemma_pow2_pos((1075 - e) as nat);
            if 1075 - e < 100 {
                power2::lemma_pow2_strictly_increases((1075 - e) as nat, 100);
            }
        }
        (m as u128, p)
    }
}

// ---- texts -----------------------------------------------------------------------------------

/// A non-negative double rounded to a whole number, in decimal.
pub open spec fn whole_text(bits: u64) -> Seq<char> {
    text::dec(rounded(numerator(bits), denominator(bits)))
}

/// A ratio in decimal, with one digit after the point.
pub open spec fn tenths_text(num: nat, den: nat) -> Seq<char> {
    let t = rounded(num * 10, den);
    text::dec(t / 10) + "."@ + text::dec(t % 10)
}

/// A non-negative double in decimal, with one digit after the point.
pub open spec fn one_decimal_text(bits: u64) -> Seq<char> {
    tenths_text(numerator(bits), denominator(bits))
}

/// The double nearest to a non-negative double over a whole number.
pub open spec fn divided(bits: u64, n: nat) -> int {
    nearest_bits(numerator(bits), denominator(bits) * n)
}

/// The double nearest to a whole number of units.
pub open spec fn double_of(n: nat) -> u64 {
    nearest_bits(n, 1) as u64
}

/// A count of nanoseconds as milliseconds, with one digit after the point: the count as a double,
/// divided by a million.
pub open spec fn millis_text(ns: nat) -> Seq<char> {
    one_decimal_text(divided(double_of(ns), 1_000_000) as u64)
}

/// A double in decimal, with one digit after the point.
fn one_decimal(bits: u64) -> (r: String)
    requires
        bits == 0 || 975 * EXPONENT_UNIT <= bits < 1093 * EXPONENT_UNIT,
    ensures
        r@ == one_decimal_text(bits),
{
    let mut out: String = String::new();
    if bits == 0 {
        proof {
            reveal_strlit(".");
            power2::lemma_pow2_pos(1074);
            let d = denominator(0);
            assert(rounded(0, d) == 0) by {
                vstd::arithmetic::div_mod::lemma_div_basics_1(d as int);
                vstd::arithmetic::div_mod::lemma_small_mod(0, d);
            }
            assert(tenths_text(0, d) =~= text::dec(0) + "."@ + text::dec(0));
        }
        text::push_u128(&mut out, 0);
        out.append(".");
        text::push_u128(&mut out, 0);
        assert(out@ =~= text::dec(0) + "."@ + text::dec(0));
        return out;
    }
    let (num, den): (u128, u128) = ratio(bits);
    let t: u128 = round(num * 10, den);
    text::push_u128(&mut out, t / 10);
    out.append(".");
    text::push_u128(&mut out, t % 10);
    assert(out@ =~= one_decimal_text(bits));
    out
}

/// A count of nanoseconds as milliseconds, with one digit after the point.
pub fn millis(ns: u64) -> (r: String)
    ensures
        r@ == millis_text(ns as nat),
{
    let d: u64 = nearest(ns as u128, 1);
    proof {
        if ns > 0 {
            power2::lemma2_to64();
            power2::lemma2_to64_rest();
            lemma_nearest_at_most(ns as nat, 1, 11);
            lemma_nearest_at_least(ns as nat, 1, 52);
        }
    }
    millis_of(d)
}

/// A double of nanoseconds as milliseconds, with one digit after the point.
pub open spec fn double_millis_text(bits: u64) -> Seq<char> {
    one_decimal_text(divided(bits, 1_000_000) as u64)
}

/// A double of nanoseconds as milliseconds, with one digit after the point.
pub fn millis_of(d: u64) -> (r: String)
    requires
        d == 0 || 1021 * EXPONENT_UNIT <= d <= 1090 * EXPONENT_UNIT,
    ensures
        r@ == double_millis_text(d),
{
    if d == 0 {
        proof {
            assert(significand(0) == 0);
            assert(numerator(d) == 0);
        }
        return one_decimal(0);
    }
    proof {
        power2::lemma2_to64();
        power2::lemma2_to64_rest();
    }
    let (num, den): (u128, u128) = ratio(d);
    proof {
        assert(den <= 0x40_0000_0000_0000) by {
            if d < 1075 * EXPONENT_UNIT {
                let k = (1075 - d / EXPONENT_UNIT) as nat;
                assert(k <= 54);
                if k < 54 {
                    power2::lemma_pow2_strictly_increases(k, 54);
                }
            }
        }
    }
    let q: u64 = nearest(num, den * 1_000_000);
    proof {
        let dd = (den * 1_000_000) as nat;
        assert(num < dd * 0x20_0000_0000_0000 * power2::pow2(14)) by {
            assert(dd * 0x20_0000_0000_0000 * 0x4000 >= 0x100_0000_0000_0000_0000) by (nonlinear_arith)
                requires
                    dd >= 1_000_000,
            ;
        }
        lemma_nearest_at_most(num as nat, dd, 14);
        assert(num >= 0x10_0000_0000_0000);
        assert(num as nat * power2::pow2(75) >= dd * 0x10_0000_0000_0000) by {
            power2::lemma_pow2_adds(64, 11);
            assert(num * 0x800_0000_0000_0000_0000 >= dd * 0x10_0000_0000_0000) by (nonlinear_arith)
                requires
                    num >= 0x10_0000_0000_0000,
                    dd <= 0x40_0000_0000_0000 * 1_000_000,
            ;
        }
        lemma_nearest_at_least(num as nat, dd, 75);
    }
    one_decimal(q)
}

// ---- products --------------------------------------------------------------------------------

/// The bits of the double nearest to the product of two non-negative finite doubles, as an integer
/// without bounds: beyond the largest double, and below the smallest normal one, the exponent goes on.
pub open spec fn product(a: u64, b: u64) -> int {
    if significand(a) == 0 || significand(b) == 0 {
        0
    } else {
        nearest_bits(significand(a) * significand(b), 1) + (power(a) + power(b)) * 0x10_0000_0000_0000
    }
}

/// The product of two non-negative finite doubles.
pub fn multiply(a: u64, b: u64) -> (r: i128)
    requires
        a < INFINITY,
        b < INFINITY,
    ensures
        r as int == product(a, b),
{
    let (m, p): (u64, i128) = split(a);
    let (n, q): (u64, i128) = split(b);
    if m == 0 || n == 0 {
        return 0;
    }
    assert(m * n < 0x20_0000_0000_0000 * 0x20_0000_0000_0000) by (nonlinear_arith)
        requires
            m < 0x20_0000_0000_0000,
            n < 0x20_0000_0000_0000,
    ;
    assert(m * n > 0) by (nonlinear_arith)
        requires
            m > 0,
            n > 0,
    ;
    let bits: u64 = nearest(m as u128 * n as u128, 1);
    bits as i128 + (p + q) * 0x10_0000_0000_0000
}

/// The significand and the power of a non-negative finite double.
pub fn split(bits: u64) -> (r: (u64, i128))
    requires
        bits < INFINITY,
    ensures
        r.0 as nat == significand(bits),
        r.0 < 0x20_0000_0000_0000,
        r.1 as int == power(bits),
        -1074 <= r.1 <= 971,
{
    if bits < EXPONENT_UNIT {
        (bits, -1074)
    } else {
        (EXPONENT_UNIT + bits % EXPONENT_UNIT, (bits / EXPONENT_UNIT) as i128 - 1075)
    }
}

/// A hundred.
pub const HUNDRED: u64 = 0x4059_0000_0000_0000;

/// A share between zero and one in percent, rounded to a whole number: a hundred times the double.
pub open spec fn percent_text(share: u64) -> Seq<char> {
    whole_text(product(share, HUNDRED) as u64)
}

/// A non-negative double rounded to a whole number, in decimal.
fn whole(bits: u64) -> (r: String)
    requires
        bits < 1099 * EXPONENT_UNIT,
    ensures
        r@ == whole_text(bits),
{
    if bits < 975 * EXPONENT_UNIT {
        proof {
            let k = (-power(bits)) as nat;
            lemma_powers();
            if k > 74 {
                power2::lemma_pow2_strictly_increases(74, k);
            }
            let d = denominator(bits);
            let m = numerator(bits);
            assert(m < 0x20_0000_0000_0000);
            assert(rounded(m, d) == 0) by {
                vstd::arithmetic::div_mod::lemma_basic_div(m as int, d as int);
                vstd::arithmetic::div_mod::lemma_small_mod(m, d);
            }
        }
        return text::dec_u64(0);
    }
    let (num, den): (u128, u128) = ratio(bits);
    text::dec_u128(round(num, den))
}

/// A share in percent, rounded to a whole number.
pub fn percent(share: u64) -> (r: String)
    requires
        share <= 1088 * EXPONENT_UNIT,
        share == 0 || share >= 900 * EXPONENT_UNIT,
    ensures
        r@ == percent_text(share),
{
    let p: i128 = multiply(share, HUNDRED);
    proof {
        assert(significand(HUNDRED) == 0x19_0000_0000_0000);
        assert(power(HUNDRED) == -46);
        if share > 0 {
            let m = significand(share);
            let n = m * 0x19_0000_0000_0000;
            assert(0x10_0000_0000_0000 <= m < 0x20_0000_0000_0000);
            power2::lemma2_to64();
            power2::lemma2_to64_rest();
            assert(n < 1 * 0x20_0000_0000_0000 * power2::pow2(53)) by (nonlinear_arith)
                requires
                    m < 0x20_0000_0000_0000,
                    n == m * 0x19_0000_0000_0000,
                    power2::pow2(53) == 0x20_0000_0000_0000,
            ;
            lemma_nearest_at_most(n, 1, 53);
            assert(n * power2::pow2(0) >= 1 * 0x10_0000_0000_0000) by (nonlinear_arith)
                requires
                    m >= 0x10_0000_0000_0000,
                    n == m * 0x19_0000_0000_0000,
                    power2::pow2(0) == 1,
            ;
            lemma_nearest_at_least(n, 1, 0);
        }
    }
    whole(p as u64)
}

// ---- whole numbers as doubles ----------------------------------------------------------------

/// A whole number rounded to 53 significant bits, the value of the nearest double, looking from a
/// unit on.
pub open spec fn significant_from(n: nat, unit: nat) -> nat
    decreases n - unit,
{
    if unit > 0 && n >= 0x20_0000_0000_0000 * unit {
        significant_from(n, 2 * unit)
    } else {
        rounded(n, unit) * unit
    }
}

/// The value of the double nearest to a whole number.
pub open spec fn significant(n: nat) -> nat {
    significant_from(n, 1)
}

/// The value of the double nearest to a whole number.
pub fn to_double(n: u64) -> (r: u128)
    ensures
        r as nat == significant(n as nat),
        r <= 0x1_0000_0000_0000_0000,
        n > 0 ==> r > 0,
        n < 0x8000_0000_0000_0000 ==> r <= 0x8000_0000_0000_0000,
{
    if n < 0x20_0000_0000_0000 {
        proof {
            assert(rounded(n as nat, 1) == n as nat);
        }
        return n as u128;
    }
    let mut unit: u128 = 1;
    let mut k: u32 = 0;
    proof {
        power2::lemma2_to64();
    }
    while n as u128 >= 0x20_0000_0000_0000 * unit
        invariant
            k <= 11,
            unit as nat == power2::pow2(k as nat),
            0 < unit <= 0x800,
            significant(n as nat) == significant_from(n as nat, unit as nat),
            k == 11 ==> unit == 0x800,
            k > 0 ==> n >= 0x10_0000_0000_0000 * unit,
            k == 0 ==> n >= 0x20_0000_0000_0000,
        decreases 0x1000 - unit,
    {
        proof {
            power2::lemma2_to64();
            power2::lemma_pow2_unfold((k + 1) as nat);
            if k < 11 {
                if k + 1 < 11 {
                    power2::lemma_pow2_strictly_increases((k + 1) as nat, 11);
                }
            }
        }
        unit = 2 * unit;
        k = k + 1;
    }
    let q: u128 = round(n as u128, unit);
    proof {
        assert(k > 0);
        let m = n as int;
        let u = unit as int;
        vstd::arithmetic::div_mod::lemma_multiply_divide_lt(m, u, 0x20_0000_0000_0000);
        vstd::arithmetic::div_mod::lemma_multiply_divide_le(0x10_0000_0000_0000 * u, u, 0x10_0000_0000_0000);
        vstd::arithmetic::div_mod::lemma_div_by_multiple(0x10_0000_0000_0000, u);
        vstd::arithmetic::div_mod::lemma_div_is_ordered(0x10_0000_0000_0000 * u, m, u);
        assert(0x10_0000_0000_0000 <= q <= 0x20_0000_0000_0000);
        assert(q * u <= 0x20_0000_0000_0000 * u) by (nonlinear_arith)
            requires
                q <= 0x20_0000_0000_0000,
                u > 0,
        ;
        assert(q * u >= 1) by (nonlinear_arith)
            requires
                q >= 1,
                u >= 1,
        ;
        if n < 0x8000_0000_0000_0000 {
            assert(u <= 0x400) by {
                if k == 11 {
                    assert(n >= 0x10_0000_0000_0000 * 0x800);
                } else if k < 10 {
                    power2::lemma_pow2_strictly_increases(k as nat, 10);
                }
            }
        }
    }
    q * unit
}

/// The double halfway between two whole numbers, each taken as a double.
pub open spec fn middle(a: nat, b: nat) -> int {
    nearest_bits(significant(a) + significant(b), 2)
}

/// The whole part of a non-negative double, and the largest 64-bit number where it is larger.
pub open spec fn truncated(bits: u64) -> int {
    if bits >= 1086 * EXPONENT_UNIT { i64::MAX as int } else { (numerator(bits) / denominator(bits)) as int }
}

/// The whole part of a non-negative double.
pub fn truncate(bits: u64) -> (r: i64)
    requires
        bits <= INFINITY,
    ensures
        r as int == truncated(bits),
        r >= 0,
{
    if bits >= 1086 * EXPONENT_UNIT {
        return 0x7fff_ffff_ffff_ffff;
    }
    if bits < 1023 * EXPONENT_UNIT {
        proof {
            lemma_below_one(bits);
            vstd::arithmetic::div_mod::lemma_basic_div(numerator(bits) as int, denominator(bits) as int);
        }
        return 0;
    }
    let (num, den): (u128, u128) = ratio(bits);
    proof {
        power2::lemma2_to64();
        power2::lemma2_to64_rest();
        assert(num < 0x8000_0000_0000_0000 * den) by {
            let e = (bits / EXPONENT_UNIT) as nat;
            if bits >= 1075 * EXPONENT_UNIT {
                let k = (e - 1075) as nat;
                if k < 10 {
                    power2::lemma_pow2_strictly_increases(k, 10);
                }
                let m = significand(bits);
                let p = power2::pow2(k);
                assert(m * p < 0x20_0000_0000_0000 * 0x400) by (nonlinear_arith)
                    requires
                        m < 0x20_0000_0000_0000,
                        0 <= p <= 0x400,
                        p > 0,
                ;
            }
        }
        vstd::arithmetic::div_mod::lemma_multiply_divide_lt(num as int, den as int, 0x8000_0000_0000_0000);
    }
    (num / den) as i64
}

/// The value of a double below one is below one.
pub proof fn lemma_below_one(bits: u64)
    requires
        bits < 1023 * EXPONENT_UNIT,
    ensures
        numerator(bits) < denominator(bits),
        denominator(bits) > 0,
{
    power2::lemma2_to64();
    power2::lemma2_to64_rest();
    let k = (-power(bits)) as nat;
    assert(k >= 53);
    if k > 53 {
        power2::lemma_pow2_strictly_increases(53, k);
    }
}

/// A ratio of counts is at most one, and not too small for its text in percent.
pub proof fn lemma_share(num: nat, den: nat)
    requires
        0 < num,
        0 < den <= 0x2_0000_0000_0000_0000,
    ensures
        nearest_bits(num, den) >= 900 * EXPONENT_UNIT,
        num <= den ==> nearest_bits(num, den) <= 0x3ff0_0000_0000_0000,
{
    power2::lemma2_to64();
    power2::lemma2_to64_rest();
    power2::lemma_pow2_adds(64, 53);
    let p = power2::pow2(117);
    assert(num * p >= den * 0x10_0000_0000_0000) by (nonlinear_arith)
        requires
            num >= 1,
            den <= 0x2_0000_0000_0000_0000,
            p == 0x1_0000_0000_0000_0000 * 0x20_0000_0000_0000,
    ;
    lemma_nearest_at_least(num, den, 117);
    if num <= den {
        lemma_nearest_at_most_one(num, den);
    }
}

/// A ratio of at most one, scaled down, rounds to at most the scaled one.
proof fn lemma_nearest_scaled(num: nat, den: nat, k: nat)
    requires
        den > 0,
        num <= den * power2::pow2(k),
        k <= 52,
    ensures
        nearest_bits(num, den) <= (1023 + k) * EXPONENT_UNIT,
    decreases 52 - k,
{
    power2::lemma2_to64();
    power2::lemma2_to64_rest();
    if num == 0 {
    } else if k == 52 {
        assert(num <= den * 0x10_0000_0000_0000);
        if num < den * 0x10_0000_0000_0000 {
            power2::lemma2_to64();
            assert(2 * num < den * 0x20_0000_0000_0000 * power2::pow2(0));
            lemma_nearest_at_most(2 * num, den, 0);
        } else {
            vstd::arithmetic::div_mod::lemma_fundamental_div_mod_converse(
                num as int,
                den as int,
                0x10_0000_0000_0000,
                0,
            );
        }
    } else {
        power2::lemma_pow2_unfold(k + 1);
        if k + 1 < 52 {
            power2::lemma_pow2_strictly_increases(k + 1, 52);
        }
        let p = power2::pow2(k);
        power2::lemma_pow2_pos(k);
        assert(2 * num <= den * (2 * p)) by (nonlinear_arith)
            requires
                num <= den * p,
        ;
        assert(den * p < den * 0x10_0000_0000_0000) by (nonlinear_arith)
            requires
                den > 0,
                2 * p <= 0x10_0000_0000_0000,
                p > 0,
        ;
        lemma_nearest_scaled(2 * num, den, k + 1);
    }
}

/// A ratio of at most one rounds to at most one.
proof fn lemma_nearest_at_most_one(num: nat, den: nat)
    requires
        den > 0,
        num <= den,
    ensures
        nearest_bits(num, den) <= 0x3ff0_0000_0000_0000,
{
    power2::lemma2_to64();
    lemma_nearest_scaled(num, den, 0);
}

/// The double nearest to a ratio of 64-bit numbers is at most two to the power 64.
pub proof fn lemma_nearest_bound(num: nat, den: nat)
    requires
        den > 0,
        num <= 0x8000_0000_0000_0000,
    ensures
        nearest_bits(num, den) <= 1087 * EXPONENT_UNIT,
{
    power2::lemma2_to64();
    assert(num < den * 0x20_0000_0000_0000 * power2::pow2(11)) by {
        assert(den * 0x20_0000_0000_0000 * 0x800 > 0x8000_0000_0000_0000) by (nonlinear_arith)
            requires
                den >= 1,
        ;
    }
    lemma_nearest_at_most(num, den, 11);
}

/// The value of a double of at least one and at most two to the power 64, as a ratio.
pub proof fn lemma_ratio_bound(bits: u64)
    requires
        1023 * EXPONENT_UNIT <= bits <= 1087 * EXPONENT_UNIT,
    ensures
        denominator(bits) <= 0x10_0000_0000_0000,
        numerator(bits) <= denominator(bits) * 0x1_0000_0000_0000_0000,
{
    power2::lemma2_to64();
    power2::lemma2_to64_rest();
    let e = (bits / EXPONENT_UNIT) as int;
    if e < 1075 {
        let k = (1075 - e) as nat;
        if k < 52 {
            power2::lemma_pow2_strictly_increases(k, 52);
        }
        power2::lemma_pow2_pos(k);
    } else {
        let k = (e - 1075) as nat;
        if k < 12 {
            power2::lemma_pow2_strictly_increases(k, 12);
        }
        let p = power2::pow2(k);
        let m = significand(bits);
        if e == 1087 {
            assert(bits == 1087 * EXPONENT_UNIT);
            assert(m == 0x10_0000_0000_0000);
        } else {
            if k < 11 {
                power2::lemma_pow2_strictly_increases(k, 11);
            }
            assert(m * p <= 0x20_0000_0000_0000 * 0x800) by (nonlinear_arith)
                requires
                    m <= 0x20_0000_0000_0000,
                    0 <= p <= 0x800,
            ;
        }
    }
}

/// The double nearest to a ratio of counts, each taken as a double.
pub open spec fn ratio_of(a: u64, b: u64) -> u64 {
    nearest_bits(significant(a as nat), significant(b as nat)) as u64
}

/// The double nearest to a ratio of counts.
pub fn share_of(a: u64, b: u64) -> (r: u64)
    requires
        b > 0,
    ensures
        r == ratio_of(a, b),
        r <= 1088 * EXPONENT_UNIT,
        r == 0 || r >= 900 * EXPONENT_UNIT,
{
    let x: u128 = to_double(a);
    let y: u128 = to_double(b);
    proof {
        power2::lemma2_to64();
        assert(x < y * 0x20_0000_0000_0000 * power2::pow2(12)) by {
            assert(y * 0x20_0000_0000_0000 * 0x1000 > 0x1_0000_0000_0000_0000) by (nonlinear_arith)
                requires
                    y >= 1,
            ;
        }
        lemma_nearest_at_most(x as nat, y as nat, 12);
        if x > 0 {
            lemma_share(x as nat, y as nat);
        }
    }
    nearest(x, y)
}

/// The value of the double nearest to a whole number is positive, and at most twice the number.
proof fn lemma_significant_from(n: nat, unit: nat)
    requires
        0 < unit <= n,
    ensures
        0 < significant_from(n, unit) <= 2 * n,
    decreases n - unit,
{
    if n >= 0x20_0000_0000_0000 * unit {
        lemma_significant_from(n, 2 * unit);
    } else {
        let q = n / unit;
        vstd::arithmetic::div_mod::lemma_fundamental_div_mod(n as int, unit as int);
        vstd::arithmetic::div_mod::lemma_div_non_zero(n as int, unit as int);
        let r = rounded(n, unit);
        assert(q >= 1 && r <= q + 1 && r >= q);
        assert(r * unit >= 1) by (nonlinear_arith)
            requires
                r >= 1,
                unit >= 1,
        ;
        assert(r * unit <= q * unit + unit) by (nonlinear_arith)
            requires
                r <= q + 1,
                unit >= 1,
        ;
        assert(q * unit == unit * q) by (nonlinear_arith);
    }
}

/// The double nearest to a ratio of counts is a number, no negative one, and no infinite one.
pub proof fn lemma_ratio_of(a: u64, b: u64)
    requires
        b > 0,
    ensures
        0 <= nearest_bits(significant(a as nat), significant(b as nat)) < INFINITY,
        ratio_of(a, b) < INFINITY,
{
    let (x, y) = (significant(a as nat), significant(b as nat));
    lemma_significant_from(b as nat, 1);
    if a > 0 {
        lemma_significant_from(a as nat, 1);
    } else {
        assert(rounded(0, 1) == 0);
        assert(x == 0);
    }
    power2::lemma2_to64();
    assert(x < y * 0x20_0000_0000_0000 * power2::pow2(13)) by {
        assert(y * 0x20_0000_0000_0000 * 0x2000 > 0x2_0000_0000_0000_0000) by (nonlinear_arith)
            requires
                y >= 1,
        ;
    }
    lemma_nearest_at_most(x, y, 13);
    if x > 0 {
        lemma_share(x, y);
    }
}

/// Whether `a` is at most `b`; never where either is not a number.
pub open spec fn at_most(a: u64, b: u64) -> bool {
    less(a, b) || equal(a, b)
}

/// Whether `a` is at most `b`.
pub fn le(a: u64, b: u64) -> (r: bool)
    ensures
        r == at_most(a, b),
{
    lt(a, b) || eq(a, b)
}

// ---- quotients and signed products -----------------------------------------------------------

/// The bits of the double nearest to the quotient of two positive finite doubles, as an integer
/// without bounds.
pub open spec fn quotient(a: u64, b: u64) -> int {
    nearest_bits(significand(a), significand(b)) + (power(a) - power(b)) * 0x10_0000_0000_0000
}

/// The quotient of two positive finite doubles.
pub fn divide(a: u64, b: u64) -> (r: i128)
    requires
        a < INFINITY,
        0 < b < INFINITY,
    ensures
        r as int == quotient(a, b),
{
    let (m, p): (u64, i128) = split(a);
    let (n, q): (u64, i128) = split(b);
    let bits: u64 = nearest(m as u128, n as u128);
    bits as i128 + (p - q) * 0x10_0000_0000_0000
}

/// The quotient of two normal doubles is within a factor of two of what their exponents say.
pub proof fn lemma_quotient(a: u64, b: u64)
    requires
        EXPONENT_UNIT <= a < INFINITY,
        EXPONENT_UNIT <= b < INFINITY,
    ensures
        quotient(a, b) >= (1022 + a / EXPONENT_UNIT - b / EXPONENT_UNIT) * EXPONENT_UNIT,
        quotient(a, b) <= (1024 + a / EXPONENT_UNIT - b / EXPONENT_UNIT) * EXPONENT_UNIT,
{
    let (m, n) = (significand(a), significand(b));
    power2::lemma2_to64();
    power2::lemma2_to64_rest();
    assert(m * power2::pow2(53) >= n * 0x10_0000_0000_0000) by (nonlinear_arith)
        requires
            m >= 0x10_0000_0000_0000,
            n < 0x20_0000_0000_0000,
            power2::pow2(53) == 0x20_0000_0000_0000,
    ;
    lemma_nearest_at_least(m, n, 53);
    assert(m <= n * power2::pow2(1));
    lemma_nearest_scaled(m, n, 1);
}

/// The rank of the product of a non-negative double and any double: none where it is not a number,
/// and at least zero, for a non-negative factor, where it is too small.
pub open spec fn scaled(a: u64, f: u64) -> Option<int> {
    let m = magnitude(f) as u64;
    if is_nan(f) || a > INFINITY || (a == INFINITY && m == 0) || (a == 0 && m == INFINITY) {
        None
    } else {
        let size = if a == INFINITY || m == INFINITY {
            INFINITY as int
        } else if product(a, m) < 0 {
            0
        } else {
            product(a, m)
        };
        Some(if f >= SIGN_UNIT { -size } else { size })
    }
}

/// The rank of the product of a non-negative double and any double.
pub fn scale(a: u64, f: u64) -> (r: Option<i128>)
    ensures
        match r {
            Some(x) => scaled(a, f) == Some(x as int),
            None => scaled(a, f) is None,
        },
{
    let m: u64 = if f >= SIGN_UNIT { f - SIGN_UNIT } else { f };
    if nan(f) || a > INFINITY || (a == INFINITY && m == 0) || (a == 0 && m == INFINITY) {
        return None;
    }
    let size: i128 = if a == INFINITY || m == INFINITY {
        INFINITY as i128
    } else {
        let p: i128 = multiply(a, m);
        proof {
            lemma_product_bound(a, m);
        }
        if p < 0 {
            0
        } else {
            p
        }
    };
    Some(
        if f >= SIGN_UNIT {
            -size
        } else {
            size
        },
    )
}

/// A product's exponent is bounded.
proof fn lemma_product_bound(a: u64, b: u64)
    requires
        a < INFINITY,
        b < INFINITY,
    ensures
        product(a, b) < 0x1_0000_0000_0000_0000_0000,
{
    let (m, n) = (significand(a), significand(b));
    if m > 0 && n > 0 {
        power2::lemma2_to64();
        power2::lemma2_to64_rest();
        assert(m * n < 1 * 0x20_0000_0000_0000 * power2::pow2(53)) by (nonlinear_arith)
            requires
                m < 0x20_0000_0000_0000,
                n < 0x20_0000_0000_0000,
                power2::pow2(53) == 0x20_0000_0000_0000,
        ;
        lemma_nearest_at_most(m * n, 1, 53);
    }
}

/// The number that orders a double.
pub fn order(bits: u64) -> (r: i128)
    ensures
        r as int == rank(bits),
{
    rank_of(bits) as i128
}

/// A double in decimal, with one digit after the point.
pub fn tenths(bits: u64) -> (r: String)
    requires
        975 * EXPONENT_UNIT <= bits < 1093 * EXPONENT_UNIT,
    ensures
        r@ == one_decimal_text(bits),
{
    one_decimal(bits)
}

/// The double nearest to a whole number, or to half of one, is zero or at least a half.
pub proof fn lemma_half_bound(num: nat, den: nat)
    requires
        1 <= den <= 2,
        num <= 0x2_0000_0000_0000_0000,
    ensures
        nearest_bits(num, den) == 0 || 1022 * EXPONENT_UNIT <= nearest_bits(num, den),
        nearest_bits(num, den) <= 1089 * EXPONENT_UNIT,
        den == 2 || num <= 0x1_0000_0000_0000_0000 ==> nearest_bits(num, den) <= 1088 * EXPONENT_UNIT,
{
    power2::lemma2_to64();
    power2::lemma2_to64_rest();
    assert(num < den * 0x20_0000_0000_0000 * power2::pow2(13)) by {
        assert(den * 0x20_0000_0000_0000 * 0x2000 > 0x2_0000_0000_0000_0000) by (nonlinear_arith)
            requires
                den >= 1,
        ;
    }
    lemma_nearest_at_most(num, den, 13);
    if den == 2 || num <= 0x1_0000_0000_0000_0000 {
        assert(num < den * 0x20_0000_0000_0000 * power2::pow2(12)) by {
            if den == 2 {
                assert(2 * 0x20_0000_0000_0000 * 0x1000 > 0x2_0000_0000_0000_0000);
            } else {
                assert(1 * 0x20_0000_0000_0000 * 0x1000 > 0x1_0000_0000_0000_0000);
            }
        }
        lemma_nearest_at_most(num, den, 12);
    }
    if num > 0 {
        assert(num * power2::pow2(53) >= den * 0x10_0000_0000_0000) by (nonlinear_arith)
            requires
                num >= 1,
                den <= 2,
                power2::pow2(53) == 0x20_0000_0000_0000,
        ;
        lemma_nearest_at_least(num, den, 53);
    }
}

/// A positive whole number is a positive double.
pub proof fn lemma_nonzero(num: nat)
    requires
        0 < num <= 0x1_0000_0000_0000_0000,
    ensures
        nearest_bits(num, 1) >= 1023 * EXPONENT_UNIT,
{
    power2::lemma2_to64();
    power2::lemma2_to64_rest();
    lemma_nearest_at_least(num, 1, 52);
}

// ---- times -----------------------------------------------------------------------------------

/// The double a million.
pub const MILLION: u64 = 0x412e_8480_0000_0000;

/// A double of milliseconds as a whole number of nanoseconds: times a million, without what is after
/// the point; zero where it is not a number, and the nearest end of the range where it is too large.
pub open spec fn nanos(ms: u64) -> int {
    match scaled(MILLION, ms) {
        Some(r) => if r >= 0 {
            if r >= 1086 * EXPONENT_UNIT { i64::MAX as int } else { truncated(r as u64) }
        } else {
            if -r >= 1086 * EXPONENT_UNIT { i64::MIN as int } else { -truncated((-r) as u64) }
        },
        None => 0,
    }
}

/// A double of milliseconds as a whole number of nanoseconds.
pub fn to_nanos(ms: u64) -> (r: i64)
    ensures
        r as int == nanos(ms),
{
    match scale(MILLION, ms) {
        Some(x) => if x >= 0 {
            if x >= 1086 * 0x10_0000_0000_0000 {
                i64::MAX
            } else {
                truncate(x as u64)
            }
        } else {
            if x <= -1086 * 0x10_0000_0000_0000 {
                i64::MIN
            } else {
                -truncate((-x) as u64)
            }
        },
        None => 0,
    }
}

/// A number in decimal with leading zeros, of a given width.
pub open spec fn padded(n: nat, width: nat) -> Seq<char>
    decreases width,
{
    if width == 0 {
        Seq::empty()
    } else {
        padded(n / 10, (width - 1) as nat).push(text::digit_char(n % 10))
    }
}

/// The digits of a fraction of a given width, without trailing zeros.
pub open spec fn fraction_text(n: nat, width: nat) -> Seq<char>
    decreases width,
{
    if width == 0 || n == 0 {
        Seq::empty()
    } else if n % 10 == 0 {
        fraction_text(n / 10, (width - 1) as nat)
    } else {
        padded(n, width)
    }
}

/// A count of millionths in decimal, without trailing zeros after the point.
pub open spec fn millionths_text(n: nat) -> Seq<char> {
    if n % 1_000_000 == 0 {
        text::dec(n / 1_000_000)
    } else {
        text::dec(n / 1_000_000) + "."@ + fraction_text(n % 1_000_000, 6)
    }
}

/// A count of nanoseconds as milliseconds, with at most six digits after the point: the count as a
/// double, divided by a million.
pub open spec fn short_millis_text(ns: int) -> Seq<char> {
    let q = divided(double_of((if ns < 0 { -ns } else { ns }) as nat), 1_000_000) as u64;
    let t = millionths_text(rounded(numerator(q) * 1_000_000, denominator(q)));
    if ns < 0 { "-"@ + t } else { t }
}

/// A number in decimal with leading zeros.
fn pad(n: u64, width: u32) -> (r: String)
    ensures
        r@ == padded(n as nat, width as nat),
    decreases width,
{
    if width == 0 {
        String::new()
    } else {
        let mut out: String = pad(n / 10, width - 1);
        text::push_digit(&mut out, (n % 10) as u8);
        out
    }
}

/// The digits of a fraction, without trailing zeros.
fn fraction(n: u64, width: u32) -> (r: String)
    ensures
        r@ == fraction_text(n as nat, width as nat),
    decreases width,
{
    if width == 0 || n == 0 {
        String::new()
    } else if n % 10 == 0 {
        fraction(n / 10, width - 1)
    } else {
        pad(n, width)
    }
}

/// A count of millionths in decimal.
fn millionths(n: u128) -> (r: String)
    ensures
        r@ == millionths_text(n as nat),
{
    let mut out: String = text::dec_u128(n / 1_000_000);
    let f: u64 = (n % 1_000_000) as u64;
    if f != 0 {
        out.append(".");
        out.append(fraction(f, 6).as_str());
    }
    out
}

/// A count of nanoseconds as milliseconds, with at most six digits after the point.
pub fn short_millis(ns: i64) -> (r: String)
    ensures
        r@ == short_millis_text(ns as int),
{
    let size: u64 = if ns < 0 { (-(ns as i128)) as u64 } else { ns as u64 };
    let t: String = millionths(millionth_count(size));
    if ns < 0 {
        let mut out: String = String::from_str("-");
        out.append(t.as_str());
        out
    } else {
        t
    }
}

/// A count of nanoseconds in millionths of a millisecond, by way of a double of milliseconds.
fn millionth_count(ns: u64) -> (r: u128)
    ensures
        r as nat == ({
            let q = divided(double_of(ns as nat), 1_000_000) as u64;
            rounded(numerator(q) * 1_000_000, denominator(q))
        }),
{
    let d: u64 = nearest(ns as u128, 1);
    if ns == 0 {
        proof {
            assert(significand(0) == 0);
            assert(numerator(0) == 0);
            power2::lemma_pow2_pos(1074);
            let den = denominator(0);
            vstd::arithmetic::div_mod::lemma_div_basics_1(den as int);
            vstd::arithmetic::div_mod::lemma_small_mod(0, den);
        }
        return 0;
    }
    proof {
        power2::lemma2_to64();
        power2::lemma2_to64_rest();
        lemma_nearest_at_most(ns as nat, 1, 11);
        lemma_nearest_at_least(ns as nat, 1, 52);
    }
    let (num, den): (u128, u128) = ratio(d);
    proof {
        assert(den <= 0x10_0000_0000_0000) by {
            if d < 1075 * EXPONENT_UNIT {
                let k = (1075 - d / EXPONENT_UNIT) as nat;
                assert(k <= 52);
                if k < 52 {
                    power2::lemma_pow2_strictly_increases(k, 52);
                }
            }
        }
    }
    let q: u64 = nearest(num, den * 1_000_000);
    proof {
        let dd = (den * 1_000_000) as nat;
        assert(num < dd * 0x20_0000_0000_0000 * power2::pow2(14)) by {
            assert(dd * 0x20_0000_0000_0000 * 0x4000 >= 0x100_0000_0000_0000_0000) by (nonlinear_arith)
                requires
                    dd >= 1_000_000,
            ;
        }
        lemma_nearest_at_most(num as nat, dd, 14);
        assert(num as nat * power2::pow2(73) >= dd * 0x10_0000_0000_0000) by {
            power2::lemma_pow2_adds(64, 9);
            assert(num * 0x200_0000_0000_0000_0000 >= dd * 0x10_0000_0000_0000) by (nonlinear_arith)
                requires
                    num >= 0x10_0000_0000_0000,
                    dd <= 0x10_0000_0000_0000 * 1_000_000,
            ;
        }
        lemma_nearest_at_least(num as nat, dd, 73);
    }
    let (n, m): (u128, u128) = ratio(q);
    round(n * 1_000_000, m)
}

} // verus!
