//! Arithmetic on doubles as IEEE 754 defines it: every result is the double nearest to the exact one,
//! ties to even, infinity where it is too large. A double that is a number stands here as its rank:
//! its bits without the sign, negative for a negative double, so that ranks are ordered as the
//! doubles are.

use vstd::arithmetic::power2;
use vstd::prelude::*;

use crate::number;
use crate::number::{nearest, round, split, two_to};

verus! {

/// The rank of infinity.
pub const TOP: i128 = 0x7ff0_0000_0000_0000;

/// Whether a number is the rank of a double.
pub open spec fn is_rank(x: int) -> bool {
    -TOP <= x <= TOP
}

/// Whether a number is the rank of a finite double.
pub open spec fn is_finite(x: int) -> bool {
    -TOP < x < TOP
}

/// The size of a number.
pub open spec fn size(x: int) -> int {
    if x < 0 { -x } else { x }
}

/// The size of a number.
pub fn size_of(x: i128) -> (r: i128)
    requires
        is_rank(x as int),
    ensures
        r as int == size(x as int),
        0 <= r <= TOP,
{
    if x < 0 {
        -x
    } else {
        x
    }
}

/// The rank of a double that is a number.
pub fn rank(bits: u64) -> (r: i128)
    requires
        !number::is_nan(bits),
    ensures
        r as int == number::rank(bits),
        is_rank(r as int),
{
    number::order(bits)
}

/// The significand of the size of a finite double.
pub open spec fn significand(x: int) -> nat {
    number::significand(size(x) as u64)
}

/// The power of two that it is scaled by.
pub open spec fn power(x: int) -> int {
    number::power(size(x) as u64)
}

// ---- rounding --------------------------------------------------------------------------------

/// The rank of the double nearest to `num / den * 2^p`.
pub open spec fn nearest_rank(num: nat, den: nat, p: int) -> int {
    let t = number::nearest_bits(num, den) + p * 0x10_0000_0000_0000;
    if num == 0 {
        0
    } else if t >= TOP {
        TOP as int
    } else if t >= 0x10_0000_0000_0000 {
        t
    } else if p + 1074 >= 0 {
        number::rounded(num * power2::pow2((p + 1074) as nat), den) as int
    } else {
        number::rounded(num, den * power2::pow2((-p - 1074) as nat)) as int
    }
}

/// The bits of a ratio that is too small for a normal double: below two to the power 52 in units of
/// the smallest double.
proof fn lemma_small(num: nat, den: nat, p: int, k: nat)
    requires
        num > 0,
        den > 0,
        number::nearest_bits(num, den) + p * 0x10_0000_0000_0000 < 0x10_0000_0000_0000,
        k == p + 1074,
    ensures
        num * power2::pow2(k) < den * 0x10_0000_0000_0000,
    decreases number::distance(num, den),
{
    power2::lemma_pow2_pos(k);
    power2::lemma2_to64();
    if num >= den * 0x20_0000_0000_0000 {
        // One step of the exponent down.
        assert(number::nearest_bits(num, den) == number::nearest_bits(num, 2 * den) + 0x10_0000_0000_0000);
        lemma_small(num, 2 * den, p + 1, k + 1);
        power2::lemma_pow2_unfold(k + 1);
        let q = power2::pow2(k);
        assert(num * (2 * q) < (2 * den) * 0x10_0000_0000_0000);
        assert(num * (2 * q) == 2 * (num * q)) by (nonlinear_arith);
    } else if num < den * 0x10_0000_0000_0000 {
        if k > 0 {
            assert(number::nearest_bits(num, den) == number::nearest_bits(2 * num, den) - 0x10_0000_0000_0000);
            lemma_small(2 * num, den, p - 1, (k - 1) as nat);
            power2::lemma_pow2_unfold(k);
            let q = power2::pow2((k - 1) as nat);
            assert(num * (2 * q) == (2 * num) * q) by (nonlinear_arith);
        } else {
            assert(num * 1 == num);
        }
    } else {
        assert(number::rounded(num, den) >= 0x10_0000_0000_0000) by {
            assert(num / den >= 0x10_0000_0000_0000) by (nonlinear_arith)
                requires
                    num >= den * 0x10_0000_0000_0000,
                    den > 0,
            ;
        }
        assert(p < -1074);
    }
}

/// The rank of the double nearest to `num / den * 2^p`.
fn find_nearest(num: u128, den: u128, p: i128) -> (r: i128)
    requires
        num < 0x4000_0000_0000_0000_0000_0000_0000_0000,
        p < -1074 ==> num < 0x800_0000_0000_0000_0000_0000_0000,
        0 < den < 0x400_0000_0000_0000_0000,
        -4000 <= p <= 4000,
    ensures
        r as int == nearest_rank(num as nat, den as nat, p as int),
        0 <= r <= TOP,
{
    if num == 0 {
        return 0;
    }
    let t: i128 = nearest(num, den) as i128 + p * 0x10_0000_0000_0000;
    if t >= TOP {
        return TOP;
    }
    if t >= 0x10_0000_0000_0000 {
        return t;
    }
    if p + 1074 >= 0 {
        let k: u32 = (p + 1074) as u32;
        proof {
            lemma_small(num as nat, den as nat, p as int, k as nat);
            lemma_shift(num as nat, den as nat, k as nat);
        }
        let scaled: u128 = num * two_to(k);
        let r: u128 = round(scaled, den);
        proof {
            lemma_rounded_bound(scaled as nat, den as nat, 0x10_0000_0000_0000);
        }
        return r as i128;
    }
    let k: i128 = -p - 1074;
    if k >= 108 {
        proof {
            lemma_vanishes(num as nat, den as nat, k as nat);
        }
        return 0;
    }
    let q: u128 = two_to(k as u32);
    proof {
        power2::lemma_pow2_pos(k as nat);
    }
    if den > 0x7fff_ffff_ffff_ffff_ffff_ffff_ffff_ffff / q {
        proof {
            let (n, d, w) = (num as nat, den as nat, q as nat);
            assert(d * w > 0x7fff_ffff_ffff_ffff_ffff_ffff_ffff_ffff) by (nonlinear_arith)
                requires
                    d > 0x7fff_ffff_ffff_ffff_ffff_ffff_ffff_ffffnat / w,
                    w > 0,
            ;
            vstd::arithmetic::div_mod::lemma_basic_div(n as int, (d * w) as int);
            vstd::arithmetic::div_mod::lemma_small_mod(n, d * w);
        }
        return 0;
    }
    proof {
        let (d, w) = (den as nat, q as nat);
        assert(d * w <= 0x7fff_ffff_ffff_ffff_ffff_ffff_ffff_ffff) by (nonlinear_arith)
            requires
                d <= 0x7fff_ffff_ffff_ffff_ffff_ffff_ffff_ffffnat / w,
                w > 0,
        ;
        assert(d * w > 0) by (nonlinear_arith)
            requires
                d > 0,
                w > 0,
        ;
    }
    let r: u128 = round(num, den * q);
    proof {
        lemma_small_below(num as nat, den as nat, p as int, k as nat);
    }
    r as i128
}

/// What is shifted up without loss stays within bounds.
proof fn lemma_shift(num: nat, den: nat, k: nat)
    requires
        num > 0,
        den < 0x400_0000_0000_0000_0000,
        num * power2::pow2(k) < den * 0x10_0000_0000_0000,
    ensures
        k < 127,
        num * power2::pow2(k) < 0x4000_0000_0000_0000_0000_0000_0000_0000,
{
    power2::lemma_pow2_pos(k);
    power2::lemma2_to64();
    power2::lemma2_to64_rest();
    assert(power2::pow2(k) <= num * power2::pow2(k)) by (nonlinear_arith)
        requires
            num >= 1,
            power2::pow2(k) >= 0,
    ;
    if k >= 127 {
        power2::lemma_pow2_adds(64, 63);
        if k > 127 {
            power2::lemma_pow2_strictly_increases(127, k);
        }
    }
}

/// A ratio of at most a whole number rounds to at most that.
proof fn lemma_rounded_bound(num: nat, den: nat, top: nat)
    requires
        den > 0,
        num <= den * top,
    ensures
        number::rounded(num, den) <= top,
{
    let (q, r) = (num / den, num % den);
    vstd::arithmetic::div_mod::lemma_fundamental_div_mod(num as int, den as int);
    assert(q <= top && (q == top ==> r == 0)) by (nonlinear_arith)
        requires
            num == den * q + r,
            num <= den * top,
            0 <= r < den,
    ;
}

/// A ratio below a half of the smallest double rounds to zero.
proof fn lemma_vanishes(num: nat, den: nat, k: nat)
    requires
        num < 0x800_0000_0000_0000_0000_0000_0000,
        den > 0,
        k >= 108,
    ensures
        number::rounded(num, den * power2::pow2(k)) == 0,
{
    power2::lemma2_to64();
    power2::lemma2_to64_rest();
    power2::lemma_pow2_adds(64, 44);
    if k > 108 {
        power2::lemma_pow2_strictly_increases(108, k);
    }
    let w = power2::pow2(k);
    assert(den * w >= w) by (nonlinear_arith)
        requires
            den >= 1,
            w >= 0,
    ;
    vstd::arithmetic::div_mod::lemma_basic_div(num as int, (den * w) as int);
    vstd::arithmetic::div_mod::lemma_small_mod(num, den * w);
}

/// A ratio that is too small for a normal double is at most the smallest one.
proof fn lemma_small_below(num: nat, den: nat, p: int, k: nat)
    requires
        num > 0,
        den > 0,
        number::nearest_bits(num, den) + p * 0x10_0000_0000_0000 < 0x10_0000_0000_0000,
        k == -p - 1074,
    ensures
        number::rounded(num, den * power2::pow2(k)) <= 0x10_0000_0000_0000,
    decreases number::distance(num, den),
{
    power2::lemma_pow2_pos(k);
    power2::lemma2_to64();
    let w = power2::pow2(k);
    assert(den * w > 0) by (nonlinear_arith)
        requires
            den > 0,
            w > 0,
    ;
    if num < den * 0x20_0000_0000_0000 {
        if k == 0 {
            assert(den * 1 == den);
            lemma_small(num, den, p, 0);
            assert(num * 1 == num);
        } else {
            power2::lemma_pow2_unfold(k);
            assert(num <= (den * w) * 0x10_0000_0000_0000) by (nonlinear_arith)
                requires
                    num < den * 0x20_0000_0000_0000,
                    w >= 2,
            ;
        }
        lemma_rounded_bound(num, den * w, 0x10_0000_0000_0000);
    } else {
        assert(number::nearest_bits(num, den) == number::nearest_bits(num, 2 * den) + 0x10_0000_0000_0000);
        if k > 0 {
            lemma_small_below(num, 2 * den, p + 1, (k - 1) as nat);
            power2::lemma_pow2_unfold(k);
            let v = power2::pow2((k - 1) as nat);
            assert(den * (2 * v) == (2 * den) * v) by (nonlinear_arith);
        } else {
            assert(p == -1074);
            lemma_small(num, den, p, 0);
            assert(num * 1 == num);
            assert(den * 1 == den);
            lemma_rounded_bound(num, den * w, 0x10_0000_0000_0000);
        }
    }
}

// ---- sums ------------------------------------------------------------------------------------

/// The rank of the double nearest to the sum, or to the difference, of the sizes of two finite
/// doubles, the greater one first.
pub open spec fn combined(hi: int, lo: int, apart: bool) -> int {
    let d = (power(hi) - power(lo)) as nat;
    let (m, n) = (significand(hi) * power2::pow2(d), significand(lo));
    nearest_rank(if apart { (m - n) as nat } else { m + n }, power2::pow2(d), power(hi))
}

/// The sum of two doubles; of two infinities of different signs, the first.
pub open spec fn plus(x: int, y: int) -> int {
    if !is_finite(x) || y == 0 {
        x
    } else if !is_finite(y) || x == 0 {
        y
    } else {
        let (hi, lo) = if size(x) >= size(y) { (x, y) } else { (y, x) };
        let r = combined(hi, lo, (x < 0) != (y < 0));
        if hi < 0 { -r } else { r }
    }
}

/// The difference of two doubles.
pub open spec fn minus(x: int, y: int) -> int {
    plus(x, -y)
}

/// A double far above another is not changed by it.
proof fn lemma_far(hi: int, lo: int, apart: bool)
    requires
        0x10_0000_0000_0000 <= hi < TOP,
        0 < lo < TOP,
        power(hi) - power(lo) >= 60,
    ensures
        combined(hi, lo, apart) == hi,
{
    let d = (power(hi) - power(lo)) as nat;
    let (m, n) = (significand(hi), significand(lo));
    let den = power2::pow2(d);
    power2::lemma2_to64();
    power2::lemma2_to64_rest();
    power2::lemma_pow2_pos(d);
    assert(den >= 0x1000_0000_0000_0000) by {
        if d > 60 {
            power2::lemma_pow2_strictly_increases(60, d);
        }
    }
    assert(n < 0x20_0000_0000_0000);
    assert(0x10_0000_0000_0000 <= m < 0x20_0000_0000_0000);
    assert(m * den >= 0x10_0000_0000_0000 * den) by (nonlinear_arith)
        requires
            m >= 0x10_0000_0000_0000,
            den >= 0,
    ;
    assert(m * den + den <= 0x20_0000_0000_0000 * den) by (nonlinear_arith)
        requires
            m + 1 <= 0x20_0000_0000_0000,
            den >= 0,
    ;
    if !apart {
        lemma_rounds_down(m, den, n);
    } else if m > 0x10_0000_0000_0000 {
        assert(m * den - den >= 0x10_0000_0000_0000 * den) by (nonlinear_arith)
            requires
                m >= 0x10_0000_0000_0001,
                den >= 0,
        ;
        lemma_rounds_up(m, den, n);
    } else {
        let num = (m * den - n) as nat;
        assert(2 * num == 0x20_0000_0000_0000 * den - 2 * n);
        assert(number::nearest_bits(num, den) == number::nearest_bits(2 * num, den) - 0x10_0000_0000_0000);
        lemma_rounds_up(0x20_0000_0000_0000, den, 2 * n);
    }
    assert(hi == power(hi) * 0x10_0000_0000_0000 + 1074 * 0x10_0000_0000_0000 + m);
}

/// A little less than a multiple rounds to it.
proof fn lemma_rounds_up(m: nat, den: nat, n: nat)
    requires
        4 * n < den,
        n > 0,
        m >= 1,
    ensures
        m * den >= n,
        number::rounded((m * den - n) as nat, den) == m,
{
    let num = m * den - n;
    assert(m * den >= den) by (nonlinear_arith)
        requires
            m >= 1,
            den >= 0,
    ;
    assert(num / den as int == m - 1 && num % den as int == den - n) by (nonlinear_arith)
        requires
            num == m * den - n,
            0 < n < den,
            m >= 1,
    ;
}

/// A little more than a multiple rounds to it.
proof fn lemma_rounds_down(m: nat, den: nat, n: nat)
    requires
        4 * n < den,
    ensures
        number::rounded(m * den + n, den) == m,
{
    let num = m * den + n;
    assert(num / den == m && num % den == n) by (nonlinear_arith)
        requires
            num == m * den + n,
            0 <= n < den,
    ;
}

/// The greater of two doubles is not less in the scale of the other.
proof fn lemma_greater(hi: int, lo: int)
    requires
        0 < lo <= hi < TOP,
    ensures
        power(hi) >= power(lo),
        significand(hi) * power2::pow2((power(hi) - power(lo)) as nat) >= significand(lo),
{
    let d = (power(hi) - power(lo)) as nat;
    let (m, n) = (significand(hi), significand(lo));
    power2::lemma2_to64();
    power2::lemma_pow2_pos(d);
    if d == 0 {
        assert(m >= n);
        assert(m * 1 == m);
    } else {
        if d > 1 {
            power2::lemma_pow2_strictly_increases(1, d);
        }
        assert(m >= 0x10_0000_0000_0000);
        assert(n < 0x20_0000_0000_0000);
        assert(m * power2::pow2(d) >= 0x20_0000_0000_0000) by (nonlinear_arith)
            requires
                m >= 0x10_0000_0000_0000,
                power2::pow2(d) >= 2,
        ;
    }
}

/// The double nearest to the sum, or to the difference, of two positive finite doubles.
fn combine(hi: i128, lo: i128, apart: bool) -> (r: i128)
    requires
        0 < lo <= hi < TOP,
    ensures
        r as int == combined(hi as int, lo as int, apart),
        0 <= r <= TOP,
{
    let (m, p): (u64, i128) = split(hi as u64);
    let (n, q): (u64, i128) = split(lo as u64);
    proof {
        lemma_greater(hi as int, lo as int);
    }
    if p - q >= 60 {
        proof {
            lemma_far(hi as int, lo as int, apart);
        }
        return hi;
    }
    let d: u32 = (p - q) as u32;
    let den: u128 = two_to(d);
    proof {
        power2::lemma2_to64();
        power2::lemma2_to64_rest();
        power2::lemma_pow2_pos(d as nat);
        power2::lemma_pow2_strictly_increases(d as nat, 60);
        assert(m * den <= 0x20_0000_0000_0000 * 0x1000_0000_0000_0000) by (nonlinear_arith)
            requires
                m <= 0x20_0000_0000_0000,
                0 <= den <= 0x1000_0000_0000_0000,
        ;
    }
    let num: u128 = if apart { m as u128 * den - n as u128 } else { m as u128 * den + n as u128 };
    find_nearest(num, den, p)
}

/// The sum of two doubles.
pub fn sum(x: i128, y: i128) -> (r: i128)
    requires
        is_rank(x as int),
        is_rank(y as int),
    ensures
        r as int == plus(x as int, y as int),
        is_rank(r as int),
{
    if x <= -TOP || x >= TOP || y == 0 {
        return x;
    }
    if y <= -TOP || y >= TOP || x == 0 {
        return y;
    }
    let (a, b): (i128, i128) = (size_of(x), size_of(y));
    let apart: bool = (x < 0) != (y < 0);
    if a >= b {
        let r: i128 = combine(a, b, apart);
        proof {
            lemma_sizes(x as int, y as int, apart);
        }
        if x < 0 {
            -r
        } else {
            r
        }
    } else {
        let r: i128 = combine(b, a, apart);
        proof {
            lemma_sizes(y as int, x as int, apart);
        }
        if y < 0 {
            -r
        } else {
            r
        }
    }
}

/// Only the sizes count where the signs are told.
proof fn lemma_sizes(hi: int, lo: int, apart: bool)
    ensures
        combined(hi, lo, apart) == combined(size(hi), size(lo), apart),
{
}

/// The difference of two doubles.
pub fn difference(x: i128, y: i128) -> (r: i128)
    requires
        is_rank(x as int),
        is_rank(y as int),
    ensures
        r as int == minus(x as int, y as int),
        is_rank(r as int),
{
    sum(x, -y)
}

// ---- products and quotients ------------------------------------------------------------------

/// A size under the sign of a product or quotient.
pub open spec fn signed(r: int, x: int, y: int) -> int {
    if (x < 0) != (y < 0) { -r } else { r }
}

/// The product of two doubles; of zero and infinity, zero.
pub open spec fn times(x: int, y: int) -> int {
    if x == 0 || y == 0 {
        0
    } else if !is_finite(x) || !is_finite(y) {
        signed(TOP as int, x, y)
    } else {
        signed(nearest_rank(significand(x) * significand(y), 1, power(x) + power(y)), x, y)
    }
}

/// The quotient of two doubles, the second one not zero; of two infinities, infinity.
pub open spec fn over(x: int, y: int) -> int {
    if x == 0 {
        0
    } else if !is_finite(x) {
        signed(TOP as int, x, y)
    } else if !is_finite(y) {
        0
    } else {
        signed(nearest_rank(significand(x), significand(y), power(x) - power(y)), x, y)
    }
}

/// The product of two doubles.
pub fn product(x: i128, y: i128) -> (r: i128)
    requires
        is_rank(x as int),
        is_rank(y as int),
    ensures
        r as int == times(x as int, y as int),
        is_rank(r as int),
{
    if x == 0 || y == 0 {
        return 0;
    }
    let (a, b): (i128, i128) = (size_of(x), size_of(y));
    let r: i128 = if a >= TOP || b >= TOP {
        TOP
    } else {
        let (m, p): (u64, i128) = split(a as u64);
        let (n, q): (u64, i128) = split(b as u64);
        assert(m * n <= 0x1f_ffff_ffff_ffff * 0x1f_ffff_ffff_ffff) by (nonlinear_arith)
            requires
                m <= 0x1f_ffff_ffff_ffff,
                n <= 0x1f_ffff_ffff_ffff,
        ;
        find_nearest(m as u128 * n as u128, 1, p + q)
    };
    if (x < 0) != (y < 0) {
        -r
    } else {
        r
    }
}

/// The quotient of two doubles.
pub fn quotient(x: i128, y: i128) -> (r: i128)
    requires
        is_rank(x as int),
        is_rank(y as int),
        y != 0,
    ensures
        r as int == over(x as int, y as int),
        is_rank(r as int),
{
    if x == 0 {
        return 0;
    }
    let (a, b): (i128, i128) = (size_of(x), size_of(y));
    if a < TOP && b >= TOP {
        return 0;
    }
    let r: i128 = if a >= TOP {
        TOP
    } else {
        let (m, p): (u64, i128) = split(a as u64);
        let (n, q): (u64, i128) = split(b as u64);
        find_nearest(m as u128, n as u128, p - q)
    };
    if (x < 0) != (y < 0) {
        -r
    } else {
        r
    }
}

/// The double nearest to a whole number.
pub open spec fn whole(n: int) -> int {
    let r = nearest_rank(size(n) as nat, 1, 0);
    if n < 0 { -r } else { r }
}

/// The double nearest to a whole number.
pub fn to_whole(n: i128) -> (r: i128)
    requires
        -0x1_0000_0000_0000_0000 <= n <= 0x1_0000_0000_0000_0000,
    ensures
        r as int == whole(n as int),
        is_rank(r as int),
        n > 0 ==> r > 0,
{
    let r: i128 = find_nearest((if n < 0 { -n } else { n }) as u128, 1, 0);
    proof {
        if n > 0 {
            number::lemma_nonzero(n as nat);
        }
    }
    if n < 0 {
        -r
    } else {
        r
    }
}

/// The greater of two numbers.
pub open spec fn greater(x: int, y: int) -> int {
    if x < y { y } else { x }
}

/// The lesser of two numbers.
pub open spec fn lesser(x: int, y: int) -> int {
    if y < x { y } else { x }
}

/// One.
pub const ONE: i128 = 0x3ff0_0000_0000_0000;

/// Two.
pub const TWO: i128 = 0x4000_0000_0000_0000;

/// Four.
pub const FOUR: i128 = 0x4010_0000_0000_0000;

/// A hundred.
pub const HUNDRED: i128 = 0x4059_0000_0000_0000;

/// Ten thousand.
pub const TEN_THOUSAND: i128 = 0x40c3_8800_0000_0000;

/// A million.
pub const MILLION: i128 = 0x412e_8480_0000_0000;

/// A hundredth.
pub const HUNDREDTH: i128 = 0x3f84_7ae1_47ae_147b;

/// A millionth.
pub const MILLIONTH: i128 = 0x3eb0_c6f7_a0b5_ed8d;

/// A billionth.
pub const BILLIONTH: i128 = 0x3e11_2e0b_e826_d695;

/// A billion.
pub const BILLION: i128 = 0x41cd_cd65_0000_0000;

// ---- square roots ----------------------------------------------------------------------------

/// Whether a number is the whole part of a square root.
pub open spec fn is_root(r: nat, n: nat) -> bool {
    r * r <= n < (r + 1) * (r + 1)
}

/// The whole part of a square root.
pub open spec fn root(n: nat) -> nat {
    choose|r: nat| is_root(r, n)
}

/// A number has one whole part of its square root.
proof fn lemma_root(r: nat, n: nat)
    requires
        is_root(r, n),
    ensures
        root(n) == r,
{
    let s = root(n);
    assert(is_root(s, n));
    if s < r {
        assert((s + 1) * (s + 1) <= r * r) by (nonlinear_arith)
            requires
                s + 1 <= r,
        ;
    } else if r < s {
        assert((r + 1) * (r + 1) <= s * s) by (nonlinear_arith)
            requires
                r + 1 <= s,
        ;
    }
}

/// The whole number nearest to a square root. No square root of a whole number lies half way.
pub open spec fn nearest_root(n: nat) -> nat {
    if n - root(n) * root(n) > root(n) { root(n) + 1 } else { root(n) }
}

/// The bits of a positive finite double without a lower bound of the exponent.
pub open spec fn normal_bits(x: int) -> int {
    number::nearest_bits(significand(x), 1) + power(x) * 0x10_0000_0000_0000
}

/// The square root of a non-negative double: the double nearest to it.
pub open spec fn square_root(x: int) -> int {
    if x <= 0 {
        0
    } else if !is_finite(x) {
        x
    } else {
        let t = normal_bits(x);
        let m = (0x10_0000_0000_0000 + t % 0x10_0000_0000_0000) as nat;
        let p = t / 0x10_0000_0000_0000 - 1075;
        // The significand, shifted so that the power of two that is left is even.
        let n = if p % 2 == 0 { m * 0x10_0000_0000_0000 } else { m * 0x20_0000_0000_0000 };
        let q = if p % 2 == 0 { p - 52 } else { p - 53 };
        nearest_rank(nearest_root(n), 1, q / 2)
    }
}

/// The whole part of a square root.
fn find_root(n: u128) -> (r: u128)
    requires
        n < 0x400_0000_0000_0000_0000_0000_0000,
    ensures
        is_root(r as nat, n as nat),
        r <= 0x20_0000_0000_0000,
{
    let mut lo: u128 = 0;
    let mut hi: u128 = 0x20_0000_0000_0001;
    while hi - lo > 1
        invariant
            lo < hi <= 0x20_0000_0000_0001,
            lo * lo <= n,
            n < hi * hi,
        decreases hi - lo,
    {
        let mid: u128 = lo + (hi - lo) / 2;
        assert(mid * mid <= 0x20_0000_0000_0001 * 0x20_0000_0000_0001) by (nonlinear_arith)
            requires
                mid <= 0x20_0000_0000_0001,
        ;
        if mid * mid <= n {
            lo = mid;
        } else {
            hi = mid;
        }
    }
    lo
}

/// The square root of a non-negative double.
pub fn find_square_root(x: i128) -> (r: i128)
    requires
        is_rank(x as int),
    ensures
        r as int == square_root(x as int),
        0 <= r <= TOP,
{
    if x <= 0 {
        return 0;
    }
    if x >= TOP {
        return x;
    }
    let (s, e): (u64, i128) = split(x as u64);
    let t: i128 = nearest(s as u128, 1) as i128 + e * 0x10_0000_0000_0000;
    let w: u128 = (t + 4096 * 0x10_0000_0000_0000) as u128;
    let m: u128 = 0x10_0000_0000_0000 + w % 0x10_0000_0000_0000;
    let p: i128 = (w / 0x10_0000_0000_0000) as i128 - 4096 - 1075;
    proof {
        let v = t as int;
        assert((v + 4096 * 0x10_0000_0000_0000int) % 0x10_0000_0000_0000 == v % 0x10_0000_0000_0000);
        assert((v + 4096 * 0x10_0000_0000_0000int) / 0x10_0000_0000_0000 == v / 0x10_0000_0000_0000 + 4096);
    }
    let even: bool = (w / 0x10_0000_0000_0000 + 1) % 2 == 0;
    assert(even == (p as int % 2 == 0));
    let n: u128 = if even { m * 0x10_0000_0000_0000 } else { m * 0x20_0000_0000_0000 };
    let h: u128 = (if even { p - 52 + 8192 } else { p - 53 + 8192 }) as u128;
    let q: i128 = (h / 2) as i128 - 4096;
    assert(q as int == (if even { p - 52 } else { p - 53 }) as int / 2);
    let r: u128 = find_root(n);
    proof {
        lemma_root(r as nat, n as nat);
        assert(r * r <= 0x20_0000_0000_0000 * 0x20_0000_0000_0000) by (nonlinear_arith)
            requires
                r <= 0x20_0000_0000_0000,
        ;
    }
    let near: u128 = if n - r * r > r { r + 1 } else { r };
    find_nearest(near, 1, q)
}

} // verus!
