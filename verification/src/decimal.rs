//! Doubles in decimal: with a fixed number of digits after the point, or in scientific notation. The
//! digits are those of the exact value, rounded to nearest, ties to even.

use vstd::arithmetic::div_mod;
use vstd::arithmetic::power2;
use vstd::prelude::*;
use vstd::string::*;

use crate::double;
use crate::number;
use crate::number::{split, INFINITY, SIGN_UNIT};
use crate::text;
use crate::text::{chars_of, push_digit};

verus! {

// ---- powers ----------------------------------------------------------------------------------

/// A power of ten.
pub open spec fn ten_to(k: nat) -> nat
    decreases k,
{
    if k == 0 { 1 } else { 10 * ten_to((k - 1) as nat) }
}

/// A power of five.
pub open spec fn five_to(k: nat) -> nat
    decreases k,
{
    if k == 0 { 1 } else { 5 * five_to((k - 1) as nat) }
}

/// Powers are positive, and a power of ten is one of two times one of five.
proof fn lemma_powers(k: nat)
    ensures
        ten_to(k) > 0,
        five_to(k) > 0,
        power2::pow2(k) > 0,
        ten_to(k) == power2::pow2(k) * five_to(k),
    decreases k,
{
    power2::lemma_pow2_pos(k);
    if k == 0 {
        power2::lemma2_to64();
    } else {
        lemma_powers((k - 1) as nat);
        power2::lemma_pow2_unfold(k);
        let (a, b) = (power2::pow2((k - 1) as nat), five_to((k - 1) as nat));
        assert(10 * (a * b) == (2 * a) * (5 * b)) by (nonlinear_arith);
    }
}

/// Exponents add up.
proof fn lemma_ten_sum(j: nat, k: nat)
    ensures
        ten_to(j + k) == ten_to(j) * ten_to(k),
    decreases j,
{
    if j == 0 {
        assert(1 * ten_to(k) == ten_to(k));
    } else {
        lemma_ten_sum((j - 1) as nat, k);
        assert(ten_to(j + k) == 10 * ten_to((j - 1 + k) as nat));
        let (a, b) = (ten_to((j - 1) as nat), ten_to(k));
        assert(10 * (a * b) == (10 * a) * b) by (nonlinear_arith);
    }
}

/// A factor of both sides of a ratio does not matter.
proof fn lemma_rounded_scale(a: nat, b: nat, c: nat)
    requires
        b > 0,
        c > 0,
    ensures
        number::rounded(a * c, b * c) == number::rounded(a, b),
{
    let (q, r) = (a / b, a % b);
    div_mod::lemma_fundamental_div_mod(a as int, b as int);
    assert(a * c == q * (b * c) + r * c) by (nonlinear_arith)
        requires
            a == b * q + r,
    ;
    assert(0 <= r * c < b * c) by (nonlinear_arith)
        requires
            0 <= r < b,
            c > 0,
    ;
    div_mod::lemma_fundamental_div_mod_converse((a * c) as int, (b * c) as int, q as int, (r * c) as int);
    assert((2 * r < b) == (2 * (r * c) < b * c)) by (nonlinear_arith)
        requires
            c > 0,
    ;
    assert((2 * r == b) == (2 * (r * c) == b * c)) by (nonlinear_arith)
        requires
            c > 0,
    ;
}

/// A number over one is itself.
proof fn lemma_rounded_one(n: nat)
    ensures
        number::rounded(n, 1) == n,
{
    div_mod::lemma_div_basics(n as int);
    div_mod::lemma_fundamental_div_mod(n as int, 1);
}

// ---- digits ----------------------------------------------------------------------------------

/// The number that decimal digits stand for, the lowest one first.
spec fn value(d: Seq<u8>) -> nat
    decreases d.len(),
{
    if d.len() == 0 { 0 } else { d[0] as nat + 10 * value(d.skip(1)) }
}

/// Whether every element is a decimal digit.
spec fn are_digits(d: Seq<u8>) -> bool {
    forall|i: int| 0 <= i < d.len() ==> #[trigger] d[i] < 10
}

/// Digits in two parts.
proof fn lemma_split(d: Seq<u8>, j: int)
    requires
        0 <= j <= d.len(),
    ensures
        value(d) == value(d.take(j)) + ten_to(j as nat) * value(d.skip(j)),
    decreases j,
{
    if j == 0 {
        assert(d.skip(0) =~= d);
        assert(1 * value(d) == value(d));
    } else {
        let rest = d.skip(1);
        lemma_split(rest, j - 1);
        assert(d.take(j).skip(1) =~= rest.take(j - 1));
        assert(rest.skip(j - 1) =~= d.skip(j));
        let (a, b) = (ten_to((j - 1) as nat), value(d.skip(j)));
        assert(10 * (a * b) == (10 * a) * b) by (nonlinear_arith);
    }
}

/// One digit more at the top.
proof fn lemma_push(d: Seq<u8>, x: u8)
    ensures
        value(d.push(x)) == value(d) + ten_to(d.len()) * x,
{
    let e = d.push(x);
    lemma_split(e, d.len() as int);
    assert(e.take(d.len() as int) =~= d);
    assert(e.skip(d.len() as int) =~= seq![x]);
    assert(seq![x].skip(1) =~= Seq::<u8>::empty());
    reveal_with_fuel(value, 2);
}

/// Digits stand for less than the power of ten that their number is.
proof fn lemma_bound(d: Seq<u8>)
    requires
        are_digits(d),
    ensures
        value(d) < ten_to(d.len()),
    decreases d.len(),
{
    if d.len() > 0 {
        let rest = d.skip(1);
        assert forall|i: int| 0 <= i < rest.len() implies #[trigger] rest[i] < 10 by {
            assert(rest[i] == d[i + 1]);
        }
        lemma_bound(rest);
        assert(d[0] < 10);
    }
}

/// Digits that are all zero stand for zero.
proof fn lemma_zeros(d: Seq<u8>)
    requires
        forall|i: int| 0 <= i < d.len() ==> #[trigger] d[i] == 0,
    ensures
        value(d) == 0,
    decreases d.len(),
{
    if d.len() > 0 {
        let rest = d.skip(1);
        assert forall|i: int| 0 <= i < rest.len() implies #[trigger] rest[i] == 0 by {
            assert(rest[i] == d[i + 1]);
        }
        lemma_zeros(rest);
        assert(d[0] == 0);
    }
}

/// Digits of which one is not zero do not stand for zero.
proof fn lemma_not_zero(d: Seq<u8>, i: int)
    requires
        0 <= i < d.len(),
        d[i] != 0,
    ensures
        value(d) > 0,
    decreases d.len(),
{
    if i > 0 {
        assert(d.skip(1)[i - 1] == d[i]);
        lemma_not_zero(d.skip(1), i - 1);
    }
}

/// The digits of a number times a small one, with a carry.
fn multiply(d: &Vec<u8>, k: u8, add_in: u8) -> (r: Vec<u8>)
    requires
        are_digits(d@),
        1 <= k <= 9,
        add_in <= 1,
    ensures
        are_digits(r@),
        value(r@) == k * value(d@) + add_in,
        d@.len() <= r@.len() <= d@.len() + 1,
{
    let mut out: Vec<u8> = Vec::new();
    let mut carry: u8 = add_in;
    let mut i: usize = 0;
    assert(1 * add_in == add_in && k * 0 == 0);
    while i < d.len()
        invariant
            i <= d@.len(),
            out@.len() == i,
            1 <= k <= 9,
            carry <= 9,
            are_digits(d@),
            are_digits(out@),
            value(out@) + ten_to(i as nat) * carry == k * value(d@.take(i as int)) + add_in,
        decreases d@.len() - i,
    {
        assert(d@[i as int] < 10);
        assert(d@[i as int] as int * k as int <= 81) by (nonlinear_arith)
            requires
                d@[i as int] < 10,
                k <= 9,
        ;
        let t: u8 = d[i] * k + carry;
        proof {
            let (x, p) = (d@[i as int], ten_to(i as nat));
            lemma_push(out@, t % 10);
            lemma_push(d@.take(i as int), x);
            assert(d@.take(i as int).push(x) =~= d@.take(i + 1));
            assert(k * (value(d@.take(i as int)) + p * x) == k * value(d@.take(i as int)) + p * (x * k)) by (nonlinear_arith);
            assert(p * (x * k) + p * carry == p * (t % 10) + (10 * p) * (t / 10)) by (nonlinear_arith)
                requires
                    x * k + carry == t,
                    t == 10 * (t / 10) + t % 10,
            ;
        }
        out.push(t % 10);
        carry = t / 10;
        i = i + 1;
    }
    assert(d@.take(i as int) =~= d@);
    if carry > 0 {
        proof {
            lemma_push(out@, carry);
        }
        out.push(carry);
    }
    out
}

/// The digits of a number.
fn digits_of(n: u64) -> (r: Vec<u8>)
    ensures
        are_digits(r@),
        value(r@) == n,
        r@.len() <= 20,
{
    let mut out: Vec<u8> = Vec::new();
    let mut rest: u64 = n;
    assert(1 * n == n);
    while rest > 0
        invariant
            are_digits(out@),
            value(out@) + ten_to(out@.len()) * rest == n,
            out@.len() <= 20,
            out@.len() == 20 ==> rest == 0,
            ten_to(out@.len()) * rest <= n,
        decreases rest,
    {
        let ghost p = ten_to(out@.len());
        proof {
            lemma_push(out@, (rest % 10) as u8);
            assert(p * rest == p * (rest % 10) + (10 * p) * (rest / 10)) by (nonlinear_arith)
                requires
                    rest == 10 * (rest / 10) + rest % 10,
            ;
            assert(out@.len() == 19 ==> ten_to(20) * (rest / 10) <= n) by {
                assert((10 * p) * (rest / 10) <= p * rest) by (nonlinear_arith)
                    requires
                        rest == 10 * (rest / 10) + rest % 10,
                ;
            }
            assert(ten_to(20) == 100_000_000_000_000_000_000nat) by {
                reveal_with_fuel(ten_to, 21);
            }
            if out@.len() == 19 && rest / 10 > 0 {
                assert(ten_to(20) * (rest / 10) >= ten_to(20)) by (nonlinear_arith)
                    requires
                        rest / 10 >= 1,
                ;
            }
        }
        out.push((rest % 10) as u8);
        rest = rest / 10;
    }
    out
}

/// The digits of `m * 2^p`, or of `m * 5^(-p)` for a negative `p`.
fn expand(m: u64, p: i128) -> (r: Vec<u8>)
    requires
        -1100 <= p <= 1100,
    ensures
        are_digits(r@),
        p >= 0 ==> value(r@) == m * power2::pow2(p as nat),
        p < 0 ==> value(r@) == m * five_to((-p) as nat),
        r@.len() <= 2000,
{
    let mut d: Vec<u8> = digits_of(m);
    let n: usize = (if p < 0 { -p } else { p }) as usize;
    let mut i: usize = 0;
    proof {
        power2::lemma2_to64();
        assert(m * 1 == m);
    }
    while i < n
        invariant
            i <= n <= 1100,
            n as int == (if p < 0 { -p } else { p as int }),
            are_digits(d@),
            d@.len() <= 20 + i,
            p >= 0 ==> value(d@) == m * power2::pow2(i as nat),
            p < 0 ==> value(d@) == m * five_to(i as nat),
        decreases n - i,
    {
        proof {
            power2::lemma_pow2_unfold((i + 1) as nat);
            let (a, b) = (power2::pow2(i as nat), five_to(i as nat));
            assert(2 * (m * a) == m * (2 * a)) by (nonlinear_arith);
            assert(5 * (m * b) == m * (5 * b)) by (nonlinear_arith);
        }
        d = multiply(&d, if p < 0 { 5 } else { 2 }, 0);
        i = i + 1;
    }
    d
}

/// The digits from one place up to another.
fn part(d: &Vec<u8>, from: usize, to: usize) -> (r: Vec<u8>)
    requires
        from <= to <= d@.len(),
        are_digits(d@),
    ensures
        r@ == d@.subrange(from as int, to as int),
        are_digits(r@),
{
    let mut out: Vec<u8> = Vec::new();
    let mut i: usize = from;
    while i < to
        invariant
            from <= i <= to <= d@.len(),
            out@ == d@.subrange(from as int, i as int),
        decreases to - i,
    {
        out.push(d[i]);
        assert(d@.subrange(from as int, i + 1) =~= d@.subrange(from as int, i as int).push(d@[i as int]));
        i = i + 1;
    }
    assert forall|k: int| 0 <= k < out@.len() implies #[trigger] out@[k] < 10 by {
        assert(out@[k] == d@[from + k]);
    }
    out
}

/// How digits round at a place: by the digit below it, by whether others are left below that one, and
/// by the lowest digit that stays.
proof fn lemma_round_at(d: Seq<u8>, j: int, exact: bool)
    requires
        are_digits(d),
        1 <= j <= d.len(),
        exact == (forall|k: int| 0 <= k < j - 1 ==> #[trigger] d[k] == 0),
    ensures
        ({
            let high = d.skip(j);
            let odd = high.len() > 0 && high[0] % 2 == 1;
            let up = d[j - 1] > 5 || (d[j - 1] == 5 && (!exact || odd));
            number::rounded(value(d), ten_to(j as nat)) == value(high) + (if up { 1nat } else { 0 })
        }),
{
    let high = d.skip(j);
    let half = d[j - 1];
    let odd = high.len() > 0 && high[0] % 2 == 1;
    lemma_powers(j as nat);
    let (n, t) = (value(d), ten_to(j as nat));
    let (lower, u) = (d.take(j - 1), ten_to((j - 1) as nat));
    let low = d.take(j);
    lemma_split(d, j);
    assert(low =~= lower.push(half));
    lemma_push(lower, half);
    assert forall|k: int| 0 <= k < lower.len() implies #[trigger] lower[k] < 10 by {
        assert(lower[k] == d[k]);
    }
    assert forall|k: int| 0 <= k < low.len() implies #[trigger] low[k] < 10 by {
        assert(low[k] == d[k]);
    }
    lemma_bound(lower);
    lemma_bound(low);
    assert(n == value(high) * t + value(low)) by (nonlinear_arith)
        requires
            n == value(low) + t * value(high),
    ;
    div_mod::lemma_fundamental_div_mod_converse(n as int, t as int, value(high) as int, value(low) as int);
    let (a, h) = (value(lower) as int, half as int);
    assert(half < 10);
    if exact {
        assert forall|k: int| 0 <= k < lower.len() implies #[trigger] lower[k] == 0 by {
            assert(lower[k] == d[k]);
        }
        lemma_zeros(lower);
    } else {
        let k = choose|k: int| 0 <= k < j - 1 && #[trigger] d[k] != 0;
        assert(lower[k] == d[k]);
        lemma_not_zero(lower, k);
    }
    assert(h < 5 ==> 2 * (a + u * h) < 10 * u) by (nonlinear_arith)
        requires
            0 <= a < u,
            h >= 0,
    ;
    assert(h > 5 ==> 2 * (a + u * h) > 10 * u) by (nonlinear_arith)
        requires
            0 <= a < u,
            h >= 0,
    ;
    assert(h == 5 ==> 2 * (a + u * h) == 2 * a + 10 * u) by (nonlinear_arith);
    if high.len() > 0 {
        assert(value(high) == high[0] as nat + 10 * value(high.skip(1)));
    }
    assert(odd == (value(high) % 2 == 1));
}

/// The digits of the whole number nearest to a number over a power of ten.
fn round_at(d: &Vec<u8>, j: usize) -> (r: Vec<u8>)
    requires
        are_digits(d@),
    ensures
        are_digits(r@),
        value(r@) == number::rounded(value(d@), ten_to(j as nat)),
        r@.len() <= d@.len() + 1,
        j <= d@.len() ==> r@.len() <= d@.len() - j + 1,
{
    proof {
        lemma_powers(j as nat);
    }
    if j > d.len() {
        proof {
            lemma_bound(d@);
            lemma_powers(d@.len());
            lemma_powers((j - d@.len()) as nat);
            lemma_ten_sum((j - d@.len()) as nat, d@.len());
            let (n, t, a) = (value(d@), ten_to(j as nat), ten_to(d@.len()));
            let b = ten_to((j - d@.len()) as nat);
            assert(b >= 10) by {
                lemma_powers((j - d@.len() - 1) as nat);
            }
            assert(2 * n < t) by (nonlinear_arith)
                requires
                    n < a,
                    t == b * a,
                    b >= 10,
            ;
            div_mod::lemma_fundamental_div_mod_converse(n as int, t as int, 0, n as int);
        }
        return Vec::new();
    }
    let high: Vec<u8> = part(d, j, d.len());
    assert(high@ =~= d@.skip(j as int));
    if j == 0 {
        assert(d@.skip(0) =~= d@);
        proof {
            lemma_rounded_one(value(d@));
        }
        return high;
    }
    let half: u8 = d[j - 1];
    let mut exact: bool = true;
    let mut i: usize = 0;
    while i < j - 1
        invariant
            1 <= j <= d@.len(),
            i <= j - 1,
            exact == (forall|k: int| 0 <= k < i ==> #[trigger] d@[k] == 0),
        decreases j - i,
    {
        if d[i] != 0 {
            exact = false;
        }
        i = i + 1;
    }
    let odd: bool = high.len() > 0 && high[0] % 2 == 1;
    let up: bool = half > 5 || (half == 5 && (!exact || odd));
    proof {
        assert(odd == (high@.len() > 0 && high@[0] % 2 == 1));
        lemma_round_at(d@, j as int, exact);
    }
    if up {
        multiply(&high, 1, 1)
    } else {
        high
    }
}

// ---- texts -----------------------------------------------------------------------------------

/// A number in decimal with a given number of digits, leading zeros included.
pub open spec fn padded(n: nat, k: nat) -> Seq<char>
    decreases k,
{
    if k == 0 {
        Seq::empty()
    } else {
        padded(n / 10, (k - 1) as nat).push(text::digit_char(n % 10))
    }
}

/// A number of units of which `10^k` are one, in decimal.
pub open spec fn point_text(n: nat, k: nat) -> Seq<char> {
    if k == 0 {
        text::dec(n)
    } else {
        text::dec(n / ten_to(k)) + "."@ + padded(n % ten_to(k), k)
    }
}

/// A double in decimal, with `k` digits after the point.
pub open spec fn fixed_text(bits: u64, k: nat) -> Seq<char> {
    let size = number::magnitude(bits) as u64;
    if size > INFINITY {
        "NaN"@
    } else {
        (if bits >= SIGN_UNIT { "-"@ } else { ""@ }) + (if size == INFINITY {
            "inf"@
        } else {
            point_text(number::rounded(number::numerator(size) * ten_to(k), number::denominator(size)), k)
        })
    }
}

/// A positive double of one or more in scientific notation, with one digit after the point.
pub open spec fn scientific_text(bits: u64) -> Seq<char> {
    if bits >= INFINITY {
        "inf"@
    } else {
        let (num, den) = (number::numerator(bits), number::denominator(bits));
        let e = (text::dec(num / den).len() - 1) as nat;
        let t = number::rounded(num * 10, den * ten_to(e));
        // Rounding may carry into one digit more.
        if t >= 100 {
            "1.0e"@ + text::dec(e + 1)
        } else {
            text::dec(t / 10) + "."@ + text::dec(t % 10) + "e"@ + text::dec(e)
        }
    }
}

/// A number that has a last digit and others before it.
proof fn lemma_dec_step(d: Seq<u8>)
    requires
        d.len() > 0,
        d[0] < 10,
    ensures
        value(d) / 10 == value(d.skip(1)),
        value(d) % 10 == d[0] as nat,
{
    div_mod::lemma_fundamental_div_mod_converse(value(d) as int, 10, value(d.skip(1)) as int, d[0] as int);
}

/// The length of a number in decimal.
proof fn lemma_dec_len(d: Seq<u8>)
    requires
        are_digits(d),
        d.len() > 0,
        d.last() != 0,
    ensures
        text::dec(value(d)).len() == d.len(),
        value(d) > 0,
    decreases d.len(),
{
    lemma_not_zero(d, d.len() - 1);
    assert(d[0] < 10);
    lemma_dec_step(d);
    let rest = d.skip(1);
    if d.len() == 1 {
        assert(value(rest) == 0);
    } else {
        assert forall|i: int| 0 <= i < rest.len() implies #[trigger] rest[i] < 10 by {
            assert(rest[i] == d[i + 1]);
        }
        assert(rest.last() == d.last());
        lemma_dec_len(rest);
    }
}

/// How many digits are left without the zeros at the top.
fn used(d: &Vec<u8>) -> (r: usize)
    requires
        are_digits(d@),
    ensures
        r <= d@.len(),
        r > 0 ==> d@[r - 1] != 0,
        value(d@) == value(d@.take(r as int)),
        r == 0 <==> value(d@) == 0,
{
    let mut n: usize = d.len();
    while n > 0 && d[n - 1] == 0
        invariant
            n <= d@.len(),
            forall|k: int| n <= k < d@.len() ==> #[trigger] d@[k] == 0,
        decreases n,
    {
        n = n - 1;
    }
    proof {
        lemma_split(d@, n as int);
        let top = d@.skip(n as int);
        assert forall|k: int| 0 <= k < top.len() implies #[trigger] top[k] == 0 by {
            assert(top[k] == d@[n + k]);
        }
        lemma_zeros(top);
        assert(ten_to(n as nat) * 0 == 0);
        if n > 0 {
            lemma_not_zero(d@, n - 1);
        }
    }
    n
}

/// Appends the number that digits stand for, in decimal.
fn push_digits(out: &mut String, d: &Vec<u8>)
    requires
        are_digits(d@),
    ensures
        final(out)@ == old(out)@ + text::dec(value(d@)),
{
    let n: usize = used(d);
    let ghost start = out@;
    if n == 0 {
        push_digit(out, 0);
        assert(text::dec(0) =~= seq![text::digit_char(0)]);
        assert(out@ =~= start + text::dec(value(d@)));
        return;
    }
    let ghost e = d@.take(n as int);
    let mut i: usize = n;
    while i > 0
        invariant
            i <= n <= d@.len(),
            n > 0,
            d@[n - 1] != 0,
            are_digits(d@),
            e == d@.take(n as int),
            i == n ==> out@ == start,
            i < n ==> out@ == start + text::dec(value(e.skip(i as int))) && value(e.skip(i as int)) > 0,
        decreases i,
    {
        push_digit(out, d[i - 1]);
        proof {
            let s = e.skip(i - 1);
            assert(d@[i - 1] < 10);
            assert(s[0] == d@[i - 1]);
            assert(s.skip(1) =~= e.skip(i as int));
            lemma_dec_step(s);
            if i == n {
                assert(e.skip(i as int) =~= Seq::<u8>::empty());
                assert(text::dec(value(s)) =~= seq![text::digit_char(s[0] as nat)]);
            }
            assert(out@ =~= start + text::dec(value(s)));
        }
        i = i - 1;
    }
    assert(e.skip(0) =~= e);
}

/// A number of units of which `10^k` are one, in decimal.
fn push_point(out: &mut String, n: Vec<u8>, k: usize)
    requires
        are_digits(n@),
        n@.len() < 0x1000_0000,
        k < 0x1000_0000,
    ensures
        final(out)@ == old(out)@ + point_text(value(n@), k as nat),
{
    let ghost start = out@;
    if k == 0 {
        push_digits(out, &n);
        return;
    }
    let mut d: Vec<u8> = n;
    while d.len() < k
        invariant
            are_digits(d@),
            value(d@) == value(n@),
        decreases k - d@.len(),
    {
        proof {
            lemma_push(d@, 0);
            assert(ten_to(d@.len()) * 0 == 0);
        }
        d.push(0);
    }
    let whole: Vec<u8> = part(&d, k, d.len());
    assert(whole@ =~= d@.skip(k as int));
    push_digits(out, &whole);
    proof {
        reveal_strlit(".");
    }
    out.push('.');
    let ghost head = out@;
    let ghost low = d@.take(k as int);
    assert(head =~= start + text::dec(value(whole@)) + "."@);
    let mut i: usize = k;
    assert(low.skip(k as int) =~= Seq::<u8>::empty());
    assert(head + padded(0, 0) =~= head);
    while i > 0
        invariant
            i <= k <= d@.len(),
            are_digits(d@),
            low == d@.take(k as int),
            out@ == head + padded(value(low.skip(i as int)), (k - i) as nat),
        decreases i,
    {
        push_digit(out, d[i - 1]);
        proof {
            let s = low.skip(i - 1);
            assert(d@[i - 1] < 10);
            assert(s[0] == d@[i - 1]);
            assert(s.skip(1) =~= low.skip(i as int));
            lemma_dec_step(s);
            assert(out@ =~= head + padded(value(s), (k - (i - 1)) as nat));
        }
        i = i - 1;
    }
    proof {
        assert(low.skip(0) =~= low);
        lemma_split(d@, k as int);
        lemma_powers(k as nat);
        assert forall|j: int| 0 <= j < low.len() implies #[trigger] low[j] < 10 by {
            assert(low[j] == d@[j]);
        }
        lemma_bound(low);
        let (a, b, t) = (value(low), value(whole@), ten_to(k as nat));
        assert(value(d@) == b * t + a) by (nonlinear_arith)
            requires
                value(d@) == a + t * b,
        ;
        div_mod::lemma_fundamental_div_mod_converse(value(d@) as int, t as int, b as int, a as int);
        assert(out@ =~= start + point_text(value(d@), k as nat));
    }
}

/// A double in decimal, with `k` digits after the point.
pub fn fixed(bits: u64, k: usize) -> (r: String)
    requires
        k <= 20,
    ensures
        r@ == fixed_text(bits, k as nat),
{
    proof {
        reveal_strlit("-");
        reveal_strlit("");
    }
    let negative: bool = bits >= SIGN_UNIT;
    let size: u64 = if negative { bits - SIGN_UNIT } else { bits };
    if size > INFINITY {
        return String::from_str("NaN");
    }
    let mut out: String = String::new();
    if negative {
        out.push('-');
    }
    let ghost head = out@;
    assert(head =~= (if negative { "-"@ } else { ""@ }));
    if size == INFINITY {
        proof {
            reveal_strlit("inf");
        }
        out.push('i');
        out.push('n');
        out.push('f');
        assert(out@ =~= head + "inf"@);
        return out;
    }
    let (m, p): (u64, i128) = split(size);
    let d: Vec<u8> = expand(m, p);
    let s: usize = if p < 0 { (-p) as usize } else { 0 };
    let n: Vec<u8> = if s >= k {
        round_at(&d, s - k)
    } else {
        shift(&d, k - s)
    };
    proof {
        let (num, den, t) = (number::numerator(size), number::denominator(size), ten_to(k as nat));
        lemma_exact(size, m as nat, p as int, value(d@));
        lemma_powers(s as nat);
        lemma_powers(k as nat);
        lemma_powers((if s >= k { s - k } else { k - s }) as nat);
        // The value is that of the digits over a power of ten.
        let (v, u, c) = (value(d@), ten_to(s as nat), five_to(s as nat));
        assert((num * t) * c == v * t) by (nonlinear_arith)
            requires
                num * c == v,
        ;
        lemma_rounded_scale(num * t, den, c);
        assert(number::rounded(num * t, den) == number::rounded(v * t, u));
        if s >= k {
            let w = ten_to((s - k) as nat);
            lemma_ten_sum((s - k) as nat, k as nat);
            lemma_rounded_scale(v, w, t);
        } else {
            let w = ten_to((k - s) as nat);
            lemma_ten_sum((k - s) as nat, s as nat);
            assert(v * t == (v * w) * u) by (nonlinear_arith)
                requires
                    t == w * u,
            ;
            assert(1 * u == u);
            lemma_rounded_scale(v * w, 1, u);
            lemma_rounded_one(v * w);
        }
    }
    push_point(&mut out, n, k);
    out
}

/// The exact value of a double as digits over a power of ten.
proof fn lemma_exact(size: u64, m: nat, p: int, v: nat)
    requires
        size < INFINITY,
        m == number::significand(size),
        p == number::power(size),
        p >= 0 ==> v == m * power2::pow2(p as nat),
        p < 0 ==> v == m * five_to((-p) as nat),
    ensures
        ({
            let s = (if p < 0 { -p } else { 0 }) as nat;
            &&& number::numerator(size) * five_to(s) == v
            &&& number::denominator(size) * five_to(s) == ten_to(s)
            &&& number::denominator(size) > 0
        }),
{
    let s = (if p < 0 { -p } else { 0 }) as nat;
    lemma_powers(s);
    assert(v * 1 == v);
    power2::lemma2_to64();
}

/// The digits of a number times a power of ten.
fn shift(d: &Vec<u8>, k: usize) -> (r: Vec<u8>)
    requires
        are_digits(d@),
        k <= 2000,
        d@.len() <= 2001,
    ensures
        are_digits(r@),
        value(r@) == value(d@) * ten_to(k as nat),
        r@.len() == d@.len() + k,
{
    let mut out: Vec<u8> = Vec::new();
    let mut i: usize = 0;
    while i < k
        invariant
            i <= k,
            out@.len() == i,
            forall|j: int| 0 <= j < out@.len() ==> #[trigger] out@[j] == 0,
        decreases k - i,
    {
        out.push(0);
        i = i + 1;
    }
    let ghost zeros = out@;
    let mut j: usize = 0;
    while j < d.len()
        invariant
            j <= d@.len(),
            out@ == zeros + d@.take(j as int),
        decreases d@.len() - j,
    {
        out.push(d[j]);
        assert(d@.take(j + 1) =~= d@.take(j as int).push(d@[j as int]));
        j = j + 1;
    }
    proof {
        assert(d@.take(j as int) =~= d@);
        lemma_split(out@, k as int);
        assert(out@.take(k as int) =~= zeros);
        assert(out@.skip(k as int) =~= d@);
        lemma_zeros(zeros);
        assert(ten_to(k as nat) * value(d@) == value(d@) * ten_to(k as nat)) by (nonlinear_arith);
        assert forall|x: int| 0 <= x < out@.len() implies #[trigger] out@[x] < 10 by {
            if x >= k {
                assert(out@[x] == d@[x - k]);
            } else {
                assert(out@[x] == zeros[x]);
            }
        }
    }
    out
}

/// Whether digits stand for a hundred or more.
proof fn lemma_hundred(d: Seq<u8>, n: int)
    requires
        are_digits(d),
        0 <= n <= d.len(),
        n > 0 ==> d[n - 1] != 0,
        value(d) == value(d.take(n)),
    ensures
        n >= 3 <==> value(d) >= 100,
        n <= 2 ==> value(d) == (if n > 0 { d[0] as nat } else { 0 }) + 10 * (if n > 1 { d[1] as nat } else { 0 }),
{
    let e = d.take(n);
    assert forall|i: int| 0 <= i < e.len() implies #[trigger] e[i] < 10 by {
        assert(e[i] == d[i]);
    }
    if n >= 3 {
        lemma_split(e, n - 1);
        let top = e.skip(n - 1);
        assert(top[0] == d[n - 1]);
        lemma_not_zero(top, 0);
        lemma_ten_sum(2, (n - 3) as nat);
        lemma_powers((n - 3) as nat);
        reveal_with_fuel(ten_to, 3);
        let (a, b) = (ten_to((n - 1) as nat), value(top));
        assert(a * b >= a) by (nonlinear_arith)
            requires
                b >= 1,
        ;
    } else {
        reveal_with_fuel(value, 3);
        if n > 0 {
            assert(e[0] == d[0]);
        }
        if n > 1 {
            assert(e.skip(1)[0] == d[1]);
            assert(e.skip(1).skip(1) =~= Seq::<u8>::empty());
        }
    }
}

/// A positive double of one or more in scientific notation, with one digit after the point.
pub fn scientific(bits: u64) -> (r: String)
    ensures
        r@ == scientific_text(bits),
{
    if bits >= INFINITY {
        return String::from_str("inf");
    }
    let (m, p): (u64, i128) = split(bits);
    let d: Vec<u8> = expand(m, p);
    let s: usize = if p < 0 { (-p) as usize } else { 0 };
    let floor: Vec<u8> = if s < d.len() {
        part(&d, s, d.len())
    } else {
        Vec::new()
    };
    let n: usize = used(&floor);
    let e: usize = if n > 0 { n - 1 } else { 0 };
    let t: Vec<u8> = if s + e > 0 {
        round_at(&d, s + e - 1)
    } else {
        shift(&d, 1)
    };
    let ghost (num, den) = (number::numerator(bits), number::denominator(bits));
    proof {
        lemma_exact(bits, m as nat, p as int, value(d@));
        lemma_floor(d@, s as int, floor@, num, den);
        if n > 0 {
            let f = floor@.take(n as int);
            assert forall|i: int| 0 <= i < f.len() implies #[trigger] f[i] < 10 by {
                assert(f[i] == floor@[i]);
            }
            lemma_dec_len(f);
        }
        assert(text::dec(num / den).len() == e + 1);
        lemma_two_digits(d@, s as nat, e as nat, num, den);
        assert(value(d@) * ten_to(1) == value(d@) * 10) by {
            reveal_with_fuel(ten_to, 2);
        }
    }
    let k: usize = used(&t);
    proof {
        lemma_hundred(t@, k as int);
    }
    if k >= 3 {
        let mut out: String = String::from_str("1.0e");
        text::push_u128(&mut out, e as u128 + 1);
        return out;
    }
    let mut out: String = String::new();
    push_digit(&mut out, if k > 1 { t[1] } else { 0 });
    proof {
        reveal_strlit(".");
        reveal_strlit("e");
    }
    out.push('.');
    push_digit(&mut out, if k > 0 { t[0] } else { 0 });
    out.push('e');
    text::push_u128(&mut out, e as u128);
    proof {
        let v = value(t@);
        let (a, b) = ((if k > 1 { t@[1] as nat } else { 0 }), (if k > 0 { t@[0] as nat } else { 0 }));
        assert(a < 10 && b < 10);
        assert(v / 10 == a && v % 10 == b);
        assert(out@ =~= text::dec(v / 10) + "."@ + text::dec(v % 10) + "e"@ + text::dec(e as nat));
    }
    out
}

/// The whole part of a value given as digits over a power of ten.
proof fn lemma_floor(d: Seq<u8>, s: int, floor: Seq<u8>, num: nat, den: nat)
    requires
        are_digits(d),
        0 <= s,
        floor == (if s < d.len() { d.skip(s) } else { Seq::empty() }),
        den > 0,
        num * five_to(s as nat) == value(d),
        den * five_to(s as nat) == ten_to(s as nat),
    ensures
        num / den == value(floor),
{
    lemma_powers(s as nat);
    let (t, c) = (ten_to(s as nat), five_to(s as nat));
    let low = if s < d.len() { d.take(s) } else { d };
    assert forall|i: int| 0 <= i < low.len() implies #[trigger] low[i] < 10 by {
        assert(low[i] == d[i]);
    }
    lemma_bound(low);
    if s < d.len() {
        lemma_split(d, s);
    } else {
        lemma_ten_sum((s - d.len()) as nat, d.len());
        lemma_powers((s - d.len()) as nat);
        let (a, b) = (ten_to((s - d.len()) as nat), ten_to(d.len()));
        assert(a * b >= b) by (nonlinear_arith)
            requires
                a >= 1,
        ;
        assert(t * 0 == 0);
    }
    let (a, b) = (value(low), value(floor));
    assert(value(d) == a + t * b);
    assert(value(d) == b * t + a) by (nonlinear_arith)
        requires
            value(d) == a + t * b,
    ;
    div_mod::lemma_fundamental_div_mod_converse(value(d) as int, t as int, b as int, a as int);
    // (num * c) / (den * c)
    let (q, r) = (num / den, num % den);
    div_mod::lemma_fundamental_div_mod(num as int, den as int);
    assert(num * c == q * (den * c) + r * c) by (nonlinear_arith)
        requires
            num == den * q + r,
    ;
    assert(0 <= r * c < den * c) by (nonlinear_arith)
        requires
            0 <= r < den,
            c > 0,
    ;
    div_mod::lemma_fundamental_div_mod_converse((num * c) as int, (den * c) as int, q as int, (r * c) as int);
}

/// The first two digits of a value, from its digits.
proof fn lemma_two_digits(d: Seq<u8>, s: nat, e: nat, num: nat, den: nat)
    requires
        den > 0,
        num * five_to(s) == value(d),
        den * five_to(s) == ten_to(s),
    ensures
        s + e > 0 ==> number::rounded(num * 10, den * ten_to(e)) == number::rounded(value(d), ten_to((s + e - 1) as nat)),
        s + e == 0 ==> number::rounded(num * 10, den * ten_to(e)) == value(d) * 10,
{
    lemma_powers(s);
    lemma_powers(e);
    let (v, c, u) = (value(d), five_to(s), ten_to(e));
    assert((num * 10) * c == v * 10) by (nonlinear_arith)
        requires
            num * c == v,
    ;
    assert((den * u) * c == ten_to(s) * u) by (nonlinear_arith)
        requires
            den * c == ten_to(s),
    ;
    assert(den * u > 0) by (nonlinear_arith)
        requires
            den > 0,
            u > 0,
    ;
    lemma_rounded_scale(num * 10, den * u, c);
    lemma_ten_sum(s, e);
    if s + e > 0 {
        let w = ten_to((s + e - 1) as nat);
        lemma_powers((s + e - 1) as nat);
        assert(ten_to(s + e) == w * 10);
        lemma_rounded_scale(v, w, 10);
    } else {
        assert(ten_to(0) == 1);
        lemma_rounded_one(v * 10);
    }
}

// ---- ranks -----------------------------------------------------------------------------------

/// The bits of a double, from its rank.
pub open spec fn bits_of(x: int) -> u64 {
    if x < 0 { (SIGN_UNIT - x) as u64 } else { x as u64 }
}

/// The double of a rank in decimal, with `k` digits after the point.
pub fn fixed_rank(x: i128, k: usize) -> (r: String)
    requires
        double::is_rank(x as int),
        k <= 20,
    ensures
        r@ == fixed_text(bits_of(x as int), k as nat),
{
    let bits: u64 = if x < 0 { (SIGN_UNIT as i128 - x) as u64 } else { x as u64 };
    fixed(bits, k)
}

// ---- short texts -----------------------------------------------------------------------------

/// A text without a character at its end.
pub open spec fn trimmed(s: Seq<char>, c: char) -> Seq<char>
    decreases s.len(),
{
    if s.len() > 0 && s.last() == c { trimmed(s.drop_last(), c) } else { s }
}

/// A double with at most six digits after the point, without trailing zeros.
pub open spec fn short_text(bits: u64) -> Seq<char> {
    trimmed(trimmed(fixed_text(bits, 6), '0'), '.')
}

/// How many characters are left without one at the end.
fn without(chars: &Vec<char>, n: usize, c: char) -> (r: usize)
    requires
        n <= chars@.len(),
    ensures
        r <= n,
        chars@.take(r as int) == trimmed(chars@.take(n as int), c),
{
    let mut k: usize = n;
    while k > 0 && chars[k - 1] == c
        invariant
            k <= n <= chars@.len(),
            trimmed(chars@.take(n as int), c) == trimmed(chars@.take(k as int), c),
        decreases k,
    {
        assert(chars@.take(k as int).drop_last() =~= chars@.take(k - 1));
        k = k - 1;
    }
    k
}

/// A double with at most six digits after the point, without trailing zeros.
pub fn short(bits: u64) -> (r: String)
    ensures
        r@ == short_text(bits),
{
    let full: String = fixed(bits, 6);
    let chars: Vec<char> = chars_of(full.as_str());
    assert(chars@.take(chars@.len() as int) =~= chars@);
    let a: usize = without(&chars, chars.len(), '0');
    let b: usize = without(&chars, a, '.');
    let mut out: String = String::new();
    let mut i: usize = 0;
    while i < b
        invariant
            i <= b <= chars@.len(),
            out@ == chars@.take(i as int),
        decreases b - i,
    {
        out.push(chars[i]);
        assert(chars@.take(i + 1) =~= chars@.take(i as int).push(chars@[i as int]));
        i = i + 1;
    }
    out
}

// ---- the shortest text -----------------------------------------------------------------------

/// Whether a number is nearer to a double than to any other, given the points half way to its
/// neighbours: on such a point it is where the double's significand is even.
pub open spec fn is_near(x: nat, low: nat, high: nat, even: bool) -> bool {
    if even { low <= x <= high } else { low < x < high }
}

/// Of the two multiples of `10^j` around a number, the one that is near; where both are, the nearer
/// one, and half way the greater one.
pub open spec fn near_multiple(v: nat, low: nat, high: nat, even: bool, j: nat) -> Option<nat> {
    let down = v / ten_to(j) * ten_to(j);
    let up = down + ten_to(j);
    match (is_near(down, low, high, even), is_near(up, low, high, even)) {
        (true, true) => Some(if 2 * (v - down) >= ten_to(j) { up } else { down }),
        (true, false) => Some(down),
        (false, true) => Some(up),
        (false, false) => None,
    }
}

/// The near multiple of the largest power of ten that has one, from `10^j` down.
pub open spec fn roundest(v: nat, low: nat, high: nat, even: bool, j: nat) -> nat
    decreases j,
{
    match near_multiple(v, low, high, even, j) {
        Some(x) => x,
        None => if j == 0 { v } else { roundest(v, low, high, even, (j - 1) as nat) },
    }
}

/// A multiple of a quarter of a double's last place, as a number of units of which `10^s` are one,
/// where `s` is the double's number of decimal places after two more binary ones.
pub open spec fn quarters(k: nat, size: u64) -> nat {
    let q = number::power(size) - 2;
    if q >= 0 { k * power2::pow2(q as nat) } else { k * five_to((-q) as nat) }
}

/// How many decimal places there are after two more binary ones than a double has.
pub open spec fn places(size: u64) -> nat {
    let q = number::power(size) - 2;
    if q >= 0 { 0 } else { (-q) as nat }
}

/// The decimal with the fewest digits that reads back as a double, in units of which `10^places` are
/// one. Below a power of two the next double is half as far away.
pub open spec fn shortest(size: u64) -> nat {
    let m = number::significand(size);
    let v = quarters(4 * m, size);
    let low = if m == 0x10_0000_0000_0000 && size >= 2 * number::EXPONENT_UNIT {
        quarters((4 * m - 1) as nat, size)
    } else {
        quarters((4 * m - 2) as nat, size)
    };
    roundest(v, low, quarters(4 * m + 2, size), m % 2 == 0, (text::dec(v).len() - 1) as nat)
}

/// A number of units of which `10^s` are one, in decimal, without zeros at the end of the places.
pub open spec fn places_text(n: nat, s: nat) -> Seq<char> {
    text::dec(n / ten_to(s)) + (if n % ten_to(s) == 0 {
        Seq::empty()
    } else {
        "."@ + trimmed(padded(n % ten_to(s), s), '0')
    })
}

/// A double in decimal, with the fewest digits that read back as it.
#[verifier::opaque]
pub open spec fn plain_text(bits: u64) -> Seq<char> {
    let size = number::magnitude(bits) as u64;
    if size > INFINITY {
        "NaN"@
    } else {
        (if bits >= SIGN_UNIT { "-"@ } else { ""@ }) + (if size == INFINITY {
            "inf"@
        } else if size == 0 {
            "0"@
        } else {
            places_text(shortest(size), places(size))
        })
    }
}

/// Digits that differ at a place, and agree above it.
proof fn lemma_order(a: Seq<u8>, b: Seq<u8>, i: int)
    requires
        are_digits(a),
        are_digits(b),
        0 <= i < a.len(),
        a.len() == b.len(),
        a.skip(i + 1) == b.skip(i + 1),
        a[i] < b[i],
    ensures
        value(a) < value(b),
{
    lemma_split(a, i);
    lemma_split(b, i);
    let (x, y) = (a.take(i), b.take(i));
    assert forall|k: int| 0 <= k < x.len() implies #[trigger] x[k] < 10 by {
        assert(x[k] == a[k]);
    }
    lemma_bound(x);
    assert(a.skip(i).skip(1) =~= a.skip(i + 1));
    assert(b.skip(i).skip(1) =~= b.skip(i + 1));
    let (p, c, d) = (ten_to(i as nat), value(a.skip(i)), value(b.skip(i)));
    assert(c + 1 <= d);
    assert(p * c + p <= p * d) by (nonlinear_arith)
        requires
            c + 1 <= d,
    ;
}

/// Digits with zeros on top, up to a length.
fn widen(d: &Vec<u8>, n: usize) -> (r: Vec<u8>)
    requires
        are_digits(d@),
        d@.len() <= n,
    ensures
        are_digits(r@),
        r@.len() == n,
        value(r@) == value(d@),
{
    let mut out: Vec<u8> = part(d, 0, d.len());
    assert(out@ =~= d@);
    while out.len() < n
        invariant
            are_digits(out@),
            out@.len() <= n,
            value(out@) == value(d@),
        decreases n - out@.len(),
    {
        proof {
            lemma_push(out@, 0);
            assert(ten_to(out@.len()) * 0 == 0);
        }
        out.push(0);
    }
    out
}

/// How two numbers compare: whether the first one is less, and whether they are equal.
fn compare(a: &Vec<u8>, b: &Vec<u8>) -> (r: (bool, bool))
    requires
        are_digits(a@),
        are_digits(b@),
    ensures
        r.0 == (value(a@) < value(b@)),
        r.1 == (value(a@) == value(b@)),
{
    let n: usize = if a.len() < b.len() { b.len() } else { a.len() };
    let x: Vec<u8> = widen(a, n);
    let y: Vec<u8> = widen(b, n);
    let mut i: usize = n;
    assert(x@.skip(n as int) =~= y@.skip(n as int));
    while i > 0
        invariant
            i <= n,
            x@.len() == n,
            y@.len() == n,
            are_digits(x@),
            are_digits(y@),
            value(x@) == value(a@),
            value(y@) == value(b@),
            x@.skip(i as int) == y@.skip(i as int),
        decreases i,
    {
        if x[i - 1] < y[i - 1] {
            proof {
                lemma_order(x@, y@, i - 1);
            }
            return (true, false);
        }
        if x[i - 1] > y[i - 1] {
            proof {
                lemma_order(y@, x@, i - 1);
            }
            return (false, false);
        }
        assert(x@.skip(i - 1) =~= seq![x@[i - 1]] + x@.skip(i as int));
        assert(y@.skip(i - 1) =~= seq![y@[i - 1]] + y@.skip(i as int));
        i = i - 1;
    }
    assert(x@.skip(0) =~= x@ && y@.skip(0) =~= y@);
    (false, true)
}

/// Whether a number is near.
fn near(x: &Vec<u8>, low: &Vec<u8>, high: &Vec<u8>, even: bool) -> (r: bool)
    requires
        are_digits(x@),
        are_digits(low@),
        are_digits(high@),
    ensures
        r == is_near(value(x@), value(low@), value(high@), even),
{
    let (above, at_low): (bool, bool) = compare(low, x);
    let (below, at_high): (bool, bool) = compare(x, high);
    (above || (even && at_low)) && (below || (even && at_high))
}

/// What is left of a number below `10^j` is at least half of that where its first digit is at least
/// five.
proof fn lemma_half(d: Seq<u8>, j: int)
    requires
        are_digits(d),
        0 <= j <= d.len(),
    ensures
        (2 * (value(d) - value(d) / ten_to(j as nat) * ten_to(j as nat)) >= ten_to(j as nat)) == (j > 0 && d[j - 1] >= 5),
{
    let t = ten_to(j as nat);
    let low = d.take(j);
    lemma_split(d, j);
    lemma_powers(j as nat);
    assert forall|k: int| 0 <= k < low.len() implies #[trigger] low[k] < 10 by {
        assert(low[k] == d[k]);
    }
    lemma_bound(low);
    let (n, a, b) = (value(d), value(low), value(d.skip(j)));
    assert(n == b * t + a) by (nonlinear_arith)
        requires
            n == a + t * b,
    ;
    div_mod::lemma_fundamental_div_mod_converse(n as int, t as int, b as int, a as int);
    if j > 0 {
        let lower = d.take(j - 1);
        let (u, h) = (ten_to((j - 1) as nat), d[j - 1]);
        assert(low =~= lower.push(h));
        lemma_push(lower, h);
        assert forall|k: int| 0 <= k < lower.len() implies #[trigger] lower[k] < 10 by {
            assert(lower[k] == d[k]);
        }
        lemma_bound(lower);
        let c = value(lower);
        assert((2 * (c + u * h) >= 10 * u) == (h >= 5)) by (nonlinear_arith)
            requires
                0 <= c < u,
        ;
    }
}

/// Of the two multiples of `10^j` around a number, the one that is near.
fn find_multiple(v: &Vec<u8>, low: &Vec<u8>, high: &Vec<u8>, even: bool, j: usize) -> (r: Option<Vec<u8>>)
    requires
        are_digits(v@),
        are_digits(low@),
        are_digits(high@),
        j <= v@.len() <= 2000,
    ensures
        match r {
            Some(x) => near_multiple(value(v@), value(low@), value(high@), even, j as nat) == Some(value(x@)) && are_digits(
                x@,
            ) && x@.len() <= v@.len() + 1,
            None => near_multiple(value(v@), value(low@), value(high@), even, j as nat) is None,
        },
{
    let top: Vec<u8> = part(v, j, v.len());
    proof {
        assert(top@ =~= v@.skip(j as int));
        lemma_split(v@, j as int);
        lemma_powers(j as nat);
        let below = v@.take(j as int);
        assert forall|k: int| 0 <= k < below.len() implies #[trigger] below[k] < 10 by {
            assert(below[k] == v@[k]);
        }
        lemma_bound(below);
        let (n, t, a, b) = (value(v@), ten_to(j as nat), value(below), value(top@));
        assert(n == b * t + a) by (nonlinear_arith)
            requires
                n == a + t * b,
        ;
        div_mod::lemma_fundamental_div_mod_converse(n as int, t as int, b as int, a as int);
        assert((b + 1) * t == b * t + t) by (nonlinear_arith);
    }
    let down: Vec<u8> = shift(&top, j);
    let next: Vec<u8> = multiply(&top, 1, 1);
    let up: Vec<u8> = shift(&next, j);
    let (a, b): (bool, bool) = (near(&down, low, high, even), near(&up, low, high, even));
    if a && b {
        proof {
            lemma_half(v@, j as int);
        }
        if j > 0 && v[j - 1] >= 5 {
            Some(up)
        } else {
            Some(down)
        }
    } else if a {
        Some(down)
    } else if b {
        Some(up)
    } else {
        None
    }
}

/// The near multiple of the largest power of ten that has one.
fn find_roundest(v: &Vec<u8>, low: &Vec<u8>, high: &Vec<u8>, even: bool, j: usize) -> (r: Vec<u8>)
    requires
        are_digits(v@),
        are_digits(low@),
        are_digits(high@),
        j <= v@.len() <= 2000,
    ensures
        are_digits(r@),
        value(r@) == roundest(value(v@), value(low@), value(high@), even, j as nat),
        r@.len() <= v@.len() + 1,
{
    let mut k: usize = j;
    loop
        invariant
            are_digits(v@),
            are_digits(low@),
            are_digits(high@),
            k <= j <= v@.len() <= 2000,
            roundest(value(v@), value(low@), value(high@), even, j as nat) == roundest(
                value(v@),
                value(low@),
                value(high@),
                even,
                k as nat,
            ),
        decreases k,
    {
        match find_multiple(v, low, high, even, k) {
            Some(x) => {
                return x;
            },
            None => {},
        }
        if k == 0 {
            let same: Vec<u8> = part(v, 0, v.len());
            assert(same@ =~= v@);
            return same;
        }
        k = k - 1;
    }
}

/// Appends a number of units of which `10^s` are one, without zeros at the end of the places.
fn push_places(out: &mut String, n: &Vec<u8>, s: usize)
    requires
        are_digits(n@),
        n@.len() <= 4000,
        s <= 4000,
    ensures
        final(out)@ == old(out)@ + places_text(value(n@), s as nat),
{
    let ghost start = out@;
    let d: Vec<u8> = widen(n, if n.len() < s { s } else { n.len() });
    let whole: Vec<u8> = part(&d, s, d.len());
    let low: Vec<u8> = part(&d, 0, s);
    proof {
        assert(whole@ =~= d@.skip(s as int));
        assert(low@ =~= d@.take(s as int));
        lemma_split(d@, s as int);
        lemma_powers(s as nat);
        lemma_bound(low@);
        let (a, b, t) = (value(low@), value(whole@), ten_to(s as nat));
        assert(value(d@) == b * t + a) by (nonlinear_arith)
            requires
                value(d@) == a + t * b,
        ;
        div_mod::lemma_fundamental_div_mod_converse(value(d@) as int, t as int, b as int, a as int);
    }
    push_digits(out, &whole);
    let mut k: usize = 0;
    while k < s && low[k] == 0
        invariant
            k <= s,
            low@.len() == s,
            forall|i: int| 0 <= i < k ==> #[trigger] low@[i] == 0,
        decreases s - k,
    {
        k = k + 1;
    }
    if k == s {
        proof {
            lemma_zeros(low@);
            assert(out@ =~= start + places_text(value(n@), s as nat));
        }
        return;
    }
    proof {
        lemma_not_zero(low@, k as int);
        reveal_strlit(".");
    }
    out.push('.');
    let ghost head = out@;
    let mut i: usize = s;
    assert(low@.skip(s as int) =~= Seq::<u8>::empty());
    assert(head + padded(0, 0) =~= head);
    while i > k
        invariant
            k <= i <= s,
            low@.len() == s,
            are_digits(low@),
            out@ == head + padded(value(low@.skip(i as int)), (s - i) as nat),
        decreases i,
    {
        push_digit(out, low[i - 1]);
        proof {
            let e = low@.skip(i - 1);
            assert(low@[i - 1] < 10);
            assert(e[0] == low@[i - 1]);
            assert(e.skip(1) =~= low@.skip(i as int));
            lemma_dec_step(e);
            assert(out@ =~= head + padded(value(e), (s - (i - 1)) as nat));
        }
        i = i - 1;
    }
    proof {
        lemma_trimmed(low@, k as int);
        assert(out@ =~= start + places_text(value(n@), s as nat));
    }
}

/// The zeros at the end of digits after the point.
proof fn lemma_trimmed(low: Seq<u8>, k: int)
    requires
        are_digits(low),
        0 <= k < low.len(),
        low[k] != 0,
        forall|i: int| 0 <= i < k ==> #[trigger] low[i] == 0,
    ensures
        trimmed(padded(value(low), low.len()), '0') == padded(value(low.skip(k)), (low.len() - k) as nat),
    decreases k,
{
    assert(low[0] < 10);
    lemma_dec_step(low);
    let p = padded(value(low), low.len());
    let rest = low.skip(1);
    assert(p == padded(value(rest), rest.len()).push(text::digit_char(low[0] as nat)));
    assert(p.drop_last() =~= padded(value(rest), rest.len()));
    if k == 0 {
        assert(low.skip(0) =~= low);
        assert(text::digit_char(low[0] as nat) != '0');
    } else {
        assert(low[0] == 0);
        assert(text::digit_char(0) == '0');
        assert forall|i: int| 0 <= i < rest.len() implies #[trigger] rest[i] < 10 by {
            assert(rest[i] == low[i + 1]);
        }
        assert forall|i: int| 0 <= i < k - 1 implies #[trigger] rest[i] == 0 by {
            assert(rest[i] == low[i + 1]);
        }
        assert(rest[k - 1] == low[k]);
        lemma_trimmed(rest, k - 1);
        assert(rest.skip(k - 1) =~= low.skip(k));
    }
}

/// Appends the decimal with the fewest digits that reads back as a positive finite double.
fn push_shortest(out: &mut String, size: u64)
    requires
        0 < size < INFINITY,
    ensures
        final(out)@ == old(out)@ + places_text(shortest(size), places(size)),
{
    let (m, p): (u64, i128) = split(size);
    let q: i128 = p - 2;
    let v: Vec<u8> = expand(4 * m, q);
    let edge: bool = m == 0x10_0000_0000_0000 && size >= 2 * number::EXPONENT_UNIT;
    assert(m > 0) by {
        if size >= number::EXPONENT_UNIT {
            assert(m >= number::EXPONENT_UNIT);
        }
    }
    let low: Vec<u8> = expand(if edge { 4 * m - 1 } else { 4 * m - 2 }, q);
    let high: Vec<u8> = expand(4 * m + 2, q);
    let n: usize = used(&v);
    proof {
        lemma_powers(places(size));
        if q >= 0 {
            power2::lemma_pow2_pos(q as nat);
        }
        assert(value(v@) == quarters((4 * m) as nat, size));
        assert(value(high@) == quarters((4 * m + 2) as nat, size));
        let c = if q >= 0 { power2::pow2(q as nat) } else { five_to((-q) as nat) };
        assert((4 * m) * c > 0) by (nonlinear_arith)
            requires
                m > 0,
                c > 0,
        ;
        let f = v@.take(n as int);
        assert forall|i: int| 0 <= i < f.len() implies #[trigger] f[i] < 10 by {
            assert(f[i] == v@[i]);
        }
        lemma_dec_len(f);
    }
    let x: Vec<u8> = find_roundest(&v, &low, &high, m % 2 == 0, n - 1);
    let s: usize = if q >= 0 { 0 } else { (-q) as usize };
    push_places(out, &x, s);
}

/// A double in decimal, with the fewest digits that read back as it.
pub fn plain(bits: u64) -> (r: String)
    ensures
        r@ == plain_text(bits),
{
    proof {
        reveal(plain_text);
    }
    proof {
        reveal_strlit("-");
        reveal_strlit("");
        reveal_strlit("0");
        reveal_strlit("inf");
    }
    let negative: bool = bits >= SIGN_UNIT;
    let size: u64 = if negative { bits - SIGN_UNIT } else { bits };
    if size > INFINITY {
        return String::from_str("NaN");
    }
    let mut out: String = String::new();
    if negative {
        out.push('-');
    }
    let ghost head = out@;
    assert(head =~= (if negative { "-"@ } else { ""@ }));
    if size == INFINITY {
        out.push('i');
        out.push('n');
        out.push('f');
        assert(out@ =~= head + "inf"@);
        return out;
    }
    if size == 0 {
        out.push('0');
        assert(out@ =~= head + "0"@);
        return out;
    }
    push_shortest(&mut out, size);
    out
}

/// The double of a rank in decimal, with the fewest digits that read back as it.
pub fn plain_rank(x: i128) -> (r: String)
    requires
        double::is_rank(x as int),
    ensures
        r@ == plain_text(bits_of(x as int)),
{
    let bits: u64 = if x < 0 { (SIGN_UNIT as i128 - x) as u64 } else { x as u64 };
    plain(bits)
}

} // verus!
