//! Quotients as text with a fixed number of decimals.
//!
//! A number is shown the way binary floating point shows it: rounded to the
//! significant bits of the format, divided, rounded to those bits again, and
//! then rounded to the decimals, each time to the nearest value and on a tie to
//! the even one. All of it is done in integers.

use vstd::prelude::*;
use crate::number::{decimal, decimal_text, digit, digit_char};

verus! {

/// How many values the significand of single precision takes.
pub const SINGLE: u64 = 0x100_0000;

/// How many values the significand of double precision takes.
pub const DOUBLE: u64 = 0x20_0000_0000_0000;

/// `a / b` to the nearest integer, on a tie to the even one.
pub open spec fn div_even(a: nat, b: nat) -> nat {
    let q = a / b;
    let r = a % b;
    if 2 * r < b {
        q
    } else if 2 * r > b {
        q + 1
    } else {
        q + q % 2
    }
}

/// `n` to the nearest multiple of the least power-of-two multiple of `unit` that is
/// needed to count it below `cap`, which grows with the unit.
pub open spec fn significant(n: nat, unit: nat, cap: nat) -> nat
    decreases
            (if n >= cap {
                n - cap + 1
            } else {
                0
            }),
{
    if n < cap || cap == 0 {
        div_even(n, unit) * unit
    } else {
        significant(n, 2 * unit, 2 * cap)
    }
}

/// `a / b` to the nearest fraction over the least power-of-two multiple of `den`
/// for which the numerator reaches `least / b`.
pub open spec fn quotient(a: nat, b: nat, least: nat, den: nat) -> (nat, nat)
    decreases
            (if least >= a {
                least - a
            } else {
                0
            }),
{
    if a >= least || a == 0 {
        (div_even(a, b), den)
    } else {
        quotient(2 * a, b, least, 2 * den)
    }
}

/// `a / b` to the nearest multiple of the least power-of-two multiple of `unit` for which `a` is
/// below `cap`, which grows with the unit.
pub open spec fn large_quotient(a: nat, b: nat, unit: nat, cap: nat) -> nat
    decreases
            (if a >= cap {
                a - cap + 1
            } else {
                0
            }),
{
    if a < cap || cap == 0 {
        div_even(a, b * unit) * unit
    } else {
        large_quotient(a, b, 2 * unit, 2 * cap)
    }
}

/// `n / b`, computed in a format of `format` significand values, in units of one
/// `scale`-th.
pub open spec fn scaled(n: nat, b: nat, format: nat, scale: nat) -> nat {
    let v = significant(n, 1, format);
    let q = if v >= b * format {
        (large_quotient(v, b, 1, b * format), 1)
    } else {
        quotient(v, b, b * (format / 2), 1)
    };
    div_even(q.0 * scale, q.1)
}

/// `n / b` with one decimal.
pub open spec fn one_decimal(n: nat, b: nat, format: nat) -> Seq<char> {
    let x = scaled(n, b, format, 10);
    decimal(x / 10) + seq!['.', digit_char((x % 10) as int)]
}

/// `n / b` with two decimals.
pub open spec fn two_decimals(n: nat, b: nat, format: nat) -> Seq<char> {
    let x = scaled(n, b, format, 100);
    decimal(x / 100) + seq!['.', digit_char((x / 10 % 10) as int), digit_char((x % 10) as int)]
}

fn round_div(a: u128, b: u128) -> (r: u128)
    requires
        0 < b < 0x8000_0000_0000_0000_0000_0000_0000_0000,
    ensures
        r == div_even(a as nat, b as nat),
        r <= a / b + 1,
{
    let q: u128 = a / b;
    let r: u128 = a % b;
    assert(b == 1 ==> r == 0);
    assert(b > 1 ==> q <= a / 2) by (nonlinear_arith)
        requires
            q == a / b,
            b > 0,
    ;
    if 2 * r < b {
        q
    } else if 2 * r > b {
        q + 1
    } else {
        q + q % 2
    }
}

proof fn lemma_rounded(m: nat, unit: nat)
    requires
        unit == 1 || 1 <= unit <= m,
    ensures
        div_even(m, unit) * unit <= m + unit,
        m > 0 ==> div_even(m, unit) >= 1,
        m > 0 ==> div_even(m, unit) * unit >= 1,
        m == 0 ==> div_even(m, unit) == 0,
{
    let q = m / unit;
    vstd::arithmetic::div_mod::lemma_fundamental_div_mod(m as int, unit as int);
    assert(q * unit <= m && (q + 1) * unit <= m + unit) by (nonlinear_arith)
        requires
            m == unit * q + m % unit,
            m % unit >= 0,
    ;
    if m > 0 {
        assert(q >= 1) by (nonlinear_arith)
            requires
                m == unit * q + m % unit,
                0 <= m % unit < unit,
                unit <= m,
        ;
        let d = div_even(m, unit);
        assert(d * unit >= 1) by (nonlinear_arith)
            requires
                d >= 1,
                unit >= 1,
        ;
    }
}

fn to_significant(n: u64, format: u64) -> (r: u128)
    requires
        format == SINGLE || format == DOUBLE,
    ensures
        r == significant(n as nat, 1, format as nat),
        r <= 2 * n + 1,
        n > 0 ==> r > 0,
        n == 0 ==> r == 0,
{
    let mut unit: u128 = 1;
    let mut cap: u128 = format as u128;
    let m: u128 = n as u128;
    while m >= cap
        invariant
            m == n,
            format == SINGLE || format == DOUBLE,
            cap == unit * format,
            1 <= unit,
            unit == 1 || unit <= m,
            significant(n as nat, 1, format as nat) == significant(m as nat, unit as nat, cap as nat),
        decreases
            (if m >= cap {
                m - cap + 1
            } else {
                0
            }),
    {
        assert(2 * cap == (2 * unit) * format) by (nonlinear_arith)
            requires
                cap == unit * format,
        ;
        assert(unit * 2 <= cap) by (nonlinear_arith)
            requires
                cap == unit * format,
                format >= 2,
                unit >= 1,
        ;
        unit = unit * 2;
        cap = cap * 2;
    }
    let q = round_div(m, unit);
    proof {
        lemma_rounded(m as nat, unit as nat);
    }
    q * unit
}

/// [`large_quotient`] for a number that needs the bits above those of the format.
fn to_large(v: u128, b: u128, format: u128) -> (r: u128)
    requires
        format == SINGLE || format == DOUBLE,
        1000 <= b <= 0x10_0000,
        b * format <= v < 0x4_0000_0000_0000_0000,
    ensures
        r == large_quotient(v as nat, b as nat, 1, (b * format) as nat),
        r <= 2 * (v / b),
{
    assert(b * format <= 0x10_0000 * 0x20_0000_0000_0000 && b * format >= 1000 * format) by (nonlinear_arith)
        requires
            1000 <= b <= 0x10_0000,
            0 < format <= 0x20_0000_0000_0000,
    ;
    let mut unit: u128 = 1;
    let mut cap: u128 = b * format;
    while v >= cap
        invariant
            v < 0x4_0000_0000_0000_0000,
            1000 <= b <= 0x10_0000,
            format == SINGLE || format == DOUBLE,
            cap == unit * (b * format),
            1000 <= b * format <= v,
            1 <= unit,
            unit * b <= v,
            unit <= cap,
            cap <= 2 * v,
            large_quotient(v as nat, b as nat, 1, (b * format) as nat) == large_quotient(
                v as nat,
                b as nat,
                unit as nat,
                cap as nat,
            ),
        decreases
            (if v >= cap {
                v - cap + 1
            } else {
                0
            }),
    {
        assert((2 * unit) * (b * format) == 2 * cap) by (nonlinear_arith)
            requires
                cap == unit * (b * format),
        ;
        assert((2 * unit) * b <= cap) by (nonlinear_arith)
            requires
                cap == unit * (b * format),
                format >= 2,
                unit >= 1,
                b >= 1,
        ;
        unit = unit * 2;
        cap = cap * 2;
    }
    assert(b * unit == unit * b && b * unit >= 1) by (nonlinear_arith)
        requires
            b >= 1,
            unit >= 1,
    ;
    let wide: u128 = b * unit;
    let q = round_div(v, wide);
    proof {
        assert(q * unit <= 2 * (v / b)) by (nonlinear_arith)
            requires
                q <= v / wide + 1,
                wide == b * unit,
                wide <= v,
                b >= 1,
                unit >= 1,
        {
            let t = (v / wide) as int;
            vstd::arithmetic::div_mod::lemma_fundamental_div_mod(v as int, wide as int);
            assert(t * unit * b <= v);
            vstd::arithmetic::div_mod::lemma_div_is_ordered(t * unit * b, v as int, b as int);
            vstd::arithmetic::div_mod::lemma_div_by_multiple(t * unit, b as int);
            assert(t * unit <= v / b);
            assert(unit * b <= v);
            vstd::arithmetic::div_mod::lemma_div_is_ordered(unit * b, v as int, b as int);
            vstd::arithmetic::div_mod::lemma_div_by_multiple(unit as int, b as int);
            assert(unit <= v / b);
        }
    }
    q * unit
}

/// [`scaled`], for the divisors and scales in use.
fn to_scaled(n: u64, b: u64, format: u64, scale: u64) -> (r: u64)
    requires
        format == SINGLE || format == DOUBLE,
        1000 <= b <= 0x10_0000,
        scale == 10 || scale == 100,
    ensures
        r == scaled(n as nat, b as nat, format as nat, scale as nat),
{
    let v = to_significant(n, format);
    let half: u128 = (format / 2) as u128;
    let wide: u128 = b as u128;
    assert(wide * half <= 0x10_0000 * 0x10_0000_0000_0000) by (nonlinear_arith)
        requires
            wide <= 0x10_0000,
            half <= 0x10_0000_0000_0000,
    ;
    let all: u128 = format as u128;
    assert(wide * all <= 0x10_0000 * 0x20_0000_0000_0000) by (nonlinear_arith)
        requires
            wide <= 0x10_0000,
            all <= 0x20_0000_0000_0000,
    ;
    let ten: u128 = scale as u128;
    if v >= wide * all {
        let m = to_large(v, wide, all);
        assert(v / wide <= v / 1000) by (nonlinear_arith)
            requires
                wide >= 1000,
        ;
        assert(m * ten <= m * 100) by (nonlinear_arith)
            requires
                ten <= 100,
        ;
        let x = round_div(m * ten, 1);
        return x as u64;
    }
    let least: u128 = wide * half;
    let mut a: u128 = v;
    let mut den: u128 = 1;
    while a < least && a != 0
        invariant
            a == v || a < 2 * least,
            least == b * half,
            least <= 0x10_0000 * 0x10_0000_0000_0000,
            a == 0 ==> v == 0,
            den <= a || den == 1,
            den >= 1,
            quotient(v as nat, b as nat, least as nat, 1) == quotient(
                a as nat,
                b as nat,
                least as nat,
                den as nat,
            ),
        decreases
            (if least >= a {
                least - a
            } else {
                0
            }),
    {
        a = a * 2;
        den = den * 2;
    }
    let m = round_div(a, wide);
    assert(wide * half <= wide * 0x10_0000_0000_0000) by (nonlinear_arith)
        requires
            half <= 0x10_0000_0000_0000,
    ;
    assert(a / wide < 0x100_0000_0000_0000) by (nonlinear_arith)
        requires
            a < 0x100_0000_0000_0000 * wide,
            wide > 0,
    ;
    assert(m * ten <= m * 100) by (nonlinear_arith)
        requires
            ten <= 100,
    ;
    let top: u128 = m * ten;
    let x = round_div(top, den);
    assert(top / den <= top) by (nonlinear_arith)
        requires
            den >= 1,
    ;
    x as u64
}

/// `n / b` with one decimal, as a format of `format` significand values has it.
pub fn show_one_decimal(n: u64, b: u64, format: u64) -> (r: String)
    requires
        format == SINGLE || format == DOUBLE,
        1000 <= b <= 0x10_0000,
    ensures
        r@ == one_decimal(n as nat, b as nat, format as nat),
{
    let x = to_scaled(n, b, format, 10);
    let mut out = decimal_text(x / 10);
    let ghost whole = out@;
    out.push('.');
    out.push(digit(x % 10));
    assert(out@ =~= whole + seq!['.', digit_char((x % 10) as int)]);
    out
}

/// `n / b` with two decimals, as a format of `format` significand values has it.
pub fn show_two_decimals(n: u64, b: u64, format: u64) -> (r: String)
    requires
        format == SINGLE || format == DOUBLE,
        1000 <= b <= 0x10_0000,
    ensures
        r@ == two_decimals(n as nat, b as nat, format as nat),
{
    let x = to_scaled(n, b, format, 100);
    let mut out = decimal_text(x / 100);
    let ghost whole = out@;
    out.push('.');
    out.push(digit(x / 10 % 10));
    out.push(digit(x % 10));
    assert(out@ =~= whole + seq!['.', digit_char((x / 10 % 10) as int), digit_char((x % 10) as int)]);
    out
}

/// A quotient is rounded to the nearest integer, and on a tie to the even one.
pub proof fn quotients_are_rounded_to_the_nearest(a: nat, b: nat)
    requires
        b > 0,
    ensures
        -b <= 2 * (a - div_even(a, b) * b) <= b,
        2 * (a - div_even(a, b) * b) == b || 2 * (a - div_even(a, b) * b) == -b ==> div_even(a, b) % 2 == 0,
{
    let q = (a / b) as int;
    let r = (a % b) as int;
    let d = div_even(a, b) as int;
    vstd::arithmetic::div_mod::lemma_fundamental_div_mod(a as int, b as int);
    assert(a - d * b == r + (q - d) * b) by (nonlinear_arith)
        requires
            a == b * q + r,
    ;
    if d == q {
        assert((q - d) * b == 0) by (nonlinear_arith)
            requires
                d == q,
        ;
    } else {
        assert(d == q + 1);
        assert((q - d) * b == -b) by (nonlinear_arith)
            requires
                d == q + 1,
        ;
    }
}

proof fn lemma_exact(x: nat, b: nat)
    requires
        b > 0,
    ensures
        div_even(b * x, b) == x,
{
    vstd::arithmetic::div_mod::lemma_div_multiples_vanish(x as int, b as int);
    vstd::arithmetic::div_mod::lemma_mod_multiples_basic(x as int, b as int);
    assert(b * x == x * b) by (nonlinear_arith);
}

proof fn lemma_exact_quotient(a: nat, m: nat, b: nat, least: nat, den: nat)
    requires
        b > 0,
        den > 0,
        a == b * (m * den),
    ensures
        quotient(a, b, least, den).1 > 0,
        quotient(a, b, least, den).0 == m * quotient(a, b, least, den).1,
    decreases
            (if least >= a {
                least - a
            } else {
                0
            }),
{
    if a >= least || a == 0 {
        lemma_exact(m * den, b);
    } else {
        assert(2 * a == b * (m * (2 * den))) by (nonlinear_arith)
            requires
                a == b * (m * den),
        ;
        lemma_exact_quotient(2 * a, m, b, least, 2 * den);
    }
}

/// A quotient that comes out even is shown as it is, with noughts behind the point.
pub proof fn whole_quotients_are_shown_whole(k: nat, b: nat, format: nat)
    requires
        b > 0,
        b * k < format,
    ensures
        one_decimal(b * k, b, format) == decimal(k) + seq!['.', '0'],
        two_decimals(b * k, b, format) == decimal(k) + seq!['.', '0', '0'],
{
    let n = b * k;
    lemma_exact(n, 1);
    assert(1 * n == n);
    assert(significant(n, 1, format) == n);
    assert(n < b * format) by (nonlinear_arith)
        requires
            n < format,
            b > 0,
    ;
    assert(n == b * (k * 1));
    let least = b * (format / 2);
    lemma_exact_quotient(n, k, b, least, 1);
    let q = quotient(n, b, least, 1);
    assert(q.0 * 10 == q.1 * (10 * k)) by (nonlinear_arith)
        requires
            q.0 == k * q.1,
    ;
    assert(q.0 * 100 == q.1 * (100 * k)) by (nonlinear_arith)
        requires
            q.0 == k * q.1,
    ;
    lemma_exact(10 * k, q.1);
    lemma_exact(100 * k, q.1);
    assert(scaled(n, b, format, 10) == 10 * k);
    assert(scaled(n, b, format, 100) == 100 * k);
    assert((10 * k) / 10 == k && (10 * k) % 10 == 0);
    assert((100 * k) / 100 == k && (100 * k) / 10 % 10 == 0 && (100 * k) % 10 == 0);
}

} // verus!
