//! Binary floating-point arithmetic with a 53-bit significand, on integers.
//!
//! Brightness, percentages and aspect ratios are computed in double precision.
//! This module says what a double-precision operation yields as a real number
//! ([`nearest`]) and carries the operations out on a significand and an exponent.

use vstd::arithmetic::power2::{
    lemma2_to64, lemma2_to64_rest, lemma_pow2_adds, lemma_pow2_pos, lemma_pow2_strictly_increases,
    lemma_pow2_unfold, pow2,
};
use vstd::prelude::*;

verus! {

/// Two to the power `e`, for any integer `e`.
pub open spec fn exp2(e: int) -> real
    decreases (if e < 0 { -e } else { e }),
{
    if e == 0 {
        1real
    } else if e > 0 {
        2real * exp2(e - 1)
    } else {
        exp2(e + 1) / 2real
    }
}

/// `x` lies in the binade of `e`: its leading binary digit has weight `exp2(e)`.
pub open spec fn in_binade(x: real, e: int) -> bool {
    exp2(e) <= x < exp2(e + 1)
}

/// The exponent of the leading binary digit of a positive `x`.
pub open spec fn binade(x: real) -> int {
    choose|e: int| in_binade(x, e)
}

/// The integer nearest to `x`, the even one of two that are equally near.
pub open spec fn half_even(x: real) -> int {
    let n = x.floor();
    let rest = x - n as real;
    if rest < 1real / 2real || (rest == 1real / 2real && n % 2 == 0) {
        n
    } else {
        n + 1
    }
}

/// The integer nearest to a non-negative `x`, the larger one of two that are equally near.
pub open spec fn half_up(x: real) -> int {
    (x + 1real / 2real).floor()
}

/// The number with a significand of 53 binary digits that is nearest to a non-negative `x`,
/// the one with the even significand of two that are equally near.
///
/// The exponent is not limited: below the range of double precision the two differ by less
/// than any quantity this crate tells apart, above it double precision has only infinity.
pub open spec fn nearest(x: real) -> real {
    if x <= 0real {
        0real
    } else {
        let ulp = exp2(binade(x) - 52);
        half_even(x / ulp) as real * ulp
    }
}

/// A non-negative double-precision number: `significand * 2^exponent`.
#[derive(Clone, Copy, Debug)]
pub struct Binary64 {
    pub significand: u64,
    pub exponent: i32,
}

impl Binary64 {
    /// The real number this stands for.
    pub open spec fn value(self) -> real {
        self.significand as real * exp2(self.exponent as int)
    }

    /// The significand has exactly 53 binary digits, or the number is zero.
    pub open spec fn normal(self) -> bool {
        self.significand == 0 || 0x10_0000_0000_0000 <= self.significand < 0x20_0000_0000_0000
    }
}

/// Powers of two are positive.
pub proof fn lemma_exp2_positive(e: int)
    ensures
        exp2(e) > 0real,
    decreases (if e < 0 { -e } else { e }),
{
    if e > 0 {
        lemma_exp2_positive(e - 1);
    } else if e < 0 {
        lemma_exp2_positive(e + 1);
    }
}

/// The next power of two is twice as large.
pub proof fn lemma_exp2_step(e: int)
    ensures
        exp2(e + 1) == 2real * exp2(e),
{
    if e < 0 {
        assert(exp2(e) == exp2(e + 1) / 2real);
    }
}

/// Exponents add up.
pub proof fn lemma_exp2_adds(a: int, b: int)
    ensures
        exp2(a + b) == exp2(a) * exp2(b),
    decreases (if b < 0 { -b } else { b }),
{
    if b > 0 {
        lemma_exp2_adds(a, b - 1);
        lemma_exp2_step(a + b - 1);
        let x = exp2(a);
        let y = exp2(b - 1);
        assert(2real * (x * y) == x * (2real * y)) by (nonlinear_arith);
    } else if b < 0 {
        lemma_exp2_adds(a, b + 1);
        lemma_exp2_step(a + b);
        let x = exp2(a);
        let y = exp2(b + 1);
        assert(x * y / 2real == x * (y / 2real)) by (nonlinear_arith);
    } else {
        assert(exp2(a) * 1real == exp2(a)) by (nonlinear_arith);
    }
}

/// A larger exponent never gives a smaller power.
pub proof fn lemma_exp2_monotone(a: int, b: int)
    requires
        a <= b,
    ensures
        exp2(a) <= exp2(b),
    decreases b - a,
{
    if a < b {
        lemma_exp2_monotone(a, b - 1);
        lemma_exp2_step(b - 1);
        lemma_exp2_positive(b - 1);
    }
}

/// A number lies in one binade only.
pub proof fn lemma_binade(x: real, e: int)
    requires
        in_binade(x, e),
    ensures
        binade(x) == e,
        x > 0real,
{
    lemma_exp2_positive(e);
    let b = binade(x);
    if b < e {
        lemma_exp2_monotone(b + 1, e);
    } else if e < b {
        lemma_exp2_monotone(e + 1, b);
    }
}

/// Rounding a positive number of the binade of `e + 52` is rounding to a multiple of `exp2(e)`.
pub proof fn lemma_nearest(q: real, e: int)
    requires
        0x10_0000_0000_0000real <= q < 0x20_0000_0000_0000real,
    ensures
        nearest(q * exp2(e)) == half_even(q) as real * exp2(e),
{
    let u = exp2(e);
    lemma_exp2_positive(e);
    assert(exp2(52) == 0x10_0000_0000_0000real) by {
        reveal_with_fuel(exp2, 53);
    }
    lemma_exp2_adds(52, e);
    lemma_exp2_step(52 + e);
    assert(0x10_0000_0000_0000real * u <= q * u < 0x20_0000_0000_0000real * u) by (nonlinear_arith)
        requires
            0x10_0000_0000_0000real <= q < 0x20_0000_0000_0000real,
            u > 0real,
    ;
    lemma_binade(q * u, 52 + e);
    assert((q * u) / u == q) by (nonlinear_arith)
        requires
            u > 0real,
    ;
}

/// The binade of a number that is at least one.
proof fn binade_of_large(x: real) -> (e: int)
    requires
        x >= 1real,
    ensures
        in_binade(x, e),
    decreases x.floor(),
{
    if x < 2real {
        assert(exp2(1) == 2real) by {
            reveal_with_fuel(exp2, 2);
        }
        0
    } else {
        assert((x / 2real).floor() < x.floor());
        let e = binade_of_large(x / 2real);
        lemma_exp2_step(e);
        lemma_exp2_step(e + 1);
        e + 1
    }
}

/// The binade of a positive number below one.
proof fn binade_of_small(x: real) -> (e: int)
    requires
        0real < x < 1real,
    ensures
        in_binade(x, e),
    decreases (1real / x).floor(),
{
    if x >= 1real / 2real {
        lemma_exp2_step(-1);
        -1
    } else {
        assert(1real / (2real * x) == (1real / x) / 2real) by (nonlinear_arith)
            requires
                x > 0real,
        ;
        assert(1real / x > 2real) by (nonlinear_arith)
            requires
                0real < x < 1real / 2real,
        ;
        let e = binade_of_small(2real * x);
        lemma_exp2_step(e - 1);
        lemma_exp2_step(e);
        e - 1
    }
}

/// Every positive number has a binade.
pub proof fn lemma_has_binade(x: real)
    requires
        x > 0real,
    ensures
        in_binade(x, binade(x)),
{
    let e = if x >= 1real {
        binade_of_large(x)
    } else {
        binade_of_small(x)
    };
    assert(in_binade(x, e));
}

/// Rounding to an integer keeps the order.
proof fn lemma_half_even_monotone(x: real, y: real)
    requires
        x <= y,
    ensures
        half_even(x) <= half_even(y),
{
}

/// Rounding does not leave the closed binade.
proof fn lemma_nearest_in_binade(x: real, e: int)
    requires
        in_binade(x, e),
    ensures
        exp2(e) <= nearest(x) <= exp2(e + 1),
        nearest(x) == half_even(x / exp2(e - 52)) as real * exp2(e - 52),
{
    let u = exp2(e - 52);
    let q = x / u;
    lemma_exp2_positive(e - 52);
    assert(exp2(52) == 0x10_0000_0000_0000real) by {
        reveal_with_fuel(exp2, 53);
    }
    lemma_exp2_adds(52, e - 52);
    lemma_exp2_step(e);
    lemma_binade(x, e);
    assert(0x10_0000_0000_0000real <= q < 0x20_0000_0000_0000real) by (nonlinear_arith)
        requires
            0x10_0000_0000_0000real * u <= x < 0x20_0000_0000_0000real * u,
            u > 0real,
            q == x / u,
    ;
    lemma_half_even_monotone(0x10_0000_0000_0000real, q);
    lemma_half_even_monotone(q, 0x20_0000_0000_0000real);
    let h = half_even(q) as real;
    assert(0x10_0000_0000_0000real * u <= h * u <= 0x20_0000_0000_0000real * u) by (nonlinear_arith)
        requires
            0x10_0000_0000_0000real <= h <= 0x20_0000_0000_0000real,
            u > 0real,
    ;
}

/// Rounding changes a number by at most one part in `2^53`.
pub proof fn lemma_nearest_error(x: real)
    requires
        x >= 0real,
    ensures
        x - x / 0x20_0000_0000_0000real <= nearest(x) <= x + x / 0x20_0000_0000_0000real,
{
    if x > 0real {
        lemma_has_binade(x);
        let e = binade(x);
        let u = exp2(e - 52);
        lemma_nearest_in_binade(x, e);
        lemma_exp2_positive(e - 52);
        assert(exp2(52) == 0x10_0000_0000_0000real) by {
            reveal_with_fuel(exp2, 53);
        }
        lemma_exp2_adds(52, e - 52);
        let q = x / u;
        let h = half_even(q) as real;
        assert(q - 1real / 2real <= h <= q + 1real / 2real);
        assert(x == q * u) by (nonlinear_arith)
            requires
                q == x / u,
                u > 0real,
        ;
        assert(x - u / 2real <= h * u <= x + u / 2real) by (nonlinear_arith)
            requires
                x == q * u,
                u > 0real,
                q - 1real / 2real <= h <= q + 1real / 2real,
        ;
    }
}

/// Rounding keeps the order.
pub proof fn lemma_nearest_monotone(x: real, y: real)
    requires
        x <= y,
    ensures
        0real <= nearest(x) <= nearest(y),
{
    if y > 0real {
        lemma_has_binade(y);
        let f = binade(y);
        lemma_nearest_in_binade(y, f);
        lemma_exp2_positive(f);
        if x > 0real {
            lemma_has_binade(x);
            let e = binade(x);
            lemma_nearest_in_binade(x, e);
            lemma_exp2_positive(e);
            if e < f {
                lemma_exp2_monotone(e + 1, f);
            } else if f < e {
                lemma_exp2_monotone(f + 1, e);
            } else {
                let u = exp2(e - 52);
                lemma_exp2_positive(e - 52);
                assert(x / u <= y / u) by (nonlinear_arith)
                    requires
                        x <= y,
                        u > 0real,
                ;
                lemma_half_even_monotone(x / u, y / u);
                let (h, k) = (half_even(x / u) as real, half_even(y / u) as real);
                assert(h * u <= k * u) by (nonlinear_arith)
                    requires
                        h <= k,
                        u > 0real,
                ;
            }
        }
    }
}

/// A number between two powers of two is rounded to one between them.
pub proof fn lemma_nearest_between(x: real, lo: int, hi: int)
    requires
        exp2(lo) <= x <= exp2(hi),
    ensures
        exp2(lo) <= nearest(x) <= exp2(hi),
{
    assert(exp2(52) == 0x10_0000_0000_0000real) by {
        reveal_with_fuel(exp2, 53);
    }
    lemma_exp2_adds(52, lo - 52);
    lemma_exp2_adds(52, hi - 52);
    let q = 0x10_0000_0000_0000real;
    assert(half_even(q) == 0x10_0000_0000_0000);
    lemma_nearest(q, lo - 52);
    lemma_nearest(q, hi - 52);
    assert(nearest(exp2(lo)) == exp2(lo));
    assert(nearest(exp2(hi)) == exp2(hi));
    lemma_nearest_monotone(exp2(lo), x);
    lemma_nearest_monotone(x, exp2(hi));
}

/// The exponent follows from the size of the number.
pub proof fn lemma_exponent(a: Binary64, lo: int, hi: int)
    requires
        a.normal(),
        a.significand > 0,
        exp2(lo) <= a.value() <= exp2(hi),
    ensures
        lo - 52 <= a.exponent <= hi - 52,
{
    let e = a.exponent as int;
    let (s, u) = (a.significand as real, exp2(e));
    lemma_exp2_positive(e);
    assert(exp2(52) == 0x10_0000_0000_0000real) by {
        reveal_with_fuel(exp2, 53);
    }
    lemma_exp2_adds(52, e);
    lemma_exp2_step(52 + e);
    assert(0x10_0000_0000_0000real * u <= s * u < 0x20_0000_0000_0000real * u) by (nonlinear_arith)
        requires
            0x10_0000_0000_0000real <= s < 0x20_0000_0000_0000real,
            u > 0real,
    ;
    if e < lo - 52 {
        lemma_exp2_monotone(e + 53, lo);
    }
    if e > hi - 52 {
        lemma_exp2_monotone(hi + 1, e + 52);
        lemma_exp2_step(hi);
        lemma_exp2_positive(hi);
    }
}

/// Halving the divisor or doubling the dividend is made up for by the exponent.
proof fn lemma_rescale(n: int, d: int, e: int)
    requires
        d > 0,
    ensures
        (2 * n) as real / d as real * exp2(e - 1) == n as real / d as real * exp2(e),
        n as real / (2 * d) as real * exp2(e + 1) == n as real / d as real * exp2(e),
{
    lemma_exp2_step(e - 1);
    lemma_exp2_step(e);
    let (a, b, u, v) = (n as real, d as real, exp2(e - 1), exp2(e));
    assert((2real * a) / b * u == a / b * (2real * u)) by (nonlinear_arith)
        requires
            b > 0real,
    ;
    assert(a / (2real * b) * (2real * v) == a / b * v) by (nonlinear_arith)
        requires
            b > 0real,
    ;
}

/// Rounding a quotient of integers looks at its remainder.
proof fn lemma_half_even(n: int, d: int)
    requires
        n >= 0,
        d > 0,
    ensures
        half_even(n as real / d as real) == (if 2 * (n % d) < d || (2 * (n % d) == d && n / d % 2
            == 0) {
            n / d
        } else {
            n / d + 1
        }),
{
    let q = n / d;
    let r = n % d;
    vstd::arithmetic::div_mod::lemma_fundamental_div_mod(n, d);
    let (a, b, c, f) = (n as real, d as real, q as real, r as real);
    assert(a == b * c + f) by {
        assert((d * q) as real == b * c) by (nonlinear_arith)
            requires
                b == d as real,
                c == q as real,
        ;
    }
    assert(a / b == c + f / b) by (nonlinear_arith)
        requires
            a == b * c + f,
            b > 0real,
    ;
    assert(0real <= f / b < 1real) by (nonlinear_arith)
        requires
            0real <= f < b,
    ;
    assert((a / b).floor() == q);
    assert((f / b < 1real / 2real) == (2real * f < b)) by (nonlinear_arith)
        requires
            b > 0real,
    ;
    assert((f / b == 1real / 2real) == (2real * f == b)) by (nonlinear_arith)
        requires
            b > 0real,
    ;
}

/// The double-precision number nearest to `n / d * 2^e`.
pub fn round_quotient(n: u128, d: u128, e: i32) -> (r: Binary64)
    requires
        0 < n < 0x8000_0000_0000_0000_0000_0000_0000_0000,
        0 < d < 0x400_0000_0000_0000_0000,
        -1000 <= e <= 1000,
    ensures
        r.normal(),
        r.significand > 0,
        e - 130 <= r.exponent <= e + 130,
        r.value() == nearest(n as real / d as real * exp2(e as int)),
{
    let ghost x = n as real / d as real * exp2(e as int);
    let mut n: u128 = n;
    let mut d: u128 = d;
    let mut e: i32 = e;
    let ghost n0 = n;
    let ghost e0 = e;
    proof {
        lemma2_to64();
        assert(n0 * 1 == n0 && d * 1 == d);
    }
    while n < d * 0x10_0000_0000_0000
        invariant
            0 < n < 0x8000_0000_0000_0000_0000_0000_0000_0000,
            0 < d < 0x400_0000_0000_0000_0000,
            -1000 <= e0 <= 1000,
            e <= e0,
            0 < n0,
            n == n0 * pow2((e0 - e) as nat),
            x == n as real / d as real * exp2(e as int),
            n < d * 0x20_0000_0000_0000 || e == e0,
        decreases 0x8000_0000_0000_0000_0000_0000_0000_0000 - n,
    {
        proof {
            lemma_rescale(n as int, d as int, e as int);
            lemma_shift_bound(n0 as nat, (e0 - e) as nat);
        }
        n = n * 2;
        e = e - 1;
    }
    let ghost d1 = d;
    let ghost e1 = e;
    proof {
        lemma_shift_bound(n0 as nat, (e0 - e) as nat);
        assert(d1 * 1 == d1);
    }
    while d * 0x20_0000_0000_0000 <= n
        invariant
            0 < n < 0x8000_0000_0000_0000_0000_0000_0000_0000,
            0 < d < 0x800_0000_0000_0000_0000,
            -2000 <= e1 <= 1000,
            e1 <= e,
            0 < d1,
            d == d1 * pow2((e - e1) as nat),
            d * 0x10_0000_0000_0000 <= n,
            x == n as real / d as real * exp2(e as int),
        decreases n - d,
    {
        proof {
            lemma_rescale(n as int, d as int, e as int);
            lemma_shift_bound(d1 as nat, (e - e1) as nat);
        }
        d = d * 2;
        e = e + 1;
    }
    let q = n / d;
    let r = n % d;
    proof {
        lemma_shift_bound(d1 as nat, (e - e1) as nat);
        lemma_half_even(n as int, d as int);
        let (a, b) = (n as real, d as real);
        assert(0x10_0000_0000_0000real <= a / b < 0x20_0000_0000_0000real) by (nonlinear_arith)
            requires
                b * 0x10_0000_0000_0000real <= a < b * 0x20_0000_0000_0000real,
                b > 0real,
        ;
        lemma_nearest(a / b, e as int);
        assert(0x10_0000_0000_0000 <= q < 0x20_0000_0000_0000) by (nonlinear_arith)
            requires
                d > 0,
                q == n / d,
                d * 0x10_0000_0000_0000 <= n < d * 0x20_0000_0000_0000,
        ;
        lemma_exp2_step(e as int);
    }
    let q: u64 = q as u64;
    if 2 * r < d || (2 * r == d && q % 2 == 0) {
        Binary64 { significand: q, exponent: e }
    } else if q + 1 < 0x20_0000_0000_0000 {
        Binary64 { significand: q + 1, exponent: e }
    } else {
        assert(0x20_0000_0000_0000real * exp2(e as int) == 0x10_0000_0000_0000real * exp2(e + 1));
        Binary64 { significand: 0x10_0000_0000_0000, exponent: e + 1 }
    }
}

/// A number below `2^128` has been doubled at most 127 times.
proof fn lemma_shift_bound(n: nat, k: nat)
    requires
        n > 0,
        n * pow2(k) <= u128::MAX,
    ensures
        k < 128,
        n * pow2(k + 1) == 2 * (n * pow2(k)),
{
    lemma_pow2_unfold(k + 1);
    assert(n * (2 * pow2(k)) == 2 * (n * pow2(k))) by (nonlinear_arith);
    if k >= 128 {
        lemma2_to64();
        lemma_pow2_adds(64, 64);
        if k > 128 {
            lemma_pow2_strictly_increases(128, k);
        }
        assert(n * pow2(k) >= pow2(k)) by (nonlinear_arith)
            requires
                n > 0,
        ;
        assert(pow2(128) == 0x1_0000_0000_0000_0000 * 0x1_0000_0000_0000_0000);
    }
}

/// An exponent that is not negative gives an integer power.
pub proof fn lemma_exp2_is_pow2(k: nat)
    ensures
        exp2(k as int) == pow2(k) as real,
        exp2(-(k as int)) * pow2(k) as real == 1real,
    decreases k,
{
    if k == 0 {
        lemma2_to64();
    } else {
        lemma_exp2_is_pow2((k - 1) as nat);
        lemma_pow2_unfold(k);
        lemma_exp2_adds(k as int, -(k as int));
        let (a, b) = (exp2(k as int), exp2(-(k as int)));
        assert(b * a == a * b) by (nonlinear_arith);
    }
}

/// Multiplying by `exp2(e - k)` is dividing by `2^k` before multiplying by `exp2(e)`.
proof fn lemma_unshift(x: real, e: int, k: nat)
    ensures
        (x * pow2(k) as real) * exp2(e - k) == x * exp2(e),
{
    lemma_exp2_is_pow2(k);
    lemma_exp2_adds(e, -(k as int));
    let (p, u, v) = (pow2(k) as real, exp2(e), exp2(-(k as int)));
    assert((x * p) * (u * v) == x * u) by (nonlinear_arith)
        requires
            v * p == 1real,
    ;
}

/// A double-precision number is its own rounding.
pub proof fn lemma_nearest_of_normal(a: Binary64)
    requires
        a.normal(),
    ensures
        nearest(a.value()) == a.value(),
        a.value() >= 0real,
        a.value() == 0real <==> a.significand == 0,
{
    let (s, u) = (a.significand as real, exp2(a.exponent as int));
    lemma_exp2_positive(a.exponent as int);
    assert(s * u >= 0real && (s * u == 0real <==> s == 0real)) by (nonlinear_arith)
        requires
            s >= 0real,
            u > 0real,
    ;
    if a.significand > 0 {
        lemma_nearest(s, a.exponent as int);
        assert(half_even(s) == a.significand);
    }
}

/// Two to the power `k`.
pub fn power_of_two(k: u32) -> (r: u128)
    requires
        k <= 120,
    ensures
        r == pow2(k as nat),
        0 < r <= 0x100_0000_0000_0000_0000_0000_0000_0000,
{
    let mut r: u128 = 1;
    let mut i: u32 = 0;
    proof {
        lemma2_to64();
        lemma2_to64_rest();
        lemma_pow2_adds(56, 64);
        assert(pow2(56) == 0x100_0000_0000_0000);
        assert(pow2(120) == 0x100_0000_0000_0000_0000_0000_0000_0000);
    }
    while i < k
        invariant
            i <= k <= 120,
            r == pow2(i as nat),
            pow2(120) == 0x100_0000_0000_0000_0000_0000_0000_0000,
            r <= pow2(120),
        decreases k - i,
    {
        proof {
            lemma_pow2_unfold((i + 1) as nat);
            if i + 1 < 120 {
                lemma_pow2_strictly_increases((i + 1) as nat, 120);
            }
        }
        r = r * 2;
        i = i + 1;
    }
    proof {
        lemma_pow2_pos(k as nat);
    }
    r
}

impl Binary64 {
    /// The zero.
    pub fn zero() -> (r: Binary64)
        ensures
            r.normal(),
            r.value() == 0real,
            r.exponent == 0,
    {
        assert(0real * exp2(0) == 0real) by (nonlinear_arith);
        Binary64 { significand: 0, exponent: 0 }
    }

    /// The double-precision product with an integer.
    pub fn times(self, k: u32) -> (r: Binary64)
        requires
            self.normal(),
            -800 <= self.exponent <= 800,
        ensures
            r.normal(),
            r.value() == nearest(self.value() * k as real),
            self.exponent - 130 <= r.exponent <= self.exponent + 130 || r.exponent == 0,
    {
        let ghost (s, u) = (self.significand as real, exp2(self.exponent as int));
        if self.significand == 0 || k == 0 {
            assert((s * u) * k as real == 0real) by (nonlinear_arith)
                requires
                    s == 0real || k == 0,
            ;
            return Self::zero();
        }
        assert(0 < self.significand * k < 0x8000_0000_0000_0000_0000_0000_0000_0000)
            by (nonlinear_arith)
            requires
                0 < self.significand < 0x20_0000_0000_0000,
                0 < k <= 0xffff_ffff,
        ;
        let n: u128 = self.significand as u128 * k as u128;
        proof {
            let c = k as real;
            assert(n as real == s * c) by (nonlinear_arith)
                requires
                    n == self.significand * k,
                    s == self.significand as real,
                    c == k as real,
            ;
            assert((s * c) / 1real * u == (s * u) * c) by (nonlinear_arith);
        }
        round_quotient(n, 1, self.exponent)
    }

    /// The double-precision quotient by an integer.
    pub fn over(self, k: u32) -> (r: Binary64)
        requires
            self.normal(),
            k > 0,
            -800 <= self.exponent <= 800,
        ensures
            r.normal(),
            r.value() == nearest(self.value() / k as real),
            self.exponent - 130 <= r.exponent <= self.exponent + 130 || r.exponent == 0,
    {
        let ghost (s, u, c) = (self.significand as real, exp2(self.exponent as int), k as real);
        if self.significand == 0 {
            assert((s * u) / c == 0real) by (nonlinear_arith)
                requires
                    s == 0real,
                    c > 0real,
            ;
            return Self::zero();
        }
        assert(s / c * u == (s * u) / c) by (nonlinear_arith)
            requires
                c > 0real,
        ;
        round_quotient(self.significand as u128, k as u128, self.exponent)
    }

    /// The number in units of `2^-64`.
    fn fixed_point(self) -> (r: u128)
        requires
            self.normal(),
            -60 <= self.exponent <= 0,
        ensures
            r < 0x20_0000_0000_0000_0000_0000_0000_0000,
            self.significand > 0 ==> r > 0,
            r as real * exp2(-64) == self.value(),
    {
        let k: u32 = (self.exponent + 64) as u32;
        let p = power_of_two(k);
        proof {
            lemma2_to64();
            if k < 64 {
                lemma_pow2_strictly_increases(k as nat, 64);
            }
            assert(0 <= self.significand * p < 0x20_0000_0000_0000_0000_0000_0000_0000)
                by (nonlinear_arith)
                requires
                    0 <= self.significand < 0x20_0000_0000_0000,
                    0 < p <= 0x1_0000_0000_0000_0000,
            ;
            assert(self.significand > 0 ==> self.significand * p > 0) by (nonlinear_arith)
                requires
                    p > 0,
            ;
            let (s, q) = (self.significand as real, pow2(k as nat) as real);
            assert((self.significand * p) as real == s * q) by (nonlinear_arith)
                requires
                    s == self.significand as real,
                    q == p as real,
            ;
            lemma_unshift(s, self.exponent as int, k as nat);
        }
        self.significand as u128 * p
    }

    /// The double-precision sum.
    pub fn plus(self, other: Binary64) -> (r: Binary64)
        requires
            self.normal(),
            other.normal(),
            -60 <= self.exponent <= 0,
            -60 <= other.exponent <= 0,
        ensures
            r.normal(),
            r.value() == nearest(self.value() + other.value()),
    {
        let (a, b) = (self.fixed_point(), other.fixed_point());
        proof {
            lemma_nearest_of_normal(self);
            lemma_nearest_of_normal(other);
            let (x, y, u) = (a as real, b as real, exp2(-64));
            assert((x + y) / 1real * u == x * u + y * u) by (nonlinear_arith);
        }
        if self.significand == 0 {
            other
        } else if other.significand == 0 {
            self
        } else {
            round_quotient(a + b, 1, -64)
        }
    }

    /// Whether the number is at most `k`.
    pub fn at_most(self, k: u32) -> (r: bool)
        requires
            self.normal(),
            -60 <= self.exponent <= 0,
        ensures
            r == (self.value() <= k as real),
    {
        let a = self.fixed_point();
        let b: u128 = k as u128 * 0x1_0000_0000_0000_0000;
        proof {
            lemma_exp2_is_pow2(64);
            lemma2_to64();
            let (x, c, u) = (a as real, k as real, exp2(-64));
            assert((x * u <= c) == (x <= c * 0x1_0000_0000_0000_0000real)) by (nonlinear_arith)
                requires
                    u * 0x1_0000_0000_0000_0000real == 1real,
            ;
        }
        a <= b
    }

    /// The double-precision difference to a smaller integer.
    pub fn minus(self, k: u32) -> (r: Binary64)
        requires
            self.normal(),
            -60 <= self.exponent <= 0,
            self.value() > k as real,
        ensures
            r.normal(),
            -194 <= r.exponent <= 66,
            r.value() == nearest(self.value() - k as real),
    {
        let a = self.fixed_point();
        let b: u128 = k as u128 * 0x1_0000_0000_0000_0000;
        proof {
            lemma_exp2_is_pow2(64);
            lemma2_to64();
            let (x, c, u) = (a as real, k as real, exp2(-64));
            assert(x > c * 0x1_0000_0000_0000_0000real) by (nonlinear_arith)
                requires
                    u * 0x1_0000_0000_0000_0000real == 1real,
                    x * u > c,
            ;
            assert((x - c * 0x1_0000_0000_0000_0000real) / 1real * u == x * u - c)
                by (nonlinear_arith)
                requires
                    u * 0x1_0000_0000_0000_0000real == 1real,
            ;
        }
        round_quotient(a - b, 1, -64)
    }

    /// The nearest `u32`, the larger one of two that are equally near.
    pub fn round(self) -> (r: u32)
        requires
            self.normal(),
            -2000 <= self.exponent <= 2000,
        ensures
            r == (if half_up(self.value()) <= u32::MAX {
                half_up(self.value())
            } else {
                u32::MAX as int
            }),
    {
        let ghost (s, u) = (self.significand as real, exp2(self.exponent as int));
        if self.significand == 0 {
            assert(s * u == 0real) by (nonlinear_arith)
                requires
                    s == 0real,
            ;
            0
        } else if self.exponent >= 0 {
            proof {
                lemma_exp2_monotone(0, self.exponent as int);
                assert(s * u >= s) by (nonlinear_arith)
                    requires
                        s > 0real,
                        u >= 1real,
                ;
            }
            u32::MAX
        } else if self.exponent < -53 {
            proof {
                lemma_exp2_monotone(self.exponent as int, -54);
                lemma_exp2_positive(self.exponent as int);
                lemma_exp2_is_pow2(54);
                lemma2_to64_rest();
                let v = exp2(-54);
                assert(0real <= s * u < 1real / 2real) by (nonlinear_arith)
                    requires
                        0real <= s < 0x20_0000_0000_0000real,
                        0real < u <= v,
                        v * 0x40_0000_0000_0000real == 1real,
                ;
            }
            0
        } else {
            let k: u32 = (-self.exponent) as u32;
            let p = power_of_two(k);
            let h = power_of_two(k - 1);
            let n: u128 = self.significand as u128 + h;
            let r: u128 = n / p;
            proof {
                lemma_pow2_unfold(k as nat);
                lemma_exp2_is_pow2(k as nat);
                vstd::arithmetic::div_mod::lemma_fundamental_div_mod(n as int, p as int);
                let (a, b, c, f) = (n as real, p as real, r as real, (n % p) as real);
                assert((p * r) as real == b * c) by (nonlinear_arith)
                    requires
                        b == p as real,
                        c == r as real,
                ;
                assert(s * u + 1real / 2real == c + f * u) by (nonlinear_arith)
                    requires
                        u * b == 1real,
                        s + b / 2real == b * c + f,
                ;
                assert(0real <= f * u < 1real) by (nonlinear_arith)
                    requires
                        u * b == 1real,
                        0real <= f < b,
                        b > 0real,
                ;
            }
            if r <= 0xffff_ffff {
                r as u32
            } else {
                u32::MAX
            }
        }
    }
}

/// Integers of up to 53 binary digits are represented as they are.
pub proof fn lemma_nearest_integer(n: int)
    requires
        0 <= n < 0x20_0000_0000_0000,
    ensures
        nearest(n as real) == n as real,
{
    if n > 0 {
        let x = n as real;
        lemma_has_binade(x);
        let e = binade(x);
        assert(0 <= e <= 52) by {
            if e < 0 {
                lemma_exp2_monotone(e + 1, 0);
            } else if e > 52 {
                lemma_exp2_monotone(53, e);
                assert(exp2(53) == 0x20_0000_0000_0000real) by {
                    reveal_with_fuel(exp2, 54);
                }
            }
        }
        let (u, k) = (exp2(e - 52), (52 - e) as nat);
        lemma_exp2_is_pow2(k);
        lemma_exp2_positive(e - 52);
        let (p, q) = (pow2(k) as real, x / u);
        assert(q == x * p && q * u == x) by (nonlinear_arith)
            requires
                q == x / u,
                u * p == 1real,
                u > 0real,
        ;
        let m = n * pow2(k);
        assert(q == m as real) by (nonlinear_arith)
            requires
                q == x * p,
                x == n as real,
                p == pow2(k) as real,
                m == n * pow2(k),
        ;
        assert(half_even(q) == m);
        assert(nearest(x) == half_even(q) as real * u);
    }
}

} // verus!
