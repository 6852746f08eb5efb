//! Decimal literals and their value in double precision.
//!
//! The literals are those that Rust reads as a floating-point number: digits with an optional
//! point and an optional exponent, or the words for infinity and for no number at all.

use crate::binary64::{
    exp2, half_even, lemma_exp2_adds, lemma_exp2_monotone, lemma_exp2_step, lemma_nearest, nearest,
    Binary64,
};
use crate::text::{
    all_digits, chars_of, digit, digit_char, is_digit, lemma_number_nonnegative, number,
};
use vstd::arithmetic::power::{lemma_pow_positive, pow};
use vstd::prelude::*;
use vstd::slice::slice_subrange;

verus! {

/// Ten to the power `e`, for any integer `e`.
pub open spec fn exp10(e: int) -> real
    decreases (if e < 0 { -e } else { e }),
{
    if e == 0 {
        1real
    } else if e > 0 {
        10real * exp10(e - 1)
    } else {
        exp10(e + 1) / 10real
    }
}

/// What a literal stands for.
pub enum Literal {
    /// `digits * 10^exponent`, or the same below zero.
    Finite { negative: bool, digits: Seq<char>, exponent: int },
    Infinite { negative: bool },
    NotANumber,
}

/// The length of the run of digits at the start of `s`.
pub open spec fn digit_run(s: Seq<char>) -> int
    decreases s.len(),
{
    if s.len() > 0 && is_digit(s[0]) {
        1 + digit_run(s.skip(1))
    } else {
        0
    }
}

/// Whether `s` begins with a sign, and what follows the sign.
pub open spec fn after_sign(s: Seq<char>) -> (bool, Seq<char>) {
    if s.len() > 0 && (s[0] == '-' || s[0] == '+') {
        (s[0] == '-', s.skip(1))
    } else {
        (false, s)
    }
}

/// The integer that `s` writes out: an optional sign and at least one digit.
pub open spec fn exponent_part(s: Seq<char>) -> Option<int> {
    let (negative, t) = after_sign(s);
    if t.len() == 0 || !all_digits(t) {
        None
    } else if negative {
        Some(-number(t))
    } else {
        Some(number(t))
    }
}

/// The digits of an unsigned literal and the power of ten they are multiplied by.
pub open spec fn unsigned_literal(t: Seq<char>) -> Option<(Seq<char>, int)> {
    let i = digit_run(t);
    let f = if i < t.len() && t[i] == '.' {
        digit_run(t.skip(i + 1))
    } else {
        0
    };
    let end = if i < t.len() && t[i] == '.' {
        i + 1 + f
    } else {
        i
    };
    let digits = t.take(i) + t.subrange(end - f, end);
    if digits.len() == 0 {
        None
    } else if end == t.len() {
        Some((digits, -f))
    } else if t[end] == 'e' || t[end] == 'E' {
        match exponent_part(t.skip(end + 1)) {
            Some(e) => Some((digits, e - f)),
            None => None,
        }
    } else {
        None
    }
}

/// `c` is the lower-case letter `w` or its upper-case form.
pub open spec fn is_letter(c: char, w: char) -> bool {
    c == w || ('A' <= c <= 'Z' && c as u32 + 32 == w as u32)
}

/// `s` is the lower-case `word`, whatever the case of its letters.
pub open spec fn is_word(s: Seq<char>, word: Seq<char>) -> bool {
    s.len() == word.len() && forall|i: int| 0 <= i < s.len() ==> is_letter(#[trigger] s[i], word[i])
}

/// What `s` stands for as a literal.
pub open spec fn literal(s: Seq<char>) -> Option<Literal> {
    let (negative, t) = after_sign(s);
    if is_word(t, "inf"@) || is_word(t, "infinity"@) {
        Some(Literal::Infinite { negative })
    } else if is_word(t, "nan"@) {
        Some(Literal::NotANumber)
    } else {
        match unsigned_literal(t) {
            Some((digits, exponent)) => Some(Literal::Finite { negative, digits, exponent }),
            None => None,
        }
    }
}

/// The number that base-ten digits make up.
pub open spec fn dec(ds: Seq<u8>) -> int
    decreases ds.len(),
{
    if ds.len() == 0 {
        0
    } else {
        dec(ds.drop_last()) * 10 + ds.last()
    }
}

/// Every element is a digit of base ten.
pub open spec fn digits_ok(ds: Seq<u8>) -> bool {
    forall|i: int| 0 <= i < ds.len() ==> #[trigger] ds[i] <= 9
}

/// `ds` are the digits that the characters `s` stand for.
pub open spec fn spells(ds: Seq<u8>, s: Seq<char>) -> bool {
    &&& ds.len() == s.len()
    &&& forall|i: int| 0 <= i < s.len() ==> #[trigger] ds[i] == digit(s[i]) && is_digit(s[i])
}

/// Powers of ten are positive.
proof fn lemma_exp10_positive(e: int)
    ensures
        exp10(e) > 0real,
    decreases (if e < 0 { -e } else { e }),
{
    if e > 0 {
        lemma_exp10_positive(e - 1);
    } else if e < 0 {
        lemma_exp10_positive(e + 1);
    }
}

/// The next power of ten is ten times as large.
proof fn lemma_exp10_step(e: int)
    ensures
        exp10(e + 1) == 10real * exp10(e),
{
    if e < 0 {
        assert(exp10(e) == exp10(e + 1) / 10real);
    }
}

/// A larger exponent never gives a smaller power.
proof fn lemma_exp10_monotone(a: int, b: int)
    requires
        a <= b,
    ensures
        exp10(a) <= exp10(b),
    decreases b - a,
{
    if a < b {
        lemma_exp10_monotone(a, b - 1);
        lemma_exp10_step(b - 1);
        lemma_exp10_positive(b - 1);
    }
}

/// Shifting the power of ten moves a factor into the integer.
proof fn lemma_exp10_shift(e: int, k: nat)
    ensures
        pow(10, k) as real * exp10(e) == exp10(e + k),
    decreases k,
{
    reveal(pow);
    if k > 0 {
        lemma_exp10_shift(e, (k - 1) as nat);
        lemma_exp10_step(e + k - 1);
        let (p, u) = (pow(10, (k - 1) as nat) as real, exp10(e));
        assert(pow(10, k) == 10 * pow(10, (k - 1) as nat));
        assert(pow(10, k) as real == 10real * p);
        assert((10real * p) * u == 10real * (p * u)) by (nonlinear_arith);
    } else {
        assert(1real * exp10(e) == exp10(e));
    }
}

/// Digits in front count by their distance from the end.
proof fn lemma_dec_concat(a: Seq<u8>, b: Seq<u8>)
    ensures
        dec(a + b) == dec(a) * pow(10, b.len()) + dec(b),
    decreases b.len(),
{
    reveal(pow);
    if b.len() == 0 {
        assert(a + b == a);
    } else {
        lemma_dec_concat(a, b.drop_last());
        assert((a + b).drop_last() == a + b.drop_last());
        let (x, p) = (dec(a), pow(10, (b.len() - 1) as nat));
        assert(pow(10, b.len()) == 10 * p);
        assert((x * p) * 10 == x * (10 * p)) by (nonlinear_arith);
    }
}

/// The number of digits bounds a number.
proof fn lemma_dec_bound(a: Seq<u8>)
    requires
        digits_ok(a),
    ensures
        0 <= dec(a) < pow(10, a.len()),
    decreases a.len(),
{
    reveal(pow);
    if a.len() > 0 {
        assert(digits_ok(a.drop_last())) by {
            assert forall|i: int| 0 <= i < a.drop_last().len() implies #[trigger] a.drop_last()[i]
                <= 9 by {
                assert(a[i] <= 9);
            }
        }
        lemma_dec_bound(a.drop_last());
        assert(a.last() <= 9);
    }
}

/// Zeros make up zero.
proof fn lemma_dec_zeros(a: Seq<u8>)
    requires
        forall|i: int| 0 <= i < a.len() ==> #[trigger] a[i] == 0,
    ensures
        dec(a) == 0,
    decreases a.len(),
{
    if a.len() > 0 {
        lemma_dec_zeros(a.drop_last());
    }
}

/// A digit other than zero bounds a number from below.
proof fn lemma_dec_nonzero(a: Seq<u8>, i: int)
    requires
        digits_ok(a),
        0 <= i < a.len(),
        a[i] > 0,
    ensures
        dec(a) >= pow(10, (a.len() - 1 - i) as nat),
        dec(a) > 0,
{
    let (x, y) = (a.take(i + 1), a.skip(i + 1));
    assert(x + y == a);
    lemma_dec_concat(x, y);
    lemma_dec_bound(y);
    assert(digits_ok(x.drop_last())) by {
        assert forall|j: int| 0 <= j < x.drop_last().len() implies #[trigger] x.drop_last()[j]
            <= 9 by {
            assert(a[j] <= 9);
        }
    }
    lemma_dec_bound(x.drop_last());
    assert(dec(x) >= 1);
    lemma_pow_positive(10, y.len());
    let p = pow(10, y.len());
    assert(dec(x) * p >= p) by (nonlinear_arith)
        requires
            dec(x) >= 1,
            p > 0,
    ;
}

/// Digits and the characters they stand for make up the same number.
proof fn lemma_spells(ds: Seq<u8>, s: Seq<char>)
    requires
        spells(ds, s),
    ensures
        number(s) == dec(ds),
        digits_ok(ds),
    decreases s.len(),
{
    if s.len() > 0 {
        assert(spells(ds.drop_last(), s.drop_last())) by {
            assert forall|i: int| 0 <= i < s.drop_last().len() implies #[trigger] ds.drop_last()[i]
                == digit(s.drop_last()[i]) && is_digit(s.drop_last()[i]) by {
                assert(ds[i] == digit(s[i]));
            }
        }
        lemma_spells(ds.drop_last(), s.drop_last());
        assert(ds[s.len() - 1] == digit(s[s.len() - 1]));
    }
}

/// Doubles the fraction `0.ds` and returns the digit that comes out before the point.
fn double(ds: &mut Vec<u8>) -> (carry: u64)
    requires
        digits_ok(old(ds)@),
    ensures
        final(ds)@.len() == old(ds)@.len(),
        digits_ok(final(ds)@),
        carry <= 1,
        carry * pow(10, old(ds)@.len()) + dec(final(ds)@) == 2 * dec(old(ds)@),
{
    let ghost orig = ds@;
    let mut carry: u8 = 0;
    let mut i: usize = ds.len();
    proof {
        reveal(pow);
        assert(orig.skip(i as int) =~= Seq::<u8>::empty());
        assert(ds@.skip(i as int) =~= Seq::<u8>::empty());
    }
    while i > 0
        invariant
            i <= ds.len() == orig.len(),
            digits_ok(orig),
            digits_ok(ds@),
            carry <= 1,
            ds@.take(i as int) == orig.take(i as int),
            carry * pow(10, (orig.len() - i) as nat) + dec(ds@.skip(i as int)) == 2 * dec(
                orig.skip(i as int),
            ),
        decreases i,
    {
        let ghost before = ds@;
        let ghost c0 = carry;
        i = i - 1;
        assert(ds@[i as int] == before.take(i + 1)[i as int]);
        assert(orig[i as int] == orig.take(i + 1)[i as int]);
        assert(orig[i as int] <= 9);
        let v: u8 = 2 * ds[i] + carry;
        ds[i] = v % 10;
        carry = v / 10;
        proof {
            assert(ds@.skip(i as int) == seq![ds@[i as int]] + before.skip(i + 1));
            assert(orig.skip(i as int) == seq![orig[i as int]] + orig.skip(i + 1));
            lemma_dec_concat(seq![ds@[i as int]], before.skip(i + 1));
            lemma_dec_concat(seq![orig[i as int]], orig.skip(i + 1));
            reveal_with_fuel(dec, 2);
            assert(seq![ds@[i as int]].drop_last() =~= Seq::<u8>::empty());
            assert(seq![orig[i as int]].drop_last() =~= Seq::<u8>::empty());
            reveal(pow);
            let k = (orig.len() - i - 1) as nat;
            let (p, c1) = (pow(10, k), carry as int);
            let (d0, d1) = (orig[i as int] as int, ds@[i as int] as int);
            assert(pow(10, (orig.len() - i) as nat) == 10 * p);
            assert(c1 * (10 * p) + d1 * p == 2 * (d0 * p) + c0 * p) by (nonlinear_arith)
                requires
                    c1 * 10 + d1 == 2 * d0 + c0,
            ;
            assert(ds@.take(i as int) == orig.take(i as int)) by {
                assert(before.take(i + 1).take(i as int) == orig.take(i + 1).take(i as int));
                assert(before.take(i + 1).take(i as int) =~= ds@.take(i as int));
                assert(orig.take(i + 1).take(i as int) =~= orig.take(i as int));
            }
        }
    }
    assert(ds@.skip(0) == ds@);
    assert(orig.skip(0) == orig);
    carry as u64
}

/// Whether all digits are zero.
fn all_zero(ds: &Vec<u8>) -> (r: bool)
    requires
        digits_ok(ds@),
    ensures
        r == (dec(ds@) == 0),
{
    let mut i: usize = 0;
    while i < ds.len()
        invariant
            i <= ds.len(),
            digits_ok(ds@),
            forall|j: int| 0 <= j < i ==> #[trigger] ds@[j] == 0,
        decreases ds.len() - i,
    {
        if ds[i] != 0 {
            proof {
                lemma_dec_nonzero(ds@, i as int);
            }
            return false;
        }
        i = i + 1;
    }
    proof {
        lemma_dec_zeros(ds@);
    }
    true
}

/// The real number `whole.fraction`.
pub open spec fn mixed(whole: int, fraction: Seq<u8>) -> real {
    whole as real + dec(fraction) as real / pow(10, fraction.len()) as real
}

/// One doubling of `whole.fraction`.
proof fn lemma_mixed_double(w0: int, f0: Seq<u8>, w1: int, f1: Seq<u8>, carry: int)
    requires
        f0.len() == f1.len(),
        w1 == 2 * w0 + carry,
        carry * pow(10, f0.len()) + dec(f1) == 2 * dec(f0),
    ensures
        mixed(w1, f1) == 2real * mixed(w0, f0),
{
    lemma_pow_positive(10, f0.len());
    let (p, a, b, c) = (
        pow(10, f0.len()) as real,
        dec(f0) as real,
        dec(f1) as real,
        carry as real,
    );
    assert((carry * pow(10, f0.len())) as real == c * p) by (nonlinear_arith)
        requires
            c == carry as real,
            p == pow(10, f0.len()) as real,
    ;
    assert(c + b / p == 2real * (a / p)) by (nonlinear_arith)
        requires
            c * p + b == 2real * a,
            p > 0real,
    ;
}

/// The fraction is below one, and below one half if doubling it carries nothing out.
proof fn lemma_mixed_fraction(w: int, f: Seq<u8>)
    requires
        digits_ok(f),
    ensures
        w as real <= mixed(w, f) < w as real + 1real,
        mixed(w, f).floor() == w,
        (mixed(w, f) == w as real) == (dec(f) == 0),
{
    lemma_dec_bound(f);
    let (p, a) = (pow(10, f.len()) as real, dec(f) as real);
    assert(0real <= a / p < 1real && (a / p == 0real) == (a == 0real)) by (nonlinear_arith)
        requires
            0real <= a < p,
    ;
}

/// The double-precision number nearest to `whole.fraction`.
fn to_binary(whole: u64, fraction: Vec<u8>) -> (r: Binary64)
    requires
        whole < 1000,
        digits_ok(fraction@),
        mixed(whole as int, fraction@) >= 1real / 1000real,
    ensures
        r.normal(),
        -70 <= r.exponent <= 1,
        r.value() == nearest(mixed(whole as int, fraction@)),
{
    let ghost x = mixed(whole as int, fraction@);
    let mut ds = fraction;
    let mut acc: u64 = whole;
    let mut k: i32 = 0;
    proof {
        assert(x * 1real == x);
        assert(exp2(52) == 0x10_0000_0000_0000real) by {
            reveal_with_fuel(exp2, 53);
        }
        assert(exp2(10) == 1024real) by {
            reveal_with_fuel(exp2, 11);
        }
    }
    while acc < 0x10_0000_0000_0000
        invariant
            0 <= k <= 63,
            digits_ok(ds@),
            acc < 0x20_0000_0000_0000,
            mixed(acc as int, ds@) == x * exp2(k as int),
            x >= 1real / 1000real,
            exp2(52) == 0x10_0000_0000_0000real,
            exp2(10) == 1024real,
        decreases 64 - k,
    {
        proof {
            lemma_mixed_fraction(acc as int, ds@);
            if k >= 63 {
                lemma_exp2_monotone(62, k as int);
                lemma_exp2_adds(52, 10);
                let u = exp2(k as int);
                assert(x * u >= 0x10_0000_0000_0000real) by (nonlinear_arith)
                    requires
                        x >= 1real / 1000real,
                        u >= 0x10_0000_0000_0000real * 1024real,
                ;
            }
        }
        let ghost (w0, f0) = (acc as int, ds@);
        let c = double(&mut ds);
        acc = 2 * acc + c;
        k = k + 1;
        proof {
            lemma_mixed_double(w0, f0, acc as int, ds@, c as int);
            lemma_exp2_step(k - 1);
            let (u, v) = (exp2(k - 1), exp2(k as int));
            assert(2real * (x * u) == x * (2real * u)) by (nonlinear_arith);
        }
    }
    let ghost q = mixed(acc as int, ds@);
    let ghost f = ds@;
    let c = double(&mut ds);
    let exact = all_zero(&ds);
    proof {
        lemma_mixed_fraction(acc as int, f);
        lemma_mixed_double(acc as int, f, 2 * acc + c, ds@, c as int);
        lemma_mixed_fraction(2 * acc + c, ds@);
        lemma_nearest(q, -(k as int));
        lemma_exp2_adds(k as int, -(k as int));
        let (u, v) = (exp2(k as int), exp2(-(k as int)));
        assert((x * u) * v == x) by (nonlinear_arith)
            requires
                u * v == 1real,
        ;
        lemma_exp2_step(-(k as int));
        assert(nearest(x) == half_even(q) as real * v);
        assert(0x20_0000_0000_0000real * v == 0x10_0000_0000_0000real * exp2(-(k as int) + 1));
    }
    if c == 0 || (exact && acc % 2 == 0) {
        assert(half_even(q) == acc);
        Binary64 { significand: acc, exponent: -k }
    } else if acc + 1 < 0x20_0000_0000_0000 {
        assert(half_even(q) == acc + 1);
        Binary64 { significand: acc + 1, exponent: -k }
    } else {
        assert(half_even(q) == acc + 1);
        Binary64 { significand: 0x10_0000_0000_0000, exponent: -k + 1 }
    }
}

/// `e`, or a stand-in where `e` is so far out that only its sign matters.
pub open spec fn stands_for(c: int, e: int) -> bool {
    ||| c == e && -100_000_000_000_000_000_000_000_000_000 <= e
        <= 100_000_000_000_000_000_000_000_000_000
    ||| c > 90_000_000_000_000_000_000_000_000_000 && e > 90_000_000_000_000_000_000_000_000_000
    ||| c < -90_000_000_000_000_000_000_000_000_000 && e < -90_000_000_000_000_000_000_000_000_000
}

/// A non-negative number, as closely as a colour channel needs it.
pub enum Size {
    /// Below one thousandth.
    Tiny,
    /// At least one thousand.
    Huge,
    /// Between the two.
    Fits(Binary64),
}

impl Size {
    /// `self` describes `x`.
    pub open spec fn of(self, x: real) -> bool {
        match self {
            Size::Tiny => 0real <= x < 1real / 1000real,
            Size::Huge => x >= 1000real,
            Size::Fits(b) => {
                &&& 1real / 1000real <= x < 1000real
                &&& b.normal()
                &&& -70 <= b.exponent <= 1
                &&& b.value() == nearest(x)
            },
        }
    }
}

/// The digits of `ds` from `z` on, with zeros before and after them.
fn padded(ds: &Vec<u8>, z: usize, before: usize, after: usize) -> (r: Vec<u8>)
    requires
        z <= ds.len(),
        digits_ok(ds@),
        before <= 5,
        after <= 5,
    ensures
        digits_ok(r@),
        r.len() == before + (ds.len() - z) + after,
        dec(r@) == dec(ds@.skip(z as int)) * pow(10, after as nat),
{
    let mut r: Vec<u8> = Vec::new();
    let mut i: usize = 0;
    while i < before
        invariant
            i <= before,
            r.len() == i,
            forall|j: int| 0 <= j < i ==> #[trigger] r@[j] == 0,
        decreases before - i,
    {
        r.push(0);
        i = i + 1;
    }
    let ghost head = r@;
    let mut k: usize = z;
    while k < ds.len()
        invariant
            z <= k <= ds.len(),
            r@ == head + ds@.subrange(z as int, k as int),
        decreases ds.len() - k,
    {
        r.push(ds[k]);
        assert(ds@.subrange(z as int, k + 1) == ds@.subrange(z as int, k as int).push(
            ds@[k as int],
        ));
        k = k + 1;
    }
    let ghost middle = ds@.skip(z as int);
    let ghost both = r@;
    assert(ds@.subrange(z as int, ds@.len() as int) == middle);
    let mut i: usize = 0;
    while i < after
        invariant
            i <= after,
            r@.len() == both.len() + i,
            r@.take(both.len() as int) == both,
            forall|j: int| both.len() <= j < r@.len() ==> #[trigger] r@[j] == 0,
        decreases after - i,
    {
        let ghost prev = r@;
        r.push(0);
        assert(r@.take(both.len() as int) =~= prev.take(both.len() as int));
        i = i + 1;
    }
    proof {
        let tail = r@.skip(both.len() as int);
        assert(r@ == both + tail);
        lemma_dec_concat(both, tail);
        lemma_dec_concat(head, middle);
        lemma_dec_zeros(head);
        lemma_dec_zeros(tail);
        assert(0 * pow(10, middle.len()) == 0);
        assert forall|j: int| 0 <= j < r@.len() implies #[trigger] r@[j] <= 9 by {
            if j < head.len() {
                assert(r@[j] == both[j] && both[j] == head[j]);
            } else if j < both.len() {
                assert(r@[j] == both[j] && both[j] == ds@[j - head.len() + z]);
            }
        }
    }
    r
}

/// The order of magnitude of `digits * 10^e` follows from the number of digits.
proof fn lemma_magnitude(ds: Seq<u8>, z: int, e: int)
    requires
        digits_ok(ds),
        0 <= z < ds.len(),
        forall|j: int| 0 <= j < z ==> #[trigger] ds[j] == 0,
        ds[z] > 0,
    ensures
        dec(ds) == dec(ds.skip(z)),
        exp10(ds.len() - z + e - 1) <= dec(ds) as real * exp10(e) < exp10(ds.len() - z + e),
{
    let s = ds.skip(z);
    assert(ds.take(z) + s == ds);
    lemma_dec_concat(ds.take(z), s);
    lemma_dec_zeros(ds.take(z));
    assert(0 * pow(10, s.len()) == 0);
    assert(digits_ok(s)) by {
        assert forall|j: int| 0 <= j < s.len() implies #[trigger] s[j] <= 9 by {
            assert(ds[j + z] <= 9);
        }
    }
    lemma_dec_bound(s);
    lemma_dec_nonzero(s, 0);
    lemma_exp10_shift(e, (s.len() - 1) as nat);
    lemma_exp10_shift(e, s.len());
    lemma_exp10_positive(e);
    let (a, lo, hi, u) = (
        dec(s) as real,
        pow(10, (s.len() - 1) as nat) as real,
        pow(10, s.len()) as real,
        exp10(e),
    );
    assert(lo * u <= a * u < hi * u) by (nonlinear_arith)
        requires
            lo <= a < hi,
            u > 0real,
    ;
}

/// Splitting digits at a point.
proof fn lemma_mixed_split(w: Seq<u8>, k: int)
    requires
        0 <= k <= w.len(),
    ensures
        mixed(dec(w.take(k)), w.skip(k)) == dec(w) as real * exp10(k - w.len()),
{
    let f = w.skip(k);
    assert(w.take(k) + f == w);
    lemma_dec_concat(w.take(k), f);
    lemma_pow_positive(10, f.len());
    lemma_exp10_shift(-(f.len() as int), f.len());
    let (p, a, b, u) = (
        pow(10, f.len()) as real,
        dec(w.take(k)) as real,
        dec(f) as real,
        exp10(-(f.len() as int)),
    );
    assert((dec(w.take(k)) * pow(10, f.len())) as real == a * p) by (nonlinear_arith)
        requires
            a == dec(w.take(k)) as real,
            p == pow(10, f.len()) as real,
    ;
    assert(a + b / p == (a * p + b) * u) by (nonlinear_arith)
        requires
            p * u == 1real,
            p > 0real,
    ;
}

/// The size of `digits * 10^exponent`.
fn size_of(digits: &Vec<u8>, exponent: i128) -> (r: Size)
    requires
        digits_ok(digits@),
        -200_000_000_000_000_000_000_000_000_000 <= exponent
            <= 200_000_000_000_000_000_000_000_000_000,
    ensures
        forall|e: int| #[trigger]
            stands_for(exponent as int, e) ==> r.of(dec(digits@) as real * exp10(e)),
{
    let mut z: usize = 0;
    while z < digits.len() && digits[z] == 0
        invariant
            z <= digits.len(),
            forall|j: int| 0 <= j < z ==> #[trigger] digits@[j] == 0,
        decreases digits.len() - z,
    {
        z = z + 1;
    }
    if z == digits.len() {
        proof {
            lemma_dec_zeros(digits@);
            assert forall|e: int| #[trigger] stands_for(exponent as int, e) implies Size::Tiny.of(
                dec(digits@) as real * exp10(e),
            ) by {
                assert(0real * exp10(e) == 0real) by (nonlinear_arith);
            }
        }
        return Size::Tiny;
    }
    let sig: usize = digits.len() - z;
    let p: i128 = sig as i128 + exponent;
    proof {
        assert(exp10(-3) == 1real / 1000real && exp10(3) == 1000real) by {
            reveal_with_fuel(exp10, 4);
        }
        assert forall|e: int| #[trigger] stands_for(exponent as int, e) implies {
            &&& p >= 4 ==> Size::Huge.of(dec(digits@) as real * exp10(e))
            &&& p <= -3 ==> Size::Tiny.of(dec(digits@) as real * exp10(e))
            &&& -2 <= p <= 3 ==> e == exponent
        } by {
            lemma_magnitude(digits@, z as int, e);
            lemma_exp10_positive(sig + e - 1);
            if sig + e >= 4 {
                lemma_exp10_monotone(3, sig + e - 1);
            }
            if sig + e <= -3 {
                lemma_exp10_monotone(sig + e, -3);
            }
        }
    }
    if p >= 4 {
        return Size::Huge;
    }
    if p <= -3 {
        return Size::Tiny;
    }
    let after: usize = if exponent > 0 {
        exponent as usize
    } else {
        0
    };
    let w = padded(digits, z, (3 - p) as usize, after);
    let whole: u64 = 100 * (w[0] as u64) + 10 * (w[1] as u64) + w[2] as u64;
    let rest = slice_subrange(w.as_slice(), 3, w.len());
    let fraction = vstd::slice::slice_to_vec(rest);
    proof {
        let e = exponent as int;
        lemma_magnitude(digits@, z as int, e);
        lemma_exp10_monotone(-3, sig + e - 1);
        lemma_exp10_monotone(sig + e, 3);
        lemma_mixed_split(w@, 3);
        assert(fraction@ == w@.skip(3));
        assert(dec(w@.take(3)) == whole) by {
            reveal_with_fuel(dec, 4);
            assert(w@.take(3).drop_last() == w@.take(2));
            assert(w@.take(2).drop_last() == w@.take(1));
            assert(w@.take(1).drop_last() == w@.take(0));
        }
        assert(w@[0] <= 9 && w@[1] <= 9 && w@[2] <= 9);
        lemma_exp10_shift(3 - w@.len(), after as nat);
        let (a, q, u) = (
            dec(digits@.skip(z as int)) as real,
            pow(10, after as nat) as real,
            exp10(3 - w@.len()),
        );
        assert(dec(w@) as real == a * q) by (nonlinear_arith)
            requires
                dec(w@) == dec(digits@.skip(z as int)) * pow(10, after as nat),
                a == dec(digits@.skip(z as int)) as real,
                q == pow(10, after as nat) as real,
        ;
        assert((a * q) * u == a * (q * u)) by (nonlinear_arith);
        assert(digits_ok(fraction@)) by {
            assert forall|j: int| 0 <= j < fraction@.len() implies #[trigger] fraction@[j] <= 9 by {
                assert(w@[j + 3] <= 9);
            }
        }
    }
    Size::Fits(to_binary(whole, fraction))
}

/// A run of digits stays within the text and is made of digits.
pub proof fn lemma_digit_run(s: Seq<char>)
    ensures
        0 <= digit_run(s) <= s.len(),
        forall|i: int| 0 <= i < digit_run(s) ==> is_digit(#[trigger] s[i]),
        digit_run(s) < s.len() ==> !is_digit(s[digit_run(s)]),
    decreases s.len(),
{
    if s.len() > 0 && is_digit(s[0]) {
        lemma_digit_run(s.skip(1));
        assert forall|i: int| 0 <= i < digit_run(s) implies is_digit(#[trigger] s[i]) by {
            if i > 0 {
                assert(s[i] == s.skip(1)[i - 1]);
            }
        }
    }
}

/// Appends the digits of `s` from `from` on, and returns where they end.
fn take_digits(s: &[char], from: usize, ds: &mut Vec<u8>) -> (end: usize)
    requires
        from <= s.len(),
    ensures
        end == from + digit_run(s@.skip(from as int)),
        from <= end <= s.len(),
        final(ds)@.len() == old(ds)@.len() + (end - from),
        forall|i: int| 0 <= i < old(ds)@.len() ==> final(ds)@[i] == old(ds)@[i],
        forall|k: int|
            old(ds)@.len() <= k < final(ds)@.len() ==> #[trigger] final(ds)@[k] == digit(
                s@[k - old(ds)@.len() + from],
            ) && is_digit(s@[k - old(ds)@.len() + from]),
{
    let ghost before = ds@;
    let mut i: usize = from;
    while i < s.len() && digit_char(s[i])
        invariant
            from <= i <= s.len(),
            ds@.len() == before.len() + (i - from),
            forall|j: int| 0 <= j < before.len() ==> ds@[j] == before[j],
            forall|k: int|
                before.len() <= k < ds@.len() ==> #[trigger] ds@[k] == digit(
                    s@[k - before.len() + from],
                ) && is_digit(s@[k - before.len() + from]),
        decreases s.len() - i,
    {
        let d: u8 = (s[i] as u32 - '0' as u32) as u8;
        ds.push(d);
        i = i + 1;
    }
    proof {
        let t = s@.skip(from as int);
        lemma_digit_run(t);
        let n = digit_run(t);
        if n < i - from {
            assert(ds@[n + before.len()] == digit(s@[from + n]));
        } else if n > i - from {
            assert(is_digit(t[i - from]));
        }
    }
    i
}

/// Reads an exponent.
fn parse_exponent(s: &[char]) -> (r: Option<i128>)
    ensures
        match r {
            Some(c) => {
                &&& -1_000_000_000_000_000_000_000_000_000_000 <= c
                    <= 1_000_000_000_000_000_000_000_000_000_000
                &&& exponent_part(s@) matches Some(e)
                &&& (c == e || (c >= 100_000_000_000_000_000_000_000_000_000 && e
                    >= 100_000_000_000_000_000_000_000_000_000) || (c
                    <= -100_000_000_000_000_000_000_000_000_000 && e
                    <= -100_000_000_000_000_000_000_000_000_000))
            },
            None => exponent_part(s@) is None,
        },
{
    let signed = s.len() > 0 && (s[0] == '-' || s[0] == '+');
    let negative = signed && s[0] == '-';
    let t = if signed {
        let u = slice_subrange(s, 1, s.len());
        assert(u@ == s@.skip(1));
        u
    } else {
        s
    };
    if t.len() == 0 {
        return None;
    }
    let mut n: i128 = 0;
    let mut i: usize = 0;
    while i < t.len()
        invariant
            i <= t.len(),
            t@.len() > 0,
            after_sign(s@) == (negative, t@),
            all_digits(t@.take(i as int)),
            0 <= n < 1_000_000_000_000_000_000_000_000_000_000,
            n == number(t@.take(i as int)) || (n >= 100_000_000_000_000_000_000_000_000_000
                && number(t@.take(i as int)) >= 100_000_000_000_000_000_000_000_000_000),
        decreases t.len() - i,
    {
        let c = t[i];
        if !digit_char(c) {
            assert(!is_digit(t@[i as int]));
            return None;
        }
        proof {
            assert(t@.take(i + 1).drop_last() == t@.take(i as int));
            assert forall|j: int| 0 <= j < i + 1 implies is_digit(#[trigger] t@.take(i + 1)[j]) by {
                if j < i {
                    assert(is_digit(t@.take(i as int)[j]));
                }
            }
            lemma_number_nonnegative(t@.take(i as int));
        }
        let d: i128 = (c as u32 - '0' as u32) as i128;
        if n < 100_000_000_000_000_000_000_000_000_000 {
            n = n * 10 + d;
        }
        i = i + 1;
    }
    assert(t@.take(t@.len() as int) == t@);
    if negative {
        Some(-n)
    } else {
        Some(n)
    }
}

/// Reads an unsigned literal.
fn scan(t: &[char]) -> (r: Option<(Vec<u8>, i128)>)
    ensures
        match r {
            Some(found) => {
                &&& unsigned_literal(t@) matches Some((digits, e))
                &&& spells(found.0@, digits)
                &&& stands_for(found.1 as int, e)
                &&& -200_000_000_000_000_000_000_000_000_000 <= found.1
                    <= 200_000_000_000_000_000_000_000_000_000
            },
            None => unsigned_literal(t@) is None,
        },
{
    let mut ds: Vec<u8> = Vec::new();
    let i = take_digits(t, 0, &mut ds);
    assert(t@.skip(0) == t@);
    let ghost first = ds@;
    let point = i < t.len() && t[i] == '.';
    let end: usize = if point {
        take_digits(t, i + 1, &mut ds)
    } else {
        i
    };
    let f: usize = if point {
        end - (i + 1)
    } else {
        0
    };
    let ghost digits = t@.take(i as int) + t@.subrange(end - f, end as int);
    proof {
        assert(ds@.len() == digits.len());
        assert forall|k: int| 0 <= k < digits.len() implies (#[trigger] ds@[k]) == digit(digits[k])
            && is_digit(digits[k]) by {
            if k < i {
                assert(first[k] == digit(t@[k]));
            } else {
                assert(digits[k] == t@[k + 1]);
            }
        }
        assert(spells(ds@, digits));
    }
    if ds.len() == 0 {
        return None;
    }
    if end == t.len() {
        return Some((ds, -(f as i128)));
    }
    if t[end] != 'e' && t[end] != 'E' {
        return None;
    }
    let tail = slice_subrange(t, end + 1, t.len());
    assert(tail@ == t@.skip(end + 1));
    match parse_exponent(tail) {
        Some(c) => {
            let c = if c > 150_000_000_000_000_000_000_000_000_000 {
                150_000_000_000_000_000_000_000_000_000
            } else if c < -150_000_000_000_000_000_000_000_000_000 {
                -150_000_000_000_000_000_000_000_000_000
            } else {
                c
            };
            Some((ds, c - f as i128))
        },
        None => None,
    }
}

/// Whether `s` is `word` in any case.
fn word_is(s: &[char], word: &str) -> (r: bool)
    ensures
        r == is_word(s@, word@),
{
    let w = chars_of(word);
    if s.len() != w.len() {
        return false;
    }
    let mut i: usize = 0;
    while i < s.len()
        invariant
            i <= s.len() == w.len(),
            w@ == word@,
            forall|j: int| 0 <= j < i ==> is_letter(#[trigger] s@[j], w@[j]),
        decreases s.len() - i,
    {
        let (c, l) = (s[i], w[i]);
        if !(c == l || ('A' <= c && c <= 'Z' && c as u32 + 32 == l as u32)) {
            assert(!is_letter(s@[i as int], w@[i as int]));
            return false;
        }
        i = i + 1;
    }
    true
}

/// A literal, as closely as a colour channel needs it.
pub enum Reading {
    Finite { negative: bool, size: Size },
    Infinite { negative: bool },
    NotANumber,
}

/// The magnitude of a finite literal.
pub open spec fn magnitude(digits: Seq<char>, exponent: int) -> real {
    number(digits) as real * exp10(exponent)
}

impl Reading {
    /// `self` describes the literal `l`.
    pub open spec fn of(self, l: Literal) -> bool {
        match l {
            Literal::Finite { negative, digits, exponent } => {
                &&& self matches Reading::Finite { negative: n, size }
                &&& n == negative
                &&& size.of(magnitude(digits, exponent))
            },
            Literal::Infinite { negative } => self == (Reading::Infinite { negative }),
            Literal::NotANumber => self == Reading::NotANumber,
        }
    }
}

/// Reads a literal.
pub fn read_literal(s: &[char]) -> (r: Option<Reading>)
    ensures
        match r {
            Some(reading) => literal(s@) matches Some(l) && reading.of(l),
            None => literal(s@) is None,
        },
{
    let signed = s.len() > 0 && (s[0] == '-' || s[0] == '+');
    let negative = signed && s[0] == '-';
    let t = if signed {
        let u = slice_subrange(s, 1, s.len());
        assert(u@ == s@.skip(1));
        u
    } else {
        s
    };
    assert(after_sign(s@) == (negative, t@));
    if word_is(t, "inf") || word_is(t, "infinity") {
        return Some(Reading::Infinite { negative });
    }
    if word_is(t, "nan") {
        return Some(Reading::NotANumber);
    }
    match scan(t) {
        Some((digits, exponent)) => {
            proof {
                let found = unsigned_literal(t@)->0;
                lemma_spells(digits@, found.0);
                assert(stands_for(exponent as int, found.1));
            }
            Some(Reading::Finite { negative, size: size_of(&digits, exponent) })
        },
        None => None,
    }
}

} // verus!
