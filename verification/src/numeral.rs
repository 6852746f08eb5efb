//! Which numbers texts stand for, and which levels of a channel, told from the text itself.

use crate::binary64::{
    binade, exp2, half_even, lemma_binade, lemma_exp2_adds, lemma_exp2_is_pow2,
    lemma_exp2_monotone, lemma_exp2_positive, lemma_exp2_step, lemma_has_binade,
    lemma_nearest_error, lemma_nearest_integer, nearest,
};
use crate::channel::{channel, percent_level, plain_level, ChannelError};
use crate::decimal::{
    after_sign, digit_run, exponent_part, is_letter, is_word, literal, magnitude, unsigned_literal,
    Literal,
};
use crate::reading::lemma_digit_run_before;
use crate::text::{all_digits, is_digit, number, trim};
use vstd::arithmetic::power2::pow2;
use vstd::prelude::*;

verus! {

/// The parts of a decimal number: a sign, the digits before and after the point, and an exponent
/// with its letter and sign.
pub struct Numeral {
    pub sign: Seq<char>,
    pub whole: Seq<char>,
    pub point: bool,
    pub part: Seq<char>,
    pub scale: Option<(char, Seq<char>, Seq<char>)>,
}

/// A plus sign, a minus sign, or none.
pub open spec fn is_sign(s: Seq<char>) -> bool {
    s == Seq::<char>::empty() || s == seq!['+'] || s == seq!['-']
}

impl Numeral {
    /// There is at least one digit, a fraction only behind a point, and an exponent has digits.
    pub open spec fn well_formed(self) -> bool {
        &&& is_sign(self.sign)
        &&& all_digits(self.whole)
        &&& all_digits(self.part)
        &&& self.whole.len() + self.part.len() > 0
        &&& !self.point ==> self.part.len() == 0
        &&& match self.scale {
            Some((e, s, x)) => (e == 'e' || e == 'E') && is_sign(s) && x.len() > 0 && all_digits(x),
            None => true,
        }
    }

    /// What follows the digits.
    pub open spec fn tail(self) -> Seq<char> {
        match self.scale {
            Some((e, s, x)) => seq![e] + (s + x),
            None => Seq::empty(),
        }
    }

    /// The number without its sign.
    pub open spec fn unsigned_text(self) -> Seq<char> {
        if self.point {
            self.whole + (seq!['.'] + (self.part + self.tail()))
        } else {
            self.whole + self.tail()
        }
    }

    /// The number as it is written.
    pub open spec fn text(self) -> Seq<char> {
        self.sign + self.unsigned_text()
    }

    /// The power of ten that the exponent asks for.
    pub open spec fn power(self) -> int {
        match self.scale {
            Some((_, s, x)) => if s == seq!['-'] {
                -number(x)
            } else {
                number(x)
            },
            None => 0,
        }
    }
}

/// A sign is told from what follows it.
proof fn lemma_sign(sign: Seq<char>, t: Seq<char>)
    requires
        is_sign(sign),
        t.len() > 0 ==> t[0] != '+' && t[0] != '-',
    ensures
        after_sign(sign + t) == (sign == seq!['-'], t),
{
    if sign == Seq::<char>::empty() {
        assert(sign + t == t);
        assert(sign != seq!['-']);
    } else {
        assert((sign + t)[0] == sign[0]);
        assert((sign + t).skip(1) == t);
        if sign == seq!['+'] {
            assert(sign[0] == '+' && seq!['-'][0] == '-');
        }
    }
}

/// An exponent is read as it is written.
proof fn lemma_exponent_part(s: Seq<char>, x: Seq<char>)
    requires
        is_sign(s),
        x.len() > 0,
        all_digits(x),
    ensures
        exponent_part(s + x) == Some(
            if s == seq!['-'] {
                -number(x)
            } else {
                number(x)
            },
        ),
{
    assert(is_digit(x[0]));
    lemma_sign(s, x);
}

/// What is written without its sign is read with all its digits and with its exponent.
proof fn lemma_unsigned_numeral(n: Numeral)
    requires
        n.well_formed(),
    ensures
        unsigned_literal(n.unsigned_text()) == Some((n.whole + n.part, n.power() - n.part.len())),
        n.unsigned_text().len() > 0,
        is_digit(n.unsigned_text()[0]) || n.unsigned_text()[0] == '.',
{
    let (t, i, tail) = (n.unsigned_text(), n.whole.len() as int, n.tail());
    match n.scale {
        Some((e, s, x)) => {
            assert(tail[0] == e);
            assert(tail.skip(1) == s + x);
            lemma_exponent_part(s, x);
        },
        None => {},
    }
    if n.whole.len() > 0 {
        assert(t[0] == n.whole[0] && is_digit(n.whole[0]));
    }
    if n.point {
        let rest = seq!['.'] + (n.part + tail);
        let f = n.part.len() as int;
        assert(rest[0] == '.');
        lemma_digit_run_before(n.whole, rest);
        assert(t[i] == '.');
        assert(t.skip(i + 1) == n.part + tail);
        lemma_digit_run_before(n.part, tail);
        assert(t.take(i) == n.whole);
        assert(t.subrange(i + 1, i + 1 + f) == n.part);
        let end = i + 1 + f;
        assert(t.skip(end) == tail);
        if tail.len() > 0 {
            assert(t[end] == tail[0]);
            assert(t.skip(end + 1) == tail.skip(1));
        }
    } else {
        lemma_digit_run_before(n.whole, tail);
        assert(t.take(i) == n.whole);
        assert(t.subrange(i, i) == n.part);
        assert(t.skip(i) == tail);
        if tail.len() > 0 {
            assert(t[i] == tail[0]);
            assert(t.skip(i + 1) == tail.skip(1));
        }
    }
}

/// A decimal number is read as it is written, with all its digits, however many there are: with
/// or without a sign, a point and an exponent.
pub proof fn lemma_numeral(n: Numeral)
    requires
        n.well_formed(),
    ensures
        literal(n.text()) == Some(
            Literal::Finite {
                negative: n.sign == seq!['-'],
                digits: n.whole + n.part,
                exponent: n.power() - n.part.len(),
            },
        ),
{
    lemma_unsigned_numeral(n);
    let t = n.unsigned_text();
    lemma_sign(n.sign, t);
    reveal_strlit("inf");
    reveal_strlit("infinity");
    reveal_strlit("nan");
    assert(!is_letter(t[0], 'i') && !is_letter(t[0], 'n'));
}

/// What is read as an exponent is written as one.
proof fn lemma_exponent_form(s: Seq<char>) -> (r: (Seq<char>, Seq<char>))
    requires
        exponent_part(s) is Some,
    ensures
        is_sign(r.0),
        r.1.len() > 0,
        all_digits(r.1),
        s == r.0 + r.1,
{
    if s.len() > 0 && (s[0] == '-' || s[0] == '+') {
        assert(s == seq![s[0]] + s.skip(1));
        (seq![s[0]], s.skip(1))
    } else {
        assert(s == Seq::<char>::empty() + s);
        (Seq::empty(), s)
    }
}

/// A part of a text that is digits alone is so by itself.
proof fn lemma_digits_taken(t: Seq<char>, i: int)
    requires
        0 <= i <= t.len(),
        forall|k: int| 0 <= k < i ==> is_digit(#[trigger] t[k]),
    ensures
        all_digits(t.take(i)),
{
    let u = t.take(i);
    assert forall|k: int| 0 <= k < u.len() implies is_digit(#[trigger] u[k]) by {
        assert(u[k] == t[k]);
    }
}

/// What is read as a number without a sign is written as one.
proof fn lemma_unsigned_form(t: Seq<char>) -> (n: Numeral)
    requires
        unsigned_literal(t) is Some,
    ensures
        n.well_formed(),
        n.sign == Seq::<char>::empty(),
        t == n.unsigned_text(),
{
    let i = digit_run(t);
    crate::decimal::lemma_digit_run(t);
    lemma_digits_taken(t, i);
    let whole = t.take(i);
    let point = i < t.len() && t[i] == '.';
    let u = if point {
        t.skip(i + 1)
    } else {
        Seq::empty()
    };
    let f = digit_run(u);
    crate::decimal::lemma_digit_run(u);
    lemma_digits_taken(u, f);
    let part = u.take(f);
    let end = if point {
        i + 1 + f
    } else {
        i
    };
    assert(t.subrange(end - f, end) == part);
    let rest = t.skip(end);
    assert(t == (if point {
        whole + (seq!['.'] + (part + rest))
    } else {
        whole + rest
    }));
    let none = Seq::<char>::empty();
    if end == t.len() {
        assert(rest == none);
        Numeral { sign: none, whole, point, part, scale: None }
    } else {
        let (x, y) = lemma_exponent_form(t.skip(end + 1));
        assert(rest == seq![t[end]] + (x + y));
        Numeral { sign: none, whole, point, part, scale: Some((t[end], x, y)) }
    }
}

/// Nothing but decimal numbers and the words for infinity and for no number are read.
pub proof fn lemma_only_numerals(s: Seq<char>) -> (n: Numeral)
    requires
        literal(s) is Some,
    ensures
        literal(s)->0 is Finite ==> n.well_formed() && s == n.text(),
        !(literal(s)->0 is Finite) ==> is_sign(n.sign) && s == n.sign + n.whole && (is_word(
            n.whole,
            "inf"@,
        ) || is_word(n.whole, "infinity"@) || is_word(n.whole, "nan"@)),
{
    let sign = if s.len() > 0 && (s[0] == '-' || s[0] == '+') {
        seq![s[0]]
    } else {
        Seq::empty()
    };
    let t = after_sign(s).1;
    assert(s == sign + t);
    assert(is_sign(sign));
    if literal(s)->0 is Finite {
        let n = lemma_unsigned_form(t);
        let r = Numeral { sign, ..n };
        assert(r.tail() == n.tail());
        assert(r.unsigned_text() == t);
        r
    } else {
        Numeral { sign, whole: t, point: false, part: Seq::empty(), scale: None }
    }
}

/// The words for infinity and for no number are read in small and in capital letters.
pub proof fn lemma_words(sign: Seq<char>, w: Seq<char>)
    requires
        is_sign(sign),
    ensures
        is_word(w, "inf"@) || is_word(w, "infinity"@) ==> literal(sign + w) == Some(
            Literal::Infinite { negative: sign == seq!['-'] },
        ),
        is_word(w, "nan"@) ==> literal(sign + w) == Some(Literal::NotANumber),
{
    reveal_strlit("inf");
    reveal_strlit("infinity");
    reveal_strlit("nan");
    if is_word(w, "inf"@) || is_word(w, "infinity"@) || is_word(w, "nan"@) {
        assert(is_letter(w[0], 'i') || is_letter(w[0], 'n'));
        lemma_sign(sign, w);
        if is_word(w, "nan"@) {
            assert(is_letter(w[0], 'n'));
            if is_word(w, "inf"@) {
                assert(is_letter(w[0], 'i'));
            }
        }
    }
}

/// A letter is a small letter or the capital one that belongs to it.
pub proof fn lemma_letter(c: char, w: char)
    requires
        'a' <= w <= 'z',
    ensures
        is_letter(c, w) <==> c == w || c as u32 == w as u32 - 32,
{
}

/// The level of a number is the nearest integer.
pub proof fn lemma_plain_level(x: real)
    requires
        0real <= x <= 1000real,
    ensures
        -1real / 2real - 1real / 1000_0000_0000real <= plain_level(x) as real - x <= 1real / 2real
            + 1real / 1000_0000_0000real,
{
    lemma_nearest_error(x);
}

/// The level of a percentage is the integer nearest to that share of 255.
pub proof fn lemma_percent_level(x: real)
    requires
        0real <= x <= 1000real,
    ensures
        -1real / 2real - 1real / 1000_0000_0000real <= percent_level(x) as real - x * 255real
            / 100real <= 1real / 2real + 1real / 1000_0000_0000real,
{
    lemma_nearest_error(x);
    let y = nearest(x) / 100real;
    lemma_nearest_error(y);
    let z = nearest(y) * 255real;
    lemma_nearest_error(z);
}

/// The level of a number half-way between two integers is the larger one.
pub proof fn lemma_level_of_half(k: int)
    requires
        0 <= k < 0x8_0000_0000_0000,
    ensures
        plain_level(k as real + 1real / 2real) == k + 1,
        plain_level(k as real) == k,
{
    lemma_nearest_integer(2 * k + 1);
    lemma_nearest_integer(k);
    let x = k as real + 1real / 2real;
    lemma_nearest_half(x);
    assert(2real * x == (2 * k + 1) as real);
}

/// Half a number is rounded as the number is.
pub proof fn lemma_nearest_half(x: real)
    requires
        x > 0real,
    ensures
        nearest(2real * x) == 2real * nearest(x),
{
    lemma_has_binade(x);
    let b = binade(x);
    lemma_exp2_step(b);
    lemma_exp2_step(b + 1);
    lemma_exp2_step(b - 52);
    lemma_binade(2real * x, b + 1);
    let u = exp2(b - 52);
    lemma_exp2_positive(b - 52);
    assert((2real * x) / (2real * u) == x / u) by (nonlinear_arith)
        requires
            u > 0real,
    ;
    let h = half_even(x / u) as real;
    assert(h * (2real * u) == 2real * (h * u)) by (nonlinear_arith);
}

/// The distance of two numbers.
pub open spec fn apart(a: real, b: real) -> real {
    if a < b {
        b - a
    } else {
        a - b
    }
}

/// No integer is nearer to a number than the one it is rounded to.
proof fn lemma_integer_closest(q: real, j: int)
    ensures
        apart(half_even(q) as real, q) <= apart(j as real, q),
{
    let (n, h) = (q.floor(), half_even(q));
    let (x, f, v) = (n as real, q - n as real, j as real);
    assert(0real <= f < 1real);
    assert((h == n && f <= 1real / 2real) || (h == n + 1 && f >= 1real / 2real));
    if j <= n {
        assert(v <= x);
        assert(apart(v, q) >= f);
    } else {
        assert(v >= x + 1real);
        assert(apart(v, q) >= 1real - f);
    }
    if h == n {
        assert(apart(h as real, q) == f);
    } else {
        assert(apart(h as real, q) == 1real - f);
    }
}

/// What is nearer stays nearer on another scale.
proof fn lemma_apart_scaled(n: real, j: real, q: real, u: real)
    requires
        u > 0real,
        apart(n, q) <= apart(j, q),
    ensures
        apart(n * u, q * u) <= apart(j * u, q * u),
{
    let (r, o) = (apart(n, q), apart(j, q));
    assert(apart(n * u, q * u) == r * u) by (nonlinear_arith)
        requires
            r == (if n < q {
                q - n
            } else {
                n - q
            }),
            u > 0real,
    ;
    assert(apart(j * u, q * u) == o * u) by (nonlinear_arith)
        requires
            o == (if j < q {
                q - j
            } else {
                j - q
            }),
            u > 0real,
    ;
    assert(r * u <= o * u) by (nonlinear_arith)
        requires
            r <= o,
            u > 0real,
    ;
}

/// No number with a significand of 53 binary digits is nearer to a number than the one it is
/// rounded to.
pub proof fn lemma_nearest_closest(x: real, m: int, e: int)
    requires
        x > 0real,
        0 <= m <= 0x20_0000_0000_0000,
    ensures
        apart(nearest(x), x) <= apart(m as real * exp2(e), x),
{
    lemma_has_binade(x);
    let k = binade(x) - 52;
    let u = exp2(k);
    lemma_exp2_positive(k);
    lemma_exp2_positive(e);
    let q = x / u;
    assert(q * u == x) by (nonlinear_arith)
        requires
            q == x / u,
            u > 0real,
    ;
    let w = m as real;
    if e >= k {
        lemma_exp2_adds(e - k, k);
        lemma_exp2_is_pow2((e - k) as nat);
        let j = m * pow2((e - k) as nat);
        let p = pow2((e - k) as nat) as real;
        assert(j as real == w * p) by (nonlinear_arith)
            requires
                j == m * pow2((e - k) as nat),
                p == pow2((e - k) as nat) as real,
                w == m as real,
        ;
        assert(w * (p * u) == (w * p) * u) by (nonlinear_arith);
        lemma_integer_closest(q, j);
        lemma_apart_scaled(half_even(q) as real, j as real, q, u);
    } else {
        lemma_exp2_monotone(e, k - 1);
        lemma_exp2_step(k - 1);
        lemma_exp2_adds(52, k);
        assert(exp2(52) == 0x10_0000_0000_0000real) by {
            reveal_with_fuel(exp2, 53);
        }
        let z = exp2(e);
        assert(w * z <= 0x10_0000_0000_0000real * u) by (nonlinear_arith)
            requires
                0real <= w <= 0x20_0000_0000_0000real,
                0real < z <= u / 2real,
        ;
        lemma_integer_closest(q, 0x10_0000_0000_0000);
        lemma_apart_scaled(half_even(q) as real, 0x10_0000_0000_0000int as real, q, u);
    }
}

/// The level of a percentage is that of the share of 255, computed in double precision.
pub proof fn lemma_percent_is_share(x: real)
    ensures
        percent_level(x) == plain_level(nearest(nearest(x) / 100real) * 255real),
{
}

/// A channel is read as the level nearest to its number or, with a percent sign, to that share of
/// 255. What lies below the range is 0, what lies above it is 255.
pub proof fn lemma_channel_level(s: Seq<char>, number: Seq<char>, percent: bool)
    requires
        trim(s) == (if percent {
            number.push('%')
        } else {
            number
        }),
        !percent ==> number.len() == 0 || number.last() != '%',
    ensures
        match literal(
            if percent {
                trim(number)
            } else {
                number
            },
        ) {
            None => channel(s) == Err::<u8, ChannelError>(
                if percent {
                    ChannelError::Percent
                } else {
                    ChannelError::Plain
                },
            ),
            Some(Literal::NotANumber) => channel(s) == Ok::<u8, ChannelError>(0),
            Some(Literal::Infinite { negative }) => channel(s) == Ok::<u8, ChannelError>(
                if negative {
                    0
                } else {
                    255
                },
            ),
            Some(Literal::Finite { negative, digits, exponent }) => {
                let x = if percent {
                    magnitude(digits, exponent) * 255real / 100real
                } else {
                    magnitude(digits, exponent)
                };
                match channel(s) {
                    Ok(n) => {
                        &&& negative ==> n == 0
                        &&& !negative && 0real <= x <= 254real ==> -1real / 2real - 1real
                            / 1000_0000_0000real <= n as real - x <= 1real / 2real + 1real
                            / 1000_0000_0000real
                        &&& !negative && 254real <= x < 2545real / 10real - 1real
                            / 1000_0000_0000real ==> n == 254
                        &&& !negative && x > 2545real / 10real + 1real / 1000_0000_0000real ==> n
                            == 255
                    },
                    Err(_) => false,
                }
            },
        },
{
    if percent {
        assert(number.push('%').drop_last() == number);
    }
    let digits = if percent {
        trim(number)
    } else {
        number
    };
    match literal(digits) {
        Some(Literal::Finite { negative, digits, exponent }) => {
            let m = magnitude(digits, exponent);
            if 0real <= m <= 1000real {
                lemma_plain_level(m);
                lemma_percent_level(m);
            } else if m > 1000real {
                lemma_plain_level(1000real);
                lemma_percent_level(1000real);
                crate::channel::lemma_level_monotone(1000real, m);
            }
        },
        _ => {},
    }
}

} // verus!
