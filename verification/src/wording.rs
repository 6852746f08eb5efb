//! How text is taken apart and read, told from the text itself.

use crate::decimal::{exp10, magnitude};
use crate::dump::{grid, ColoredChar};
use crate::names::texts;
use crate::text::{
    all_digits, digits_of, is_blank, lemma_trim_end, lemma_trim_start, lemma_word_len, next_word,
    number, strip_all, strip_end, trim, trim_start, unsigned, word_len,
};
use vstd::prelude::*;

verus! {

/// The blanks are the control characters from tab to carriage return, the next line, and the
/// separators of Unicode.
pub proof fn lemma_blanks(c: char)
    ensures
        is_blank(c) <==> seq![
            0x09u32, 0x0a, 0x0b, 0x0c, 0x0d, 0x20, 0x85, 0xa0, 0x1680, 0x2000, 0x2001, 0x2002,
            0x2003, 0x2004, 0x2005, 0x2006, 0x2007, 0x2008, 0x2009, 0x200a, 0x2028, 0x2029, 0x202f,
            0x205f, 0x3000,
        ].contains(c as u32),
{
    let all = seq![
        0x09u32, 0x0a, 0x0b, 0x0c, 0x0d, 0x20, 0x85, 0xa0, 0x1680, 0x2000, 0x2001, 0x2002,
        0x2003, 0x2004, 0x2005, 0x2006, 0x2007, 0x2008, 0x2009, 0x200a, 0x2028, 0x2029, 0x202f,
        0x205f, 0x3000,
    ];
    let n = c as u32;
    if is_blank(c) {
        let i: int = if n <= 0x0d {
            n - 0x09
        } else if n == 0x20 {
            5
        } else if n == 0x85 {
            6
        } else if n == 0xa0 {
            7
        } else if n == 0x1680 {
            8
        } else if n <= 0x200a {
            9 + (n - 0x2000)
        } else if n == 0x2028 {
            20
        } else if n == 0x2029 {
            21
        } else if n == 0x202f {
            22
        } else if n == 0x205f {
            23
        } else {
            24
        };
        assert(all[i] == n);
    }
}

/// Text made of blanks alone.
pub open spec fn all_blank(s: Seq<char>) -> bool {
    forall|i: int| 0 <= i < s.len() ==> is_blank(#[trigger] s[i])
}

/// Trimming takes off all the blanks before and after a text, however many there are, and
/// nothing else.
pub proof fn lemma_trimmed(a: Seq<char>, s: Seq<char>, b: Seq<char>)
    requires
        all_blank(a),
        all_blank(b),
        s.len() > 0 ==> !is_blank(s[0]) && !is_blank(s.last()),
    ensures
        trim(a + s + b) == s,
{
    let t = a + s + b;
    assert forall|i: int| 0 <= i < a.len() implies is_blank(#[trigger] t[i]) by {
        assert(t[i] == a[i]);
    }
    lemma_trim_start(t, a.len() as int);
    let u = s + b;
    assert(t.skip(a.len() as int) == u);
    if s.len() == 0 {
        assert forall|i: int| 0 <= i < u.len() implies is_blank(#[trigger] u[i]) by {
            assert(u[i] == b[i]);
        }
        lemma_trim_start(u, u.len() as int);
        assert(u.skip(u.len() as int) == s);
    } else {
        assert(u[0] == s[0]);
        assert(trim_start(u) == u);
        assert forall|i: int| s.len() <= i < u.len() implies is_blank(#[trigger] u[i]) by {
            assert(u[i] == b[i - s.len()]);
        }
        lemma_trim_end(u, s.len() as int);
        assert(u.take(s.len() as int) == s);
    }
}

/// The next word is found behind all the blanks before it, and ends at the first blank after it.
pub proof fn lemma_word(a: Seq<char>, w: Seq<char>, rest: Seq<char>)
    requires
        all_blank(a),
        w.len() > 0,
        forall|i: int| 0 <= i < w.len() ==> !is_blank(#[trigger] w[i]),
        rest.len() > 0 ==> is_blank(rest[0]),
    ensures
        next_word(a + w + rest) == Some((w, rest)),
{
    let t = a + w + rest;
    assert forall|i: int| 0 <= i < a.len() implies is_blank(#[trigger] t[i]) by {
        assert(t[i] == a[i]);
    }
    lemma_trim_start(t, a.len() as int);
    let u = w + rest;
    assert(t.skip(a.len() as int) == u);
    assert(u[0] == w[0]);
    assert(trim_start(u) == u);
    lemma_word_len(u);
    assert(word_len(u) == w.len()) by {
        if word_len(u) < w.len() {
            assert(u[word_len(u)] == w[word_len(u)]);
        } else if word_len(u) > w.len() {
            assert(u[w.len() as int] == rest[0]);
            assert(is_blank(u[w.len() as int]));
        }
    }
    assert(u.take(w.len() as int) == w);
    assert(u.skip(w.len() as int) == rest);
}

/// There is no word among blanks.
pub proof fn lemma_no_word(a: Seq<char>)
    requires
        all_blank(a),
    ensures
        next_word(a) is None,
{
    lemma_trim_start(a, a.len() as int);
    assert(a.skip(a.len() as int) == Seq::<char>::empty());
}

/// A prefix is taken off as often as it stands at the start, and nothing where it does not.
pub proof fn lemma_prefix_off(prefix: Seq<char>, s: Seq<char>)
    requires
        prefix.len() > 0,
    ensures
        strip_all(prefix + s, prefix) == strip_all(s, prefix),
        !prefix.is_prefix_of(s) ==> strip_all(s, prefix) == s,
{
    let t = prefix + s;
    assert(t.subrange(0, prefix.len() as int) == prefix);
    assert(t.skip(prefix.len() as int) == s);
}

/// A character is taken off as often as it stands at the end, and nothing where it does not.
pub proof fn lemma_end_off(s: Seq<char>, c: char)
    ensures
        strip_end(s.push(c), c) == strip_end(s, c),
        (s.len() == 0 || s.last() != c) ==> strip_end(s, c) == s,
{
    assert(s.push(c).drop_last() == s);
}

/// Digits count by ten times what they counted for, and the next digit for what it is.
pub proof fn lemma_number(s: Seq<char>, c: char)
    ensures
        number(Seq::empty()) == 0,
        number(s.push(c)) == 10 * number(s) + (c as int - '0' as int),
{
    assert(s.push(c).drop_last() == s);
}

/// Text is digits alone if and only if every character is one from `0` to `9`.
pub proof fn lemma_all_digits(s: Seq<char>)
    ensures
        all_digits(s) <==> forall|i: int| 0 <= i < s.len() ==> '0' <= #[trigger] s[i] <= '9',
{
    if all_digits(s) {
        assert forall|i: int| 0 <= i < s.len() implies '0' <= #[trigger] s[i] <= '9' by {
            assert(crate::text::is_digit(s[i]));
        }
    }
}

/// An unsigned number is one or more digits, with or without a plus sign, that count for no more
/// than is allowed; nothing else is.
pub proof fn lemma_unsigned_exact(t: Seq<char>, max: int)
    ensures
        t.len() > 0 && all_digits(t) && number(t) <= max ==> unsigned(t, max) == Some(number(t))
            && unsigned(seq!['+'] + t, max) == Some(number(t)),
        t.len() == 0 || !all_digits(t) || number(t) > max ==> unsigned(seq!['+'] + t, max) is None
            && (t.len() == 0 || t[0] != '+' ==> unsigned(t, max) is None),
{
    assert((seq!['+'] + t).skip(1) == t);
    if t.len() > 0 && all_digits(t) {
        assert(crate::text::is_digit(t[0]));
    }
}

/// A number is written with the digits of its tens and then its last digit; below ten that digit
/// is all.
pub proof fn lemma_digits_exact(tens: nat, d: nat)
    requires
        d < 10,
    ensures
        digits_of(d) == seq![('0' as nat + d) as char],
        tens > 0 ==> digits_of(10 * tens + d) == digits_of(tens).push(('0' as nat + d) as char),
{
    let n = 10 * tens + d;
    assert(n % 10 == d && n / 10 == tens && d % 10 == d);
}

/// Powers of ten: the first is one, and each is ten times the one before.
pub proof fn lemma_powers_of_ten(e: int)
    ensures
        exp10(0) == 1real,
        exp10(e + 1) == 10real * exp10(e),
{
    if e < 0 {
        assert(exp10(e) == exp10(e + 1) / 10real);
    }
}

/// The size of a number is what its digits count for, times ten for each step of the exponent.
pub proof fn lemma_magnitude(digits: Seq<char>, e: int)
    ensures
        magnitude(digits, 0) == number(digits) as real,
        magnitude(digits, e + 1) == 10real * magnitude(digits, e),
{
    lemma_powers_of_ten(e);
    let (n, u) = (number(digits) as real, exp10(e));
    assert(n * 1real == n);
    assert(n * (10real * u) == 10real * (n * u)) by (nonlinear_arith);
}

/// The texts of strings are those of each, and the rows of a grid likewise.
pub proof fn lemma_each(strings: Seq<String>, rows: Seq<Vec<ColoredChar>>, i: int)
    ensures
        texts(strings).len() == strings.len(),
        0 <= i < strings.len() ==> texts(strings)[i] == strings[i]@,
        grid(rows).len() == rows.len(),
        0 <= i < rows.len() ==> grid(rows)[i] == rows[i]@,
{
}

} // verus!
