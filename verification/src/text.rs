//! Pieces of text: blanks, words, separators and unsigned numbers.
//!
//! Text is handled as a sequence of characters; what a function returns is a part of what it
//! was given.

use vstd::prelude::*;
use vstd::slice::slice_subrange;

verus! {

/// The characters with the Unicode property `White_Space`.
pub open spec fn is_blank(c: char) -> bool {
    ||| 0x09 <= c as u32 <= 0x0d
    ||| c as u32 == 0x20
    ||| c as u32 == 0x85
    ||| c as u32 == 0xa0
    ||| c as u32 == 0x1680
    ||| 0x2000 <= c as u32 <= 0x200a
    ||| c as u32 == 0x2028
    ||| c as u32 == 0x2029
    ||| c as u32 == 0x202f
    ||| c as u32 == 0x205f
    ||| c as u32 == 0x3000
}

/// `s` without the blanks at its start.
pub open spec fn trim_start(s: Seq<char>) -> Seq<char>
    decreases s.len(),
{
    if s.len() > 0 && is_blank(s[0]) {
        trim_start(s.skip(1))
    } else {
        s
    }
}

/// `s` without the blanks at its end.
pub open spec fn trim_end(s: Seq<char>) -> Seq<char>
    decreases s.len(),
{
    if s.len() > 0 && is_blank(s.last()) {
        trim_end(s.drop_last())
    } else {
        s
    }
}

/// `s` without the blanks at both ends.
pub open spec fn trim(s: Seq<char>) -> Seq<char> {
    trim_end(trim_start(s))
}

/// The place of the first `c` in `s`, or the length of `s` where there is none.
pub open spec fn position(s: Seq<char>, c: char) -> int
    decreases s.len(),
{
    if s.len() == 0 || s[0] == c {
        0
    } else {
        1 + position(s.skip(1), c)
    }
}

/// What stands before and after the first `c` in `s`.
pub open spec fn split_once(s: Seq<char>, c: char) -> Option<(Seq<char>, Seq<char>)> {
    let p = position(s, c);
    if p < s.len() {
        Some((s.take(p), s.skip(p + 1)))
    } else {
        None
    }
}

/// The parts of `s` between the separators `c`.
#[verifier::opaque]
pub open spec fn split(s: Seq<char>, c: char) -> Seq<Seq<char>>
    decreases s.len(),
{
    let p = position(s, c);
    if 0 <= p < s.len() {
        seq![s.take(p)] + split(s.skip(p + 1), c)
    } else {
        seq![s]
    }
}

/// The length of the run of characters other than blanks at the start of `s`.
pub open spec fn word_len(s: Seq<char>) -> int
    decreases s.len(),
{
    if s.len() == 0 || is_blank(s[0]) {
        0
    } else {
        1 + word_len(s.skip(1))
    }
}

/// The first word of `s` and what follows it.
pub open spec fn next_word(s: Seq<char>) -> Option<(Seq<char>, Seq<char>)> {
    let t = trim_start(s);
    if t.len() == 0 {
        None
    } else {
        Some((t.take(word_len(t)), t.skip(word_len(t))))
    }
}

/// `s` without the repetitions of `prefix` at its start.
pub open spec fn strip_all(s: Seq<char>, prefix: Seq<char>) -> Seq<char>
    decreases s.len(),
{
    if prefix.len() > 0 && prefix.is_prefix_of(s) {
        strip_all(s.skip(prefix.len() as int), prefix)
    } else {
        s
    }
}

/// `s` without the repetitions of `c` at its end.
pub open spec fn strip_end(s: Seq<char>, c: char) -> Seq<char>
    decreases s.len(),
{
    if s.len() > 0 && s.last() == c {
        strip_end(s.drop_last(), c)
    } else {
        s
    }
}

/// A decimal digit.
pub open spec fn is_digit(c: char) -> bool {
    '0' <= c <= '9'
}

/// What a decimal digit counts for.
pub open spec fn digit(c: char) -> int {
    c as int - '0' as int
}

/// Text made of decimal digits alone.
pub open spec fn all_digits(s: Seq<char>) -> bool {
    forall|i: int| 0 <= i < s.len() ==> is_digit(#[trigger] s[i])
}

/// The number that digits write out in base ten.
pub open spec fn number(s: Seq<char>) -> int
    decreases s.len(),
{
    if s.len() == 0 {
        0
    } else {
        number(s.drop_last()) * 10 + digit(s.last())
    }
}

/// The unsigned number that `s` writes out, with or without a plus sign, if it is at most `max`.
pub open spec fn unsigned(s: Seq<char>, max: int) -> Option<int> {
    let t = if s.len() > 0 && s[0] == '+' {
        s.skip(1)
    } else {
        s
    };
    if t.len() > 0 && all_digits(t) && number(t) <= max {
        Some(number(t))
    } else {
        None
    }
}

/// The decimal digits of `n`.
pub open spec fn digits_of(n: nat) -> Seq<char>
    decreases n,
{
    let last = ('0' as nat + n % 10) as char;
    if n < 10 {
        seq![last]
    } else {
        digits_of(n / 10).push(last)
    }
}

/// Trusted: `String::push` appends the given character to the string.
pub assume_specification[ String::push ](s: &mut String, ch: char)
    ensures
        final(s)@ == old(s)@.push(ch),
;

/// The characters of a string.
pub fn chars_of(s: &str) -> (r: Vec<char>)
    ensures
        r@ == s@,
{
    let mut r: Vec<char> = Vec::new();
    for c in it: s.chars()
        invariant
            it.seq() == s@,
            r@ == s@.take(it.index()),
    {
        r.push(c);
        assert(s@.take(it.index() + 1) == s@.take(it.index()).push(c));
    }
    assert(s@.take(s@.len() as int) == s@);
    r
}

/// Whether a character is blank.
pub fn blank(c: char) -> (r: bool)
    ensures
        r == is_blank(c),
{
    let n: u32 = c as u32;
    (0x09 <= n && n <= 0x0d) || n == 0x20 || n == 0x85 || n == 0xa0 || n == 0x1680 || (0x2000 <= n
        && n <= 0x200a) || n == 0x2028 || n == 0x2029 || n == 0x202f || n == 0x205f || n == 0x3000
}

/// Blanks at the start do not matter for what is trimmed there.
pub proof fn lemma_trim_start(s: Seq<char>, i: int)
    requires
        0 <= i <= s.len(),
        forall|j: int| 0 <= j < i ==> is_blank(#[trigger] s[j]),
    ensures
        trim_start(s) == trim_start(s.skip(i)),
    decreases i,
{
    if i > 0 {
        lemma_trim_start(s.skip(1), i - 1);
        assert(s.skip(1).skip(i - 1) == s.skip(i));
    } else {
        assert(s.skip(0) == s);
    }
}

/// Blanks at the end do not matter for what is trimmed there.
pub proof fn lemma_trim_end(s: Seq<char>, j: int)
    requires
        0 <= j <= s.len(),
        forall|k: int| j <= k < s.len() ==> is_blank(#[trigger] s[k]),
    ensures
        trim_end(s) == trim_end(s.take(j)),
    decreases s.len() - j,
{
    if j < s.len() {
        lemma_trim_end(s.drop_last(), j);
        assert(s.drop_last().take(j) == s.take(j));
    } else {
        assert(s.take(j) == s);
    }
}

/// Leaves out the blanks at both ends.
pub fn trimmed<'a>(s: &'a [char]) -> (r: &'a [char])
    ensures
        r@ == trim(s@),
{
    let mut i: usize = 0;
    while i < s.len() && blank(s[i])
        invariant
            i <= s.len(),
            forall|j: int| 0 <= j < i ==> is_blank(#[trigger] s[j]),
        decreases s.len() - i,
    {
        i = i + 1;
    }
    let mut j: usize = s.len();
    while i < j && blank(s[j - 1])
        invariant
            i <= j <= s.len(),
            forall|k: int| j <= k < s.len() ==> is_blank(#[trigger] s[k]),
        decreases j,
    {
        j = j - 1;
    }
    proof {
        lemma_trim_start(s@, i as int);
        let t = s@.skip(i as int);
        lemma_trim_end(t, j - i);
        assert(t.take(j - i) == s@.subrange(i as int, j as int));
    }
    slice_subrange(s, i, j)
}

/// The position is that of the first `c`.
pub proof fn lemma_position(s: Seq<char>, c: char)
    ensures
        0 <= position(s, c) <= s.len(),
        position(s, c) < s.len() ==> s[position(s, c)] == c,
        forall|i: int| 0 <= i < position(s, c) ==> s[i] != c,
    decreases s.len(),
{
    if s.len() > 0 && s[0] != c {
        lemma_position(s.skip(1), c);
        assert forall|i: int| 0 <= i < position(s, c) implies s[i] != c by {
            if i > 0 {
                assert(s[i] == s.skip(1)[i - 1]);
            }
        }
    }
}

/// The position is the only place with these properties.
pub proof fn lemma_position_unique(s: Seq<char>, c: char, p: int)
    requires
        0 <= p <= s.len(),
        p < s.len() ==> s[p] == c,
        forall|i: int| 0 <= i < p ==> s[i] != c,
    ensures
        position(s, c) == p,
{
    lemma_position(s, c);
}

/// Finds the first `c`.
pub fn find(s: &[char], c: char) -> (p: usize)
    ensures
        p == position(s@, c),
        p <= s.len(),
{
    let mut i: usize = 0;
    while i < s.len() && s[i] != c
        invariant
            i <= s.len(),
            forall|j: int| 0 <= j < i ==> s[j] != c,
        decreases s.len() - i,
    {
        i = i + 1;
    }
    proof {
        lemma_position_unique(s@, c, i as int);
    }
    i
}

/// Splits at the first `c`.
pub fn cut<'a>(s: &'a [char], c: char) -> (r: Option<(&'a [char], &'a [char])>)
    ensures
        match r {
            Some(parts) => split_once(s@, c) == Some((parts.0@, parts.1@)),
            None => split_once(s@, c) is None,
        },
{
    let p = find(s, c);
    if p < s.len() {
        let a = slice_subrange(s, 0, p);
        let b = slice_subrange(s, p + 1, s.len());
        assert(b@ == s@.skip(p + 1));
        Some((a, b))
    } else {
        None
    }
}

/// Splits at every `c`.
pub fn parts<'a>(s: &'a [char], c: char) -> (r: Vec<&'a [char]>)
    ensures
        r.len() == split(s@, c).len(),
        forall|i: int| 0 <= i < r.len() ==> (#[trigger] r[i])@ == split(s@, c)[i],
{
    let mut r: Vec<&'a [char]> = Vec::new();
    let mut rest: &'a [char] = s;
    let mut more = true;
    while more
        invariant
            more ==> r.len() + split(rest@, c).len() == split(s@, c).len(),
            more ==> forall|i: int|
                0 <= i < split(rest@, c).len() ==> #[trigger] split(rest@, c)[i] == split(s@, c)[i
                    + r.len()],
            !more ==> r.len() == split(s@, c).len(),
            r.len() <= split(s@, c).len(),
            forall|i: int| 0 <= i < r.len() ==> (#[trigger] r[i])@ == split(s@, c)[i],
        decreases rest.len() + (if more { 1int } else { 0 }),
    {
        let ghost n = r.len() as int;
        let ghost whole = split(rest@, c);
        match cut(rest, c) {
            Some((a, b)) => {
                proof {
                    reveal(split);
                    lemma_position(rest@, c);
                    assert(whole == seq![a@] + split(b@, c));
                    assert(whole[0] == split(s@, c)[n]);
                    assert forall|i: int| 0 <= i < split(b@, c).len() implies #[trigger] split(
                        b@,
                        c,
                    )[i] == split(s@, c)[i + n + 1] by {
                        assert(whole[i + 1] == split(s@, c)[i + 1 + n]);
                    }
                }
                r.push(a);
                rest = b;
            },
            None => {
                proof {
                    reveal(split);
                    lemma_position(rest@, c);
                    assert(whole == seq![rest@]);
                    assert(whole[0] == split(s@, c)[n]);
                }
                r.push(rest);
                more = false;
            },
        }
    }
    r
}

/// A word ends at a blank or with the text, and holds no blank.
pub proof fn lemma_word_len(s: Seq<char>)
    ensures
        0 <= word_len(s) <= s.len(),
        word_len(s) < s.len() ==> is_blank(s[word_len(s)]),
        forall|i: int| 0 <= i < word_len(s) ==> !is_blank(#[trigger] s[i]),
    decreases s.len(),
{
    if s.len() > 0 && !is_blank(s[0]) {
        lemma_word_len(s.skip(1));
        assert forall|i: int| 0 <= i < word_len(s) implies !is_blank(#[trigger] s[i]) by {
            if i > 0 {
                assert(s[i] == s.skip(1)[i - 1]);
            }
        }
    }
}

/// Takes the first word off.
pub fn take_word<'a>(s: &'a [char]) -> (r: Option<(&'a [char], &'a [char])>)
    ensures
        match r {
            Some(parts) => next_word(s@) == Some((parts.0@, parts.1@)) && parts.1.len() < s.len(),
            None => next_word(s@) is None,
        },
{
    let mut i: usize = 0;
    while i < s.len() && blank(s[i])
        invariant
            i <= s.len(),
            forall|j: int| 0 <= j < i ==> is_blank(#[trigger] s[j]),
        decreases s.len() - i,
    {
        i = i + 1;
    }
    let mut k: usize = i;
    while k < s.len() && !blank(s[k])
        invariant
            i <= k <= s.len(),
            forall|j: int| i <= j < k ==> !is_blank(#[trigger] s[j]),
        decreases s.len() - k,
    {
        k = k + 1;
    }
    proof {
        lemma_trim_start(s@, i as int);
        let t = s@.skip(i as int);
        assert(trim_start(t) == t);
        lemma_word_len(t);
        assert(word_len(t) == k - i) by {
            if word_len(t) < k - i {
                assert(!is_blank(s[i + word_len(t)]));
            } else if word_len(t) > k - i {
                assert(is_blank(t[k - i]));
            }
        }
        assert(t.take(k - i) == s@.subrange(i as int, k as int));
        assert(t.skip(k - i) == s@.subrange(k as int, s@.len() as int));
    }
    if i == s.len() {
        None
    } else {
        Some((slice_subrange(s, i, k), slice_subrange(s, k, s.len())))
    }
}

/// Whether `s` starts with `prefix`.
pub fn starts_with(s: &[char], prefix: &[char]) -> (r: bool)
    ensures
        r == prefix@.is_prefix_of(s@),
{
    if s.len() < prefix.len() {
        return false;
    }
    let mut i: usize = 0;
    while i < prefix.len()
        invariant
            i <= prefix.len() <= s.len(),
            forall|j: int| 0 <= j < i ==> s[j] == prefix[j],
        decreases prefix.len() - i,
    {
        if s[i] != prefix[i] {
            assert(s@.subrange(0, prefix@.len() as int)[i as int] != prefix@[i as int]);
            return false;
        }
        i = i + 1;
    }
    assert(s@.subrange(0, prefix@.len() as int) == prefix@);
    true
}

/// Leaves out the repetitions of `prefix` at the start.
pub fn without_prefixes<'a>(s: &'a [char], prefix: &[char]) -> (r: &'a [char])
    ensures
        r@ == strip_all(s@, prefix@),
{
    let mut rest: &'a [char] = s;
    while prefix.len() > 0 && starts_with(rest, prefix)
        invariant
            strip_all(rest@, prefix@) == strip_all(s@, prefix@),
        decreases rest.len(),
    {
        let next = slice_subrange(rest, prefix.len(), rest.len());
        assert(next@ == rest@.skip(prefix@.len() as int));
        rest = next;
    }
    rest
}

/// Leaves out the repetitions of `c` at the end.
pub fn without_last<'a>(s: &'a [char], c: char) -> (r: &'a [char])
    ensures
        r@ == strip_end(s@, c),
{
    let mut j: usize = s.len();
    assert(s@.take(j as int) == s@);
    while j > 0 && s[j - 1] == c
        invariant
            j <= s.len(),
            strip_end(s@.take(j as int), c) == strip_end(s@, c),
        decreases j,
    {
        assert(s@.take(j as int).drop_last() == s@.take(j - 1));
        j = j - 1;
    }
    slice_subrange(s, 0, j)
}

/// Whether a character is a decimal digit.
pub fn digit_char(c: char) -> (r: bool)
    ensures
        r == is_digit(c),
{
    '0' <= c && c <= '9'
}

/// Digits only add to a number.
pub proof fn lemma_number_prefix(s: Seq<char>, i: int)
    requires
        0 <= i <= s.len(),
        all_digits(s),
    ensures
        0 <= number(s.take(i)) <= number(s),
    decreases s.len() - i,
{
    if i < s.len() {
        lemma_number_prefix(s, i + 1);
        assert(s.take(i + 1).drop_last() == s.take(i));
        assert(is_digit(s[i]));
        lemma_number_nonnegative(s.take(i));
    } else {
        assert(s.take(i) == s);
        lemma_number_nonnegative(s);
    }
}

/// Digits make up a number that is not negative.
pub proof fn lemma_number_nonnegative(s: Seq<char>)
    requires
        all_digits(s),
    ensures
        0 <= number(s),
    decreases s.len(),
{
    if s.len() > 0 {
        assert(is_digit(s.last()));
        assert(all_digits(s.drop_last())) by {
            assert forall|i: int| 0 <= i < s.drop_last().len() implies is_digit(
                #[trigger] s.drop_last()[i],
            ) by {
                assert(is_digit(s[i]));
            }
        }
        lemma_number_nonnegative(s.drop_last());
    }
}

/// Reads an unsigned number of at most `max`.
pub fn parse_unsigned(s: &[char], max: u64) -> (r: Option<u64>)
    ensures
        match r {
            Some(n) => unsigned(s@, max as int) == Some(n as int),
            None => unsigned(s@, max as int) is None,
        },
{
    let t = if s.len() > 0 && s[0] == '+' {
        let u = slice_subrange(s, 1, s.len());
        assert(u@ == s@.skip(1));
        u
    } else {
        s
    };
    if t.len() == 0 {
        return None;
    }
    let mut n: u64 = 0;
    let mut i: usize = 0;
    while i < t.len()
        invariant
            i <= t.len(),
            n <= max,
            n == number(t@.take(i as int)),
            all_digits(t@.take(i as int)),
            t@.len() > 0,
            unsigned(s@, max as int) == (if all_digits(t@) && number(t@) <= max {
                Some(number(t@))
            } else {
                None
            }),
        decreases t.len() - i,
    {
        let c = t[i];
        if !digit_char(c) {
            return None;
        }
        proof {
            assert(t@.take(i + 1).drop_last() == t@.take(i as int));
            assert forall|j: int| 0 <= j < i + 1 implies is_digit(#[trigger] t@.take(i + 1)[j]) by {
                if j < i {
                    assert(is_digit(t@.take(i as int)[j]));
                }
            }
            if all_digits(t@) {
                lemma_number_prefix(t@, i + 1);
            }
        }
        let d: u64 = (c as u32 - '0' as u32) as u64;
        let m: u128 = n as u128 * 10 + d as u128;
        if m > max as u128 {
            return None;
        }
        n = m as u64;
        i = i + 1;
    }
    assert(t@.take(t@.len() as int) == t@);
    Some(n)
}

/// The character of a digit is the one at its place among the digits.
proof fn lemma_digit(d: nat)
    requires
        d < 10,
    ensures
        ('0' as nat + d) as char == "0123456789"@[d as int],
{
    reveal_strlit("0123456789");
}

/// Appends the decimal digits of a number.
pub fn push_number(s: &mut String, n: u32)
    ensures
        final(s)@ == old(s)@ + digits_of(n as nat),
    decreases n,
{
    proof {
        reveal_strlit("0123456789");
        lemma_digit((n % 10) as nat);
    }
    let last = "0123456789".get_char((n % 10) as usize);
    if n >= 10 {
        push_number(s, n / 10);
    }
    s.push(last);
}

} // verus!
