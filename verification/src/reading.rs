//! What is written out is read back.

use crate::binary64::lemma_nearest_integer;
use crate::channel::{
    channel, clamped, lemma_level_monotone, level, percent_level, ChannelError,
};
use crate::decimal::{after_sign, digit_run, exp10, is_letter, literal, magnitude, Literal};
use crate::dump::{
    body, color, color_of, color_word, dump_pixels, inside, lemma_all_readable, lemma_readable_before,
    line_end, opens_color, pixel, pixels, readable, Pixel,
};
use crate::probe::{delays, delays_on, dimensions};
use crate::text::{
    all_digits, digit, digits_of, is_blank, is_digit, lemma_position_unique, lemma_word_len,
    next_word, number, position, split, split_once, strip_all, strip_end, trim, trim_start,
    unsigned, word_len,
};
use vstd::prelude::*;
use vstd::utf8::{encode_utf8, encode_utf8_decode_utf8, encode_utf8_valid_utf8, valid_utf8};

verus! {

/// The digits of a number write it out.
pub proof fn lemma_digits(n: nat)
    ensures
        digits_of(n).len() > 0,
        all_digits(digits_of(n)),
        number(digits_of(n)) == n,
    decreases n,
{
    let d = digits_of(n);
    let last = ('0' as nat + n % 10) as char;
    assert(is_digit(last) && digit(last) == n % 10);
    if n >= 10 {
        lemma_digits(n / 10);
        let rest = digits_of(n / 10);
        assert(d.drop_last() == rest);
        assert forall|i: int| 0 <= i < d.len() implies is_digit(#[trigger] d[i]) by {
            if i < rest.len() {
                assert(d[i] == rest[i]);
            }
        }
    } else {
        assert(d.drop_last() == Seq::<char>::empty());
        assert(number(Seq::<char>::empty()) == 0);
    }
}

/// A number that is written out in digits is read back, if it is not too large.
pub proof fn lemma_unsigned(n: nat, max: int)
    requires
        n <= max,
    ensures
        unsigned(digits_of(n), max) == Some(n as int),
{
    lemma_digits(n);
    assert(is_digit(digits_of(n)[0]));
}

/// Text that neither starts nor ends with a blank is not changed by trimming.
pub proof fn lemma_trim_keeps(s: Seq<char>)
    requires
        s.len() > 0 ==> !is_blank(s[0]) && !is_blank(s.last()),
    ensures
        trim(s) == s,
{
}

/// Text without `c`, then `c`, then more: split at that `c`.
pub proof fn lemma_split_once(a: Seq<char>, c: char, b: Seq<char>)
    requires
        forall|i: int| 0 <= i < a.len() ==> a[i] != c,
    ensures
        position(a + seq![c] + b, c) == a.len(),
        split_once(a + seq![c] + b, c) == Some((a, b)),
        split(a + seq![c] + b, c) == seq![a] + split(b, c),
{
    reveal(split);
    let s = a + seq![c] + b;
    assert forall|i: int| 0 <= i < a.len() implies s[i] != c by {
        assert(s[i] == a[i]);
    }
    assert(s[a.len() as int] == c);
    lemma_position_unique(s, c, a.len() as int);
    assert(s.take(a.len() as int) == a);
    assert(s.skip(a.len() as int + 1) == b);
}

/// Text without `c` is one part.
pub proof fn lemma_split_whole(a: Seq<char>, c: char)
    requires
        forall|i: int| 0 <= i < a.len() ==> a[i] != c,
    ensures
        split(a, c) == seq![a],
{
    reveal(split);
    lemma_position_unique(a, c, a.len() as int);
}

/// A blank, a word and what follows: the word is the next one.
pub proof fn lemma_next_word_is(blank: char, w: Seq<char>, rest: Seq<char>)
    requires
        is_blank(blank),
        w.len() > 0,
        forall|i: int| 0 <= i < w.len() ==> !is_blank(#[trigger] w[i]),
        rest.len() > 0 ==> is_blank(rest[0]),
    ensures
        next_word(seq![blank] + w + rest) == Some((w, rest)),
        next_word(w + rest) == Some((w, rest)),
{
    let t = w + rest;
    let s = seq![blank] + w + rest;
    assert(s.skip(1) == t);
    assert(!is_blank(t[0])) by {
        assert(t[0] == w[0]);
    }
    assert(trim_start(t) == t);
    assert(trim_start(s) == t);
    lemma_word_len(t);
    assert(word_len(t) == w.len()) by {
        if word_len(t) < w.len() {
            assert(t[word_len(t)] == w[word_len(t)]);
        } else if word_len(t) > w.len() {
            assert(t[w.len() as int] == rest[0]);
            assert(is_blank(t[w.len() as int]));
        }
    }
    assert(t.take(w.len() as int) == w);
    assert(t.skip(w.len() as int) == rest);
}

/// Digits are one run.
proof fn lemma_digit_run(s: Seq<char>)
    requires
        all_digits(s),
    ensures
        digit_run(s) == s.len(),
    decreases s.len(),
{
    if s.len() > 0 {
        assert(is_digit(s[0]));
        assert forall|i: int| 0 <= i < s.skip(1).len() implies is_digit(
            #[trigger] s.skip(1)[i],
        ) by {
            assert(is_digit(s[i + 1]));
        }
        lemma_digit_run(s.skip(1));
    }
}

/// Digits are a literal.
pub proof fn lemma_literal(s: Seq<char>)
    requires
        s.len() > 0,
        all_digits(s),
    ensures
        literal(s) == Some(Literal::Finite { negative: false, digits: s, exponent: 0 }),
{
    assert(is_digit(s[0]));
    assert(after_sign(s) == (false, s));
    reveal_strlit("inf");
    reveal_strlit("infinity");
    reveal_strlit("nan");
    assert(!is_letter(s[0], 'i') && !is_letter(s[0], 'n'));
    lemma_digit_run(s);
    assert(s.take(s.len() as int) + s.subrange(s.len() as int, s.len() as int) == s);
}

/// A level that is written out in digits is read back; a larger number is read as the largest
/// level.
pub proof fn lemma_channel(n: nat)
    ensures
        channel(digits_of(n)) == Ok::<u8, ChannelError>(
            if n < 255 {
                n as u8
            } else {
                255u8
            },
        ),
{
    let s = digits_of(n);
    lemma_digits(n);
    assert(is_digit(s[0]) && is_digit(s.last()));
    lemma_trim_keeps(s);
    lemma_literal(s);
    let x = n as real;
    assert(magnitude(s, 0) == x) by {
        assert(exp10(0) == 1real);
        assert(x * 1real == x);
    }
    let k: int = if n < 255 {
        n as int
    } else {
        255
    };
    lemma_nearest_integer(k);
    assert((k as real + 1real / 2real).floor() == k);
    lemma_level_monotone(k as real, x);
}

/// What starts with a character that is not blank still starts with it after trimming.
proof fn lemma_trim_end_keeps_start(s: Seq<char>)
    requires
        s.len() > 0,
        !is_blank(s[0]),
    ensures
        trim(s).len() > 0,
        trim(s)[0] == s[0],
    decreases s.len(),
{
    if is_blank(s.last()) {
        lemma_trim_end_keeps_start(s.drop_last());
        assert(trim_start(s.drop_last()) == s.drop_last());
    }
}

/// A literal with a minus sign has level 0.
proof fn lemma_negative_literal(s: Seq<char>, percent: bool)
    requires
        s.len() > 0,
        s[0] == '-',
    ensures
        literal(s) matches Some(l) ==> level(l, percent) == 0,
{
}

/// Whatever starts with a minus sign and can be read is read as level 0.
pub proof fn lemma_negative_channel(s: Seq<char>)
    requires
        trim(s).len() > 0,
        trim(s)[0] == '-',
    ensures
        channel(s) matches Ok(n) ==> n == 0,
{
    let t = trim(s);
    lemma_negative_literal(t, false);
    if t.last() == '%' {
        let u = t.drop_last();
        assert(u.len() > 0 && u[0] == '-');
        lemma_trim_end_keeps_start(u);
        lemma_negative_literal(trim(u), true);
    }
}

/// Text that is fit for a channel: it is not empty and holds neither blanks, commas, nor what
/// opens or closes a colour.
pub open spec fn plain(s: Seq<char>) -> bool {
    &&& s.len() > 0
    &&& forall|i: int|
        0 <= i < s.len() ==> !is_blank(#[trigger] s[i]) && s[i] != ',' && s[i] != 's' && s[i] != ')'
}

/// Three channels.
pub open spec fn listed(r: Seq<char>, g: Seq<char>, b: Seq<char>) -> Seq<char> {
    r + seq![','] + (g + seq![','] + b)
}

/// A colour of three channels.
pub open spec fn opaque_color(r: Seq<char>, g: Seq<char>, b: Seq<char>) -> Seq<char> {
    "srgb("@ + listed(r, g, b) + seq![')']
}

/// A colour of three channels and an opacity.
pub open spec fn clear_color(r: Seq<char>, g: Seq<char>, b: Seq<char>, a: Seq<char>) -> Seq<char> {
    "srgba("@ + (listed(r, g, b) + seq![','] + a) + seq![')']
}

/// Text without a comma.
spec fn unbroken(s: Seq<char>) -> bool {
    forall|i: int| 0 <= i < s.len() ==> s[i] != ','
}

/// A closing bracket is taken off, and nothing else.
proof fn lemma_strip_end(s: Seq<char>, c: char)
    requires
        s.len() > 0 ==> s.last() != c,
    ensures
        strip_end(s + seq![c], c) == s,
{
    assert((s + seq![c]).drop_last() == s);
    assert(strip_end(s, c) == s);
}

/// What does not start with an `s` does not start with a colour.
proof fn lemma_no_prefix(s: Seq<char>)
    requires
        s.len() > 0,
        s[0] != 's',
    ensures
        strip_all(s, "srgb("@) == s,
        strip_all(s, "srgba("@) == s,
{
    reveal_strlit("srgb(");
    reveal_strlit("srgba(");
    let (x, y) = ("srgb("@, "srgba("@);
    if x.is_prefix_of(s) {
        assert(s.subrange(0, 5)[0] == x[0]);
    }
    if y.is_prefix_of(s) {
        assert(s.subrange(0, 6)[0] == y[0]);
    }
}

/// What stands between the brackets of a colour is found.
proof fn lemma_inside(l: Seq<char>)
    requires
        l.len() > 0,
        l[0] != 's',
        l.last() != ')',
    ensures
        inside("srgb("@ + l + seq![')']) == l,
        inside("srgba("@ + l + seq![')']) == l,
{
    let u = l + seq![')'];
    assert(u[0] == l[0]);
    lemma_no_prefix(u);
    lemma_strip_end(l, ')');
    reveal_strlit("srgb(");
    reveal_strlit("srgba(");
    let (x, y) = ("srgb("@, "srgba("@);

    let t = x + l + seq![')'];
    assert(t[4] == '(');
    assert(!y.is_prefix_of(t)) by {
        assert(t.subrange(0, 6)[4] != y[4]);
    }
    assert(t.skip(5) == u);
    assert(t.subrange(0, 5) == x);
    assert(strip_all(t, x) == u);

    let v = y + l + seq![')'];
    assert(v.skip(6) == u);
    assert(v.subrange(0, 6) == y);
    assert(strip_all(v, y) == u);
}

/// Three channels are told apart.
proof fn lemma_split_three(r: Seq<char>, g: Seq<char>, b: Seq<char>)
    requires
        unbroken(r),
        unbroken(g),
        unbroken(b),
    ensures
        split(listed(r, g, b), ',') == seq![r, g, b],
{
    lemma_split_whole(b, ',');
    lemma_split_once(g, ',', b);
    lemma_split_once(r, ',', g + seq![','] + b);
    assert(seq![r] + (seq![g] + seq![b]) == seq![r, g, b]);
}

/// Three channels are told apart from one another and from the opacity.
proof fn lemma_split_four(r: Seq<char>, g: Seq<char>, b: Seq<char>, a: Seq<char>)
    requires
        unbroken(r),
        unbroken(g),
        unbroken(b),
        unbroken(a),
    ensures
        split(listed(r, g, b) + seq![','] + a, ',') == seq![r, g, b, a],
{
    let tail = listed(g, b, a);
    lemma_split_three(g, b, a);
    lemma_split_once(r, ',', tail);
    assert(listed(r, g, b) + seq![','] + a == r + seq![','] + tail);
    assert(seq![r] + seq![g, b, a] == seq![r, g, b, a]);
}

/// A colour is read as the first three parts of what stands between its brackets.
proof fn lemma_read_color(l: Seq<char>, r: Seq<char>, g: Seq<char>, b: Seq<char>)
    requires
        l.len() > 0,
        l[0] != 's',
        l.last() != ')',
        split(l, ',').len() >= 3,
        split(l, ',')[0] == r,
        split(l, ',')[1] == g,
        split(l, ',')[2] == b,
    ensures
        color("srgb("@ + l + seq![')']) == color_of(r, g, b),
        color("srgba("@ + l + seq![')']) == color_of(r, g, b),
{
    lemma_inside(l);
}

/// A colour is read as its first three channels, in whatever form each is written; the opacity
/// does not matter.
pub proof fn lemma_color(r: Seq<char>, g: Seq<char>, b: Seq<char>, a: Seq<char>)
    requires
        plain(r),
        plain(g),
        plain(b),
        plain(a),
    ensures
        color(opaque_color(r, g, b)) == color_of(r, g, b),
        color(clear_color(r, g, b, a)) == color_of(r, g, b),
{
    let l = listed(r, g, b);
    let m = l + seq![','] + a;
    assert(l[0] == r[0] && m[0] == r[0]);
    assert(l.last() == b.last() && m.last() == a.last());
    lemma_split_three(r, g, b);
    lemma_read_color(l, r, g, b);
    lemma_split_four(r, g, b, a);
    lemma_read_color(m, r, g, b);
}

/// Text without blanks.
pub open spec fn solid(s: Seq<char>) -> bool {
    forall|i: int| 0 <= i < s.len() ==> !is_blank(#[trigger] s[i])
}

/// Words, each after a blank; a word may be empty.
pub open spec fn spaced(words: Seq<(char, Seq<char>)>) -> Seq<char>
    decreases words.len(),
{
    if words.len() == 0 {
        Seq::empty()
    } else {
        seq![words[0].0] + words[0].1 + spaced(words.skip(1))
    }
}

/// Words of which none starts a colour.
pub open spec fn colorless(words: Seq<(char, Seq<char>)>) -> bool {
    forall|i: int|
        0 <= i < words.len() ==> is_blank((#[trigger] words[i]).0) && solid(words[i].1)
            && !opens_color(words[i].1)
}

/// The first word that starts a colour is found behind others.
proof fn lemma_color_word(words: Seq<(char, Seq<char>)>, blank: char, token: Seq<char>)
    requires
        colorless(words),
        is_blank(blank),
        solid(token),
        opens_color(token),
    ensures
        color_word(spaced(words) + (seq![blank] + token)) == Some(token),
    decreases words.len(),
{
    let end = seq![blank] + token;
    if words.len() == 0 {
        assert(token.len() > 0) by {
            reveal_strlit("srgb(");
            reveal_strlit("srgba(");
        }
        assert(spaced(words) + end == seq![blank] + token + Seq::<char>::empty());
        lemma_next_word_is(blank, token, Seq::empty());
    } else {
        let (sep, w) = words[0];
        let rest = spaced(words.skip(1)) + end;
        assert forall|i: int| 0 <= i < words.skip(1).len() implies is_blank(
            (#[trigger] words.skip(1)[i]).0,
        ) && solid(words.skip(1)[i].1) && !opens_color(words.skip(1)[i].1) by {
            assert(words.skip(1)[i] == words[i + 1]);
        }
        lemma_color_word(words.skip(1), blank, token);
        assert(is_blank(rest[0])) by {
            if words.len() > 1 {
                assert(words.skip(1)[0] == words[1]);
                assert(rest[0] == words[1].0);
            } else {
                assert(rest[0] == blank);
            }
        }
        let s = spaced(words) + end;
        if w.len() > 0 {
            assert(s == seq![sep] + w + rest);
            lemma_next_word_is(sep, w, rest);
        } else {
            assert(s == seq![sep] + rest);
            assert(s.skip(1) == rest);
            assert(next_word(s) == next_word(rest));
        }
    }
}

/// A line of a dump: a place, words of which none starts a colour, and a colour.
pub open spec fn line_of(
    x: nat,
    y: nat,
    words: Seq<(char, Seq<char>)>,
    blank: char,
    token: Seq<char>,
) -> Seq<char> {
    digits_of(x) + seq![','] + digits_of(y) + seq![':'] + (spaced(words) + (seq![blank] + token))
}

/// A line of a dump is read as the row and the colour that it gives, whatever else it holds.
pub proof fn lemma_pixel(
    x: nat,
    y: nat,
    words: Seq<(char, Seq<char>)>,
    blank: char,
    token: Seq<char>,
    max: u64,
)
    requires
        y <= max,
        colorless(words),
        is_blank(blank),
        solid(token),
        opens_color(token),
    ensures
        pixel(line_of(x, y, words, blank, token), max) == (match color(token) {
            Some((r, g, b)) => Some(Pixel { y: y as u64, r, g, b }),
            None => None,
        }),
{
    let (a, b) = (digits_of(x), digits_of(y));
    let rest = spaced(words) + (seq![blank] + token);
    let place = a + seq![','] + b;
    let line = line_of(x, y, words, blank, token);
    lemma_digits(x);
    lemma_digits(y);
    assert(token.len() > 0) by {
        reveal_strlit("srgb(");
        reveal_strlit("srgba(");
    }
    assert(line[0] == a[0]);
    assert(is_digit(a[0]));
    assert(line.last() == token.last());
    assert(!is_blank(token.last()));
    lemma_trim_keeps(line);
    assert forall|i: int| 0 <= i < place.len() implies place[i] != ':' by {
        if i < a.len() {
            assert(place[i] == a[i] && is_digit(a[i]));
        } else if i > a.len() {
            assert(place[i] == b[i - a.len() - 1] && is_digit(b[i - a.len() - 1]));
        }
    }
    lemma_split_once(place, ':', rest);
    assert(line == place + seq![':'] + rest);
    assert forall|i: int| 0 <= i < a.len() implies a[i] != ',' by {
        assert(is_digit(a[i]));
    }
    lemma_split_once(a, ',', b);
    assert(is_digit(b[0]) && is_digit(b.last()));
    lemma_trim_keeps(b);
    lemma_unsigned(y, max as int);
    lemma_color_word(words, blank, token);
}

/// Lines are read one after the other.
proof fn lemma_pixels_front(line: Seq<char>, rest: Seq<Seq<char>>, max: u64)
    ensures
        pixels(seq![line] + rest, max) == (match pixel(line, max) {
            Some(p) => seq![p] + pixels(rest, max),
            None => pixels(rest, max),
        }),
    decreases rest.len(),
{
    let all = seq![line] + rest;
    let first = match pixel(line, max) {
        Some(p) => seq![p],
        None => Seq::empty(),
    };
    if rest.len() == 0 {
        assert(all.drop_last() == Seq::<Seq<char>>::empty());
        assert(all.last() == line);
        assert(pixels(all.drop_last(), max) == Seq::<Pixel>::empty());
        assert(pixels(all, max) == first + pixels(rest, max));
    } else {
        lemma_pixels_front(line, rest.drop_last(), max);
        assert(all.drop_last() == seq![line] + rest.drop_last());
        assert(all.last() == rest.last());
        let before = pixels(rest.drop_last(), max);
        assert(pixels(all.drop_last(), max) == first + before);
        match pixel(rest.last(), max) {
            Some(p) => {
                assert((first + before).push(p) == first + before.push(p));
            },
            None => {},
        }
        assert(pixels(all, max) == first + pixels(rest, max));
    }
}

/// The colour of a pixel, in digits.
pub open spec fn token_of(p: Pixel) -> Seq<char> {
    opaque_color(digits_of(p.r as nat), digits_of(p.g as nat), digits_of(p.b as nat))
}

/// The lines for pixels, each with a column of its own, and with words of one's own before each
/// colour.
pub open spec fn written(
    ps: Seq<Pixel>,
    xs: Seq<nat>,
    words: spec_fn(Pixel) -> Seq<(char, Seq<char>)>,
) -> Seq<char>
    decreases ps.len(),
{
    if ps.len() == 0 {
        Seq::empty()
    } else {
        line_of(xs[0], ps[0].y as nat, words(ps[0]), ' ', token_of(ps[0])) + seq!['\n'] + written(
            ps.skip(1),
            xs.skip(1),
            words,
        )
    }
}

/// No line break stands between the words.
pub open spec fn on_one_line(words: Seq<(char, Seq<char>)>) -> bool {
    forall|i: int| 0 <= i < words.len() ==> (#[trigger] words[i]).0 != '\n'
}

/// The digits of a level are fit for a channel.
proof fn lemma_level_is_plain(n: nat)
    ensures
        plain(digits_of(n)),
{
    lemma_digits(n);
    let s = digits_of(n);
    assert forall|i: int| 0 <= i < s.len() implies !is_blank(#[trigger] s[i]) && s[i] != ',' && s[i]
        != 's' && s[i] != ')' by {
        assert(is_digit(s[i]));
    }
}

/// Text joined of pieces without blanks has none.
proof fn lemma_solid_joined(a: Seq<char>, b: Seq<char>)
    requires
        solid(a),
        solid(b),
    ensures
        solid(a + b),
{
    let s = a + b;
    assert forall|i: int| 0 <= i < s.len() implies !is_blank(#[trigger] s[i]) by {
        if i < a.len() {
            assert(s[i] == a[i]);
        } else {
            assert(s[i] == b[i - a.len()]);
        }
    }
}

/// A colour is one word, and starts as a colour does.
proof fn lemma_opaque_color(r: Seq<char>, g: Seq<char>, b: Seq<char>)
    requires
        plain(r),
        plain(g),
        plain(b),
    ensures
        solid(opaque_color(r, g, b)),
        opens_color(opaque_color(r, g, b)),
{
    let (x, comma, end) = ("srgb("@, seq![','], seq![')']);
    reveal_strlit("srgb(");
    assert(solid(x) && solid(comma) && solid(end));
    assert(solid(r) && solid(g) && solid(b));
    lemma_solid_joined(g, comma);
    lemma_solid_joined(g + comma, b);
    lemma_solid_joined(r, comma);
    lemma_solid_joined(r + comma, g + comma + b);
    lemma_solid_joined(x, listed(r, g, b));
    lemma_solid_joined(x + listed(r, g, b), end);
    assert(opaque_color(r, g, b).subrange(0, 5) == x);
}

/// The channels of a colour are read back.
proof fn lemma_levels(r: u8, g: u8, b: u8)
    ensures
        color_of(digits_of(r as nat), digits_of(g as nat), digits_of(b as nat)) == Some((r, g, b)),
{
    let (x, y, z) = (
        channel(digits_of(r as nat)),
        channel(digits_of(g as nat)),
        channel(digits_of(b as nat)),
    );
    assert(x == Ok::<u8, ChannelError>(r)) by {
        lemma_channel(r as nat);
    }
    assert(y == Ok::<u8, ChannelError>(g)) by {
        lemma_channel(g as nat);
    }
    assert(z == Ok::<u8, ChannelError>(b)) by {
        lemma_channel(b as nat);
    }
    reveal(color_of);
}

/// The colour of a pixel is read back.
proof fn lemma_token(p: Pixel)
    ensures
        color(token_of(p)) == Some((p.r, p.g, p.b)),
        solid(token_of(p)),
        opens_color(token_of(p)),
{
    let (r, g, b) = (digits_of(p.r as nat), digits_of(p.g as nat), digits_of(p.b as nat));
    lemma_level_is_plain(p.r as nat);
    lemma_level_is_plain(p.g as nat);
    lemma_level_is_plain(p.b as nat);
    lemma_levels(p.r, p.g, p.b);
    lemma_opaque_color(r, g, b);
    lemma_color(r, g, b, r);
}

/// Words on one line hold no line break.
proof fn lemma_spaced_on_one_line(words: Seq<(char, Seq<char>)>)
    requires
        colorless(words),
        on_one_line(words),
    ensures
        forall|i: int| 0 <= i < spaced(words).len() ==> #[trigger] spaced(words)[i] != '\n',
    decreases words.len(),
{
    if words.len() > 0 {
        let (sep, w) = words[0];
        let tail = words.skip(1);
        assert forall|i: int| 0 <= i < tail.len() implies is_blank((#[trigger] tail[i]).0) && solid(
            tail[i].1,
        ) && !opens_color(tail[i].1) && tail[i].0 != '\n' by {
            assert(tail[i] == words[i + 1]);
        }
        lemma_spaced_on_one_line(tail);
        let s = spaced(words);
        assert forall|i: int| 0 <= i < s.len() implies #[trigger] s[i] != '\n' by {
            if i == 0 {
                assert(s[i] == sep);
            } else if i < 1 + w.len() {
                assert(s[i] == w[i - 1]);
                assert(!is_blank(w[i - 1]));
            } else {
                assert(s[i] == spaced(tail)[i - 1 - w.len()]);
            }
        }
    }
}

/// A line holds no line break.
proof fn lemma_line_on_one_line(
    x: nat,
    y: nat,
    words: Seq<(char, Seq<char>)>,
    token: Seq<char>,
)
    requires
        colorless(words),
        on_one_line(words),
        solid(token),
    ensures
        forall|i: int|
            0 <= i < line_of(x, y, words, ' ', token).len() ==> #[trigger] line_of(
                x,
                y,
                words,
                ' ',
                token,
            )[i] != '\n',
{
    lemma_digits(x);
    lemma_digits(y);
    lemma_spaced_on_one_line(words);
    let (a, b, c) = (digits_of(x), digits_of(y), spaced(words));
    let line = line_of(x, y, words, ' ', token);
    let (k, l, m) = (a.len() as int, b.len() as int, c.len() as int);
    assert forall|i: int| 0 <= i < line.len() implies #[trigger] line[i] != '\n' by {
        if i < k {
            assert(line[i] == a[i] && is_digit(a[i]));
        } else if i == k {
            assert(line[i] == ',');
        } else if i < k + 1 + l {
            assert(line[i] == b[i - k - 1] && is_digit(b[i - k - 1]));
        } else if i == k + 1 + l {
            assert(line[i] == ':');
        } else if i < k + l + 2 + m {
            assert(line[i] == c[i - k - l - 2]);
        } else if i == k + l + 2 + m {
            assert(line[i] == ' ');
        } else {
            assert(line[i] == token[i - k - l - m - 3]);
            assert(!is_blank(token[i - k - l - m - 3]));
        }
    }
}

/// The lines for pixels are read back as those pixels.
pub proof fn lemma_pixels_read_back(
    ps: Seq<Pixel>,
    xs: Seq<nat>,
    words: spec_fn(Pixel) -> Seq<(char, Seq<char>)>,
    max: u64,
)
    requires
        forall|i: int| 0 <= i < ps.len() ==> (#[trigger] ps[i]).y <= max,
        forall|p: Pixel| colorless(#[trigger] words(p)) && on_one_line(words(p)),
    ensures
        pixels(split(written(ps, xs, words), '\n'), max) == ps,
    decreases ps.len(),
{
    if ps.len() == 0 {
        let none = Seq::<char>::empty();
        lemma_split_whole(none, '\n');
        assert(trim(none) == none);
        assert(seq![none].last() == none);
        assert(seq![none].drop_last() == Seq::<Seq<char>>::empty());
        assert(pixels(seq![none].drop_last(), max) == Seq::<Pixel>::empty());
    } else {
        let (p, tail) = (ps[0], ps.skip(1));
        assert forall|i: int| 0 <= i < tail.len() implies (#[trigger] tail[i]).y <= max by {
            assert(tail[i] == ps[i + 1]);
        }
        lemma_pixels_read_back(tail, xs.skip(1), words, max);
        let line = line_of(xs[0], p.y as nat, words(p), ' ', token_of(p));
        let rest = written(tail, xs.skip(1), words);
        lemma_token(p);
        lemma_line_on_one_line(xs[0], p.y as nat, words(p), token_of(p));
        lemma_split_once(line, '\n', rest);
        lemma_pixel(xs[0], p.y as nat, words(p), ' ', token_of(p), max);
        lemma_pixels_front(line, split(rest, '\n'), max);
        assert(seq![p] + tail == ps);
    }
}

/// A header is passed over, whatever it holds.
pub proof fn lemma_body(header: Seq<u8>, rest: Seq<u8>)
    requires
        forall|i: int| 0 <= i < header.len() ==> #[trigger] header[i] != 10,
    ensures
        body(header + seq![10u8] + rest) == rest,
        line_end(header + seq![10u8] + rest) == header.len(),
    decreases header.len(),
{
    let dump = header + seq![10u8] + rest;
    if header.len() > 0 {
        let tail = header.skip(1);
        assert forall|i: int| 0 <= i < tail.len() implies #[trigger] tail[i] != 10 by {
            assert(tail[i] == header[i + 1]);
        }
        lemma_body(tail, rest);
        assert(dump[0] == header[0]);
        assert(dump.skip(1) == tail + seq![10u8] + rest);
    } else {
        assert(dump[0] == 10);
    }
    assert(dump.skip(header.len() as int + 1) == rest);
}

/// A dump of pixels is read back as those pixels, whatever its header holds, and whatever words
/// stand between a place and a colour.
pub proof fn lemma_dump_read_back(
    header: Seq<u8>,
    ps: Seq<Pixel>,
    xs: Seq<nat>,
    words: spec_fn(Pixel) -> Seq<(char, Seq<char>)>,
    max: u64,
)
    requires
        forall|i: int| 0 <= i < header.len() ==> #[trigger] header[i] != 10,
        forall|i: int| 0 <= i < ps.len() ==> (#[trigger] ps[i]).y <= max,
        forall|p: Pixel| colorless(#[trigger] words(p)) && on_one_line(words(p)),
    ensures
        dump_pixels(header + seq![10u8] + encode_utf8(written(ps, xs, words)), max) == Some(ps),
{
    let text = written(ps, xs, words);
    lemma_body(header, encode_utf8(text));
    encode_utf8_valid_utf8(text);
    encode_utf8_decode_utf8(text);
    lemma_pixels_read_back(ps, xs, words, max);
}

/// A dump with a line that is not UTF-8 cannot be read as a whole; what can be read of it are the
/// lines before that line, whatever its header holds and whatever follows.
pub proof fn lemma_unreadable_line(
    header: Seq<u8>,
    good: Seq<u8>,
    bad: Seq<u8>,
    rest: Seq<u8>,
    max: u64,
)
    requires
        forall|i: int| 0 <= i < header.len() ==> #[trigger] header[i] != 10,
        valid_utf8(good),
        good.len() > 0 ==> good.last() == 10,
        !valid_utf8(bad),
        forall|i: int| 0 <= i < bad.len() ==> #[trigger] bad[i] != 10,
        rest.len() > 0 ==> rest[0] == 10,
    ensures
        dump_pixels(header + seq![10u8] + (good + bad + rest), max) is None,
        readable(body(header + seq![10u8] + (good + bad + rest))) == good,
{
    let all = good + bad + rest;
    lemma_body(header, all);
    lemma_readable_before(good, bad, rest);
    if valid_utf8(all) {
        lemma_all_readable(all);
        assert(bad.len() > 0);
        assert(all.len() > good.len());
    }
}

/// A report on delays: one on each line.
pub open spec fn delay_report(ds: Seq<u32>) -> Seq<char>
    decreases ds.len(),
{
    if ds.len() == 0 {
        Seq::empty()
    } else {
        digits_of(ds[0] as nat) + seq!['\n'] + delay_report(ds.skip(1))
    }
}

/// Delays are read one after the other.
proof fn lemma_delays_front(line: Seq<char>, rest: Seq<Seq<char>>)
    ensures
        delays_on(seq![line] + rest) == (match unsigned(trim(line), u32::MAX as int) {
            Some(n) => seq![n as u32] + delays_on(rest),
            None => delays_on(rest),
        }),
    decreases rest.len(),
{
    let all = seq![line] + rest;
    let first = match unsigned(trim(line), u32::MAX as int) {
        Some(n) => seq![n as u32],
        None => Seq::empty(),
    };
    if rest.len() == 0 {
        assert(all.drop_last() == Seq::<Seq<char>>::empty());
        assert(all.last() == line);
        assert(delays_on(all.drop_last()) == Seq::<u32>::empty());
        assert(delays_on(all) == first + delays_on(rest));
    } else {
        lemma_delays_front(line, rest.drop_last());
        assert(all.drop_last() == seq![line] + rest.drop_last());
        assert(all.last() == rest.last());
        let before = delays_on(rest.drop_last());
        assert(delays_on(all.drop_last()) == first + before);
        match unsigned(trim(rest.last()), u32::MAX as int) {
            Some(n) => {
                assert((first + before).push(n as u32) == first + before.push(n as u32));
            },
            None => {},
        }
        assert(delays_on(all) == first + delays_on(rest));
    }
}

/// Delays that are reported one on each line are read back.
pub proof fn lemma_delays_read_back(ds: Seq<u32>)
    ensures
        delays(delay_report(ds)) == ds,
    decreases ds.len(),
{
    if ds.len() == 0 {
        let none = Seq::<char>::empty();
        lemma_split_whole(none, '\n');
        assert(trim(none) == none);
        assert(seq![none].last() == none);
        assert(seq![none].drop_last() == Seq::<Seq<char>>::empty());
        assert(delays_on(seq![none].drop_last()) == Seq::<u32>::empty());
    } else {
        lemma_delays_read_back(ds.skip(1));
        let (line, rest) = (digits_of(ds[0] as nat), delay_report(ds.skip(1)));
        lemma_digits(ds[0] as nat);
        assert forall|i: int| 0 <= i < line.len() implies line[i] != '\n' by {
            assert(is_digit(line[i]));
        }
        assert(is_digit(line[0]) && is_digit(line.last()));
        lemma_trim_keeps(line);
        lemma_unsigned(ds[0] as nat, u32::MAX as int);
        lemma_split_once(line, '\n', rest);
        lemma_delays_front(line, split(rest, '\n'));
        assert(seq![ds[0]] + ds.skip(1) == ds);
    }
}

/// A width and a height that are reported with a blank between them are read back.
pub proof fn lemma_size_read_back(w: u32, h: u32)
    ensures
        dimensions(digits_of(w as nat) + seq![' '] + digits_of(h as nat)) == Ok::<
            (u32, u32),
            crate::probe::SizeError,
        >((w, h)),
{
    let (a, b) = (digits_of(w as nat), digits_of(h as nat));
    lemma_level_is_plain(w as nat);
    lemma_level_is_plain(h as nat);
    let rest = seq![' '] + b;
    assert(a + seq![' '] + b == a + rest);
    lemma_next_word_is(' ', a, rest);
    assert(rest == seq![' '] + b + Seq::<char>::empty());
    lemma_next_word_is(' ', b, Seq::empty());
    lemma_unsigned(w as nat, u32::MAX as int);
    lemma_unsigned(h as nat, u32::MAX as int);
}

/// A number with a fraction is read with all its digits.
pub proof fn lemma_fraction(whole: Seq<char>, part: Seq<char>)
    requires
        whole.len() > 0,
        all_digits(whole),
        all_digits(part),
    ensures
        literal(whole + seq!['.'] + part) == Some(
            Literal::Finite {
                negative: false,
                digits: whole + part,
                exponent: -(part.len() as int),
            },
        ),
{
    let t = whole + seq!['.'] + part;
    let n = whole.len() as int;
    assert(t[0] == whole[0] && is_digit(whole[0]));
    assert(after_sign(t) == (false, t));
    reveal_strlit("inf");
    reveal_strlit("infinity");
    reveal_strlit("nan");
    assert(!is_letter(t[0], 'i') && !is_letter(t[0], 'n'));
    lemma_digit_run_before(whole, seq!['.'] + part);
    assert(t == whole + (seq!['.'] + part));
    assert(t[n] == '.');
    assert(t.skip(n + 1) == part);
    lemma_digit_run(part);
    assert(t.take(n) == whole);
    assert(t.subrange(n + 1, n + 1 + part.len()) == part);
}

/// A run of digits ends where something else follows.
pub proof fn lemma_digit_run_before(s: Seq<char>, rest: Seq<char>)
    requires
        all_digits(s),
        rest.len() > 0 ==> !is_digit(rest[0]),
    ensures
        digit_run(s + rest) == s.len(),
    decreases s.len(),
{
    let t = s + rest;
    if s.len() > 0 {
        assert(t[0] == s[0] && is_digit(s[0]));
        assert forall|i: int| 0 <= i < s.skip(1).len() implies is_digit(
            #[trigger] s.skip(1)[i],
        ) by {
            assert(is_digit(s[i + 1]));
        }
        lemma_digit_run_before(s.skip(1), rest);
        assert(t.skip(1) == s.skip(1) + rest);
    } else {
        assert(t == rest);
    }
}

/// A percentage in digits is read as that share of 255.
pub proof fn lemma_percent_channel(n: nat)
    ensures
        channel(digits_of(n).push('%')) == Ok::<u8, ChannelError>(
            clamped(percent_level(n as real)),
        ),
{
    let s = digits_of(n);
    let t = s.push('%');
    lemma_digits(n);
    assert(is_digit(s[0]) && is_digit(s.last()));
    assert(t[0] == s[0]);
    lemma_trim_keeps(t);
    assert(t.drop_last() == s);
    lemma_trim_keeps(s);
    lemma_literal(s);
    let x = n as real;
    assert(magnitude(s, 0) == x) by {
        assert(exp10(0) == 1real);
        assert(x * 1real == x);
    }
}

} // verus!
