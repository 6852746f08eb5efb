//! What the lines of dumps and reports say, and which names are taken from a list, told from the
//! text itself.

use crate::channel::channel;
use crate::dump::{
    body, color, color_of, color_token, color_word, dump_pixels, inside, opens_color, pixel,
    pixels, Pixel,
};
use crate::names::{at_most, is_art, is_png, lemma_filter_multiset, selected, without, Kind};
use crate::probe::{delays, delays_on, dimensions, SizeError};
use crate::reading::{
    colorless, lemma_body, lemma_next_word_is, lemma_split_once, lemma_split_whole, spaced,
};
use crate::text::{is_blank, split, trim, unsigned};
use crate::wording::{all_blank, lemma_no_word, lemma_trimmed, lemma_word};
use vstd::prelude::*;
use vstd::utf8::{encode_utf8, encode_utf8_decode_utf8, encode_utf8_valid_utf8};

verus! {

/// Three channels make up a colour if and only if each of them can be read.
pub proof fn lemma_color_of(r: Seq<char>, g: Seq<char>, b: Seq<char>)
    ensures
        color_of(r, g, b) is Some <==> channel(r) is Ok && channel(g) is Ok && channel(b) is Ok,
        color_of(r, g, b) matches Some(c) ==> channel(r)->Ok_0 == c.0 && channel(g)->Ok_0 == c.1
            && channel(b)->Ok_0 == c.2,
{
    reveal(color_of);
}

/// The colour of a token is that of the first three of its parts; with fewer there is none.
pub proof fn lemma_first_three(token: Seq<char>, parts: Seq<Seq<char>>)
    requires
        split(inside(token), ',') == parts,
    ensures
        parts.len() < 3 ==> color(token) is None,
        parts.len() >= 3 ==> color(token) == color_of(parts[0], parts[1], parts[2]),
{
}

/// A word starts a colour if and only if it begins with `srgb(` or `srgba(`.
pub proof fn lemma_opens_color(s: Seq<char>, w: Seq<char>)
    ensures
        opens_color("srgb("@ + s),
        opens_color("srgba("@ + s),
        !"srgb("@.is_prefix_of(w) && !"srgba("@.is_prefix_of(w) ==> !opens_color(w),
{
    let (x, y) = ("srgb("@, "srgba("@);
    assert((x + s).subrange(0, x.len() as int) == x);
    assert((y + s).subrange(0, y.len() as int) == y);
}

/// Among words of which none starts a colour, none is found.
pub proof fn lemma_no_color_word(words: Seq<(char, Seq<char>)>)
    requires
        colorless(words),
    ensures
        color_word(spaced(words)) is None,
    decreases words.len(),
{
    let s = spaced(words);
    if words.len() == 0 {
        lemma_no_word(s);
    } else {
        let (sep, w) = words[0];
        let rest = spaced(words.skip(1));
        assert forall|i: int| 0 <= i < words.skip(1).len() implies is_blank(
            (#[trigger] words.skip(1)[i]).0,
        ) && crate::reading::solid(words.skip(1)[i].1) && !opens_color(words.skip(1)[i].1) by {
            assert(words.skip(1)[i] == words[i + 1]);
        }
        lemma_no_color_word(words.skip(1));
        assert(rest.len() > 0 ==> is_blank(rest[0])) by {
            if words.len() > 1 {
                assert(words.skip(1)[0] == words[1]);
                assert(rest[0] == words[1].0);
            }
        }
        if w.len() > 0 {
            assert(s == seq![sep] + w + rest);
            lemma_next_word_is(sep, w, rest);
        } else {
            assert(s == seq![sep] + rest);
            assert(s.skip(1) == rest);
        }
    }
}

/// The colour of a line is in the first word that starts one; without such a word, the whole is
/// taken where it holds a bracket.
pub proof fn lemma_color_token(s: Seq<char>)
    ensures
        color_word(s) is Some ==> color_token(s) == color_word(s),
        color_word(s) is None && trim(s).contains('(') ==> color_token(s) == Some(trim(s)),
        color_word(s) is None && !trim(s).contains('(') ==> color_token(s) is None,
{
}

/// A line of a dump is a pixel if the number between the comma and the colon is that of a row and
/// what follows the colon holds a colour; blanks round it do not matter.
pub proof fn lemma_pixel_line(
    a: Seq<char>,
    x: Seq<char>,
    y: Seq<char>,
    rest: Seq<char>,
    b: Seq<char>,
    max: u64,
)
    requires
        all_blank(a),
        all_blank(b),
        forall|i: int| 0 <= i < x.len() ==> x[i] != ',' && x[i] != ':',
        forall|i: int| 0 <= i < y.len() ==> y[i] != ':',
        x.len() > 0 ==> !is_blank(x[0]) && x[0] != '#',
        rest.len() > 0 ==> !is_blank(rest.last()),
    ensures
        pixel(a + (x + seq![','] + y + seq![':'] + rest) + b, max) == (match (
            unsigned(trim(y), max as int),
            color_token(rest),
        ) {
            (Some(n), Some(token)) => match color(token) {
                Some((r, g, b)) => Some(Pixel { y: n as u64, r, g, b }),
                None => None,
            },
            _ => None,
        }),
{
    let place = x + seq![','] + y;
    let core = place + seq![':'] + rest;
    assert(core[0] == (if x.len() > 0 { x[0] } else { ',' }));
    assert(core.last() == (if rest.len() > 0 { rest.last() } else { ':' }));
    lemma_trimmed(a, core, b);
    assert forall|i: int| 0 <= i < place.len() implies place[i] != ':' by {
        if i < x.len() {
            assert(place[i] == x[i]);
        } else if i > x.len() {
            assert(place[i] == y[i - x.len() - 1]);
        }
    }
    lemma_split_once(place, ':', rest);
    lemma_split_once(x, ',', y);
}

/// A line that is blank, starts with `#`, has no colon, or has no comma before the colon is no
/// pixel.
pub proof fn lemma_no_pixel(a: Seq<char>, l: Seq<char>, b: Seq<char>, rest: Seq<char>, max: u64)
    requires
        all_blank(a),
        all_blank(b),
        l.len() > 0 ==> !is_blank(l[0]) && !is_blank(l.last()),
    ensures
        l.len() == 0 || l[0] == '#' ==> pixel(a + l + b, max) is None,
        (forall|i: int| 0 <= i < l.len() ==> l[i] != ':') ==> pixel(a + l + b, max) is None,
        (forall|i: int| 0 <= i < l.len() ==> l[i] != ':' && l[i] != ',') && rest.len() > 0
            && !is_blank(rest.last()) ==> pixel(a + (l + seq![':'] + rest) + b, max) is None,
{
    lemma_trimmed(a, l, b);
    if forall|i: int| 0 <= i < l.len() ==> l[i] != ':' {
        crate::text::lemma_position_unique(l, ':', l.len() as int);
    }
    if (forall|i: int| 0 <= i < l.len() ==> l[i] != ':' && l[i] != ',') && rest.len() > 0
        && !is_blank(rest.last()) {
        let core = l + seq![':'] + rest;
        assert(core[0] == (if l.len() > 0 { l[0] } else { ':' }));
        assert(core.last() == rest.last());
        lemma_trimmed(a, core, b);
        lemma_split_once(l, ':', rest);
        crate::text::lemma_position_unique(l, ',', l.len() as int);
    }
}

/// The pixels of a dump are those on the lines after its header, whatever text they hold.
pub proof fn lemma_dump_lines(header: Seq<u8>, text: Seq<char>, max: u64)
    requires
        forall|i: int| 0 <= i < header.len() ==> #[trigger] header[i] != 10,
    ensures
        dump_pixels(header + seq![10u8] + encode_utf8(text), max) == Some(
            pixels(split(text, '\n'), max),
        ),
{
    let rest = encode_utf8(text);
    lemma_body(header, rest);
    encode_utf8_valid_utf8(text);
    encode_utf8_decode_utf8(text);
}

/// A dump of which the header is all has no pixels.
pub proof fn lemma_header_alone(header: Seq<u8>, max: u64)
    requires
        forall|i: int| 0 <= i < header.len() ==> #[trigger] header[i] != 10,
    ensures
        dump_pixels(header, max) == Some(Seq::<Pixel>::empty()),
{
    lemma_no_line_feed(header);
    let none = Seq::<char>::empty();
    assert(body(header) == Seq::<u8>::empty());
    encode_utf8_valid_utf8(none);
    encode_utf8_decode_utf8(none);
    assert(encode_utf8(none) == Seq::<u8>::empty());
    lemma_split_whole(none, '\n');
    crate::layout::lemma_one_pixel(none, max);
    assert(none == none + none + none);
    lemma_no_pixel(none, none, none, none, max);
}

/// Without a line feed, a line ends with the bytes.
proof fn lemma_no_line_feed(bytes: Seq<u8>)
    requires
        forall|i: int| 0 <= i < bytes.len() ==> #[trigger] bytes[i] != 10,
    ensures
        crate::dump::line_end(bytes) == bytes.len(),
    decreases bytes.len(),
{
    if bytes.len() > 0 {
        let rest = bytes.skip(1);
        assert forall|i: int| 0 <= i < rest.len() implies #[trigger] rest[i] != 10 by {
            assert(rest[i] == bytes[i + 1]);
        }
        lemma_no_line_feed(rest);
    }
}

/// The delays on lines are those on the first of them and then those on the others; a line holds
/// its number, if it is one.
pub proof fn lemma_delays_join(a: Seq<Seq<char>>, b: Seq<Seq<char>>, line: Seq<char>)
    ensures
        delays_on(a + b) == delays_on(a) + delays_on(b),
        match unsigned(trim(line), 0xffff_ffff) {
            Some(n) => delays_on(seq![line]) == seq![n as u32],
            None => delays_on(seq![line]) == Seq::<u32>::empty(),
        },
    decreases b.len(),
{
    assert(seq![line].drop_last() == Seq::<Seq<char>>::empty());
    assert(delays_on(seq![line].drop_last()) == Seq::<u32>::empty());
    if b.len() == 0 {
        assert(a + b == a);
        assert(delays_on(a) + Seq::<u32>::empty() == delays_on(a));
    } else {
        assert((a + b).drop_last() == a + b.drop_last());
        lemma_delays_join(a, b.drop_last(), line);
        let (x, y) = (delays_on(a), delays_on(b.drop_last()));
        match unsigned(trim(b.last()), u32::MAX as int) {
            Some(n) => {
                assert((x + y).push(n as u32) == x + y.push(n as u32));
            },
            None => {},
        }
    }
}

/// The delays of a report are those on its lines.
pub proof fn lemma_report_lines(report: Seq<char>)
    ensures
        delays(report) == delays_on(split(report, '\n')),
{
}

/// The size in a report is in its first two words, whatever blanks stand round them and whatever
/// follows.
pub proof fn lemma_two_words(
    a: Seq<char>,
    v: Seq<char>,
    b: Seq<char>,
    w: Seq<char>,
    rest: Seq<char>,
)
    requires
        all_blank(a),
        all_blank(b),
        b.len() > 0,
        v.len() > 0,
        w.len() > 0,
        forall|i: int| 0 <= i < v.len() ==> !is_blank(#[trigger] v[i]),
        forall|i: int| 0 <= i < w.len() ==> !is_blank(#[trigger] w[i]),
        rest.len() > 0 ==> is_blank(rest[0]),
    ensures
        dimensions(a + v + (b + w + rest)) == (match (
            unsigned(v, 0xffff_ffff),
            unsigned(w, 0xffff_ffff),
        ) {
            (None, _) => Err::<(u32, u32), SizeError>(SizeError::InvalidWidth),
            (_, None) => Err(SizeError::InvalidHeight),
            (Some(x), Some(y)) => Ok((x as u32, y as u32)),
        }),
{
    let more = b + w + rest;
    assert(more[0] == b[0] && is_blank(b[0]));
    lemma_word(a, v, more);
    lemma_word(b, w, rest);
}

/// A report without a word has no width, one with a single word has no height.
pub proof fn lemma_missing_words(a: Seq<char>, v: Seq<char>, b: Seq<char>)
    requires
        all_blank(a),
        all_blank(b),
        v.len() > 0,
        forall|i: int| 0 <= i < v.len() ==> !is_blank(#[trigger] v[i]),
    ensures
        dimensions(a) == Err::<(u32, u32), SizeError>(SizeError::MissingWidth),
        dimensions(a + v + b) == Err::<(u32, u32), SizeError>(
            if unsigned(v, 0xffff_ffff) is Some {
                SizeError::MissingHeight
            } else {
                SizeError::InvalidWidth
            },
        ),
{
    lemma_no_word(a);
    lemma_no_word(b);
    if b.len() > 0 {
        assert(is_blank(b[0]));
    }
    lemma_word(a, v, b);
}

/// The PNG files are those with the extension and a name before it, the files with ASCII art
/// those with theirs.
pub proof fn lemma_kinds(base: Seq<char>, name: Seq<char>)
    ensures
        is_png(base + ".png"@) <==> base.len() > 0,
        is_png(name) ==> name == name.take(name.len() - 4) + ".png"@,
        is_art(base + ".ascii.txt"@),
        is_art(name) ==> name == name.take(name.len() - 10) + ".ascii.txt"@,
        Kind::Png.admits(name) <==> is_png(name),
        Kind::Art.admits(name) <==> is_art(name),
{
    reveal_strlit(".png");
    reveal_strlit(".ascii.txt");
    let (p, q) = (base + ".png"@, base + ".ascii.txt"@);
    assert(p.subrange(p.len() - 4, p.len() as int) == ".png"@);
    assert(q.subrange(q.len() - 10, q.len() as int) == ".ascii.txt"@);
    if is_png(name) {
        assert(name.subrange(name.len() - 4, name.len() as int) == ".png"@);
        assert(name == name.take(name.len() - 4) + name.skip(name.len() - 4));
        assert(name.skip(name.len() - 4) == ".png"@);
    }
    if is_art(name) {
        assert(name.subrange(name.len() - 10, name.len() as int) == ".ascii.txt"@);
        assert(name == name.take(name.len() - 10) + name.skip(name.len() - 10));
        assert(name.skip(name.len() - 10) == ".ascii.txt"@);
    }
}

/// Of a list every name of the kind is taken, as often as it is there, and no other.
pub proof fn lemma_taken(r: Seq<Seq<char>>, names: Seq<Seq<char>>, kind: Kind, name: Seq<char>)
    requires
        selected(r, names, kind),
    ensures
        r.to_multiset().count(name) == (if kind.admits(name) {
            names.to_multiset().count(name)
        } else {
            0
        }),
        forall|i: int, j: int|
            0 <= i < j < r.len() ==> at_most(#[trigger] r[i], #[trigger] r[j]),
{
    lemma_filter_multiset(names, |name: Seq<char>| kind.admits(name));
}

/// Names are ordered by the first character in which they differ; a name comes before those that
/// go on after it.
pub proof fn lemma_order(p: Seq<char>, x: char, a: Seq<char>, y: char, b: Seq<char>)
    ensures
        at_most(p, p + a),
        a.len() > 0 ==> !at_most(p + a, p),
        x != y ==> (at_most(p + (seq![x] + a), p + (seq![y] + b)) <==> x < y),
    decreases p.len(),
{
    if p.len() == 0 {
        assert(p + a == a);
        assert(p + (seq![x] + a) == seq![x] + a);
        assert(p + (seq![y] + b) == seq![y] + b);
    } else {
        let q = p.skip(1);
        lemma_order(q, x, a, y, b);
        assert((p + a).skip(1) == q + a);
        assert((p + (seq![x] + a)).skip(1) == q + (seq![x] + a));
        assert((p + (seq![y] + b)).skip(1) == q + (seq![y] + b));
    }
}

/// A part is taken out of a text wherever it stands, from the left; all else stays.
pub proof fn lemma_taken_out(part: Seq<char>, c: char, s: Seq<char>)
    requires
        part.len() > 0,
    ensures
        without(Seq::empty(), part) == Seq::<char>::empty(),
        without(part + s, part) == without(s, part),
        !part.is_prefix_of(seq![c] + s) ==> without(seq![c] + s, part) == seq![c] + without(
            s,
            part,
        ),
{
    let (t, u) = (part + s, seq![c] + s);
    assert(t.subrange(0, part.len() as int) == part);
    assert(t.skip(part.len() as int) == s);
    assert(u.skip(1) == s);
}

} // verus!
