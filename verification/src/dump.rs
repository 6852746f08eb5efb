//! Pixel dumps as ImageMagick writes them, and the ASCII art that they stand for.
//!
//! A dump is a header line and then one line for each pixel, such as
//! `3,1: (255,127,0)  #FF7F00  srgb(255,127,0)`.

use crate::channel::{channel, read_channel};
use crate::text::{
    chars_of, cut, find, lemma_position, lemma_word_len, next_word, parse_unsigned, parts, position,
    split, split_once, starts_with, strip_all, strip_end, take_word, trim, trimmed, unsigned,
    without_last, without_prefixes,
};
use crate::{coarse, fine};
use vstd::prelude::*;
use vstd::slice::slice_subrange;
use vstd::utf8::{
    decode_utf8, is_char_boundary_iff_not_is_continuation_byte,
    partial_valid_partial_invalid_utf8, partial_valid_utf8_extend_ascii_block, valid_utf8,
    valid_utf8_concat, valid_utf8_split,
};

verus! {

/// The characters that stand for levels of brightness.
#[derive(Clone, Copy, Debug, PartialEq, Eq, Structural)]
pub enum Ramp {
    /// The ten characters of [`coarse`].
    Coarse,
    /// The 70 characters of [`fine`].
    Fine,
}

impl Ramp {
    /// The character for a colour.
    pub open spec fn char_for(self, r: u8, g: u8, b: u8) -> char {
        match self {
            Ramp::Coarse => coarse::pixel_char(r, g, b),
            Ramp::Fine => fine::pixel_char(r, g, b),
        }
    }

    /// Picks the character for a colour.
    pub fn pixel_for(self, r: u8, g: u8, b: u8) -> (ch: char)
        ensures
            ch == self.char_for(r, g, b),
    {
        match self {
            Ramp::Coarse => coarse::pixel_for(r, g, b),
            Ramp::Fine => fine::pixel_for(r, g, b),
        }
    }
}

/// A single coloured ASCII character at a grid position.
#[derive(Clone, Copy, Debug, PartialEq, Eq, Structural)]
pub struct ColoredChar {
    pub ch: char,
    pub r: u8,
    pub g: u8,
    pub b: u8,
}

/// Why a dump cannot be read.
#[derive(Clone, Copy, Debug, PartialEq, Eq, Structural)]
pub enum DumpError {
    /// A line after the header is not UTF-8.
    NotUtf8,
}

/// What has been made of a dump before a line that is not UTF-8.
pub struct Interrupted {
    /// The ASCII art of the lines before it, without a line break at its end.
    pub text: String,
}

/// A line of a dump: the row of the pixel and its colour.
#[derive(Clone, Copy, Debug, PartialEq, Eq, Structural)]
pub struct Pixel {
    pub y: u64,
    pub r: u8,
    pub g: u8,
    pub b: u8,
}

/// A word starts a colour.
pub open spec fn opens_color(word: Seq<char>) -> bool {
    "srgb("@.is_prefix_of(word) || "srgba("@.is_prefix_of(word)
}

/// The first word of `s` that starts a colour.
pub open spec fn color_word(s: Seq<char>) -> Option<Seq<char>>
    decreases s.len(),
{
    proof {
        lemma_next_word(s);
    }
    match next_word(s) {
        Some((word, rest)) => if opens_color(word) {
            Some(word)
        } else {
            color_word(rest)
        },
        None => None,
    }
}

/// The part of a line that holds the colour: a word that starts one or else, where it holds a
/// bracket, the whole of it.
pub open spec fn color_token(s: Seq<char>) -> Option<Seq<char>> {
    match color_word(s) {
        Some(word) => Some(word),
        None => if trim(s).contains('(') {
            Some(trim(s))
        } else {
            None
        },
    }
}

/// What stands between the brackets of a colour.
pub open spec fn inside(token: Seq<char>) -> Seq<char> {
    strip_end(strip_all(strip_all(token, "srgba("@), "srgb("@), ')')
}

/// What three channels write out.
#[verifier::opaque]
pub open spec fn color_of(r: Seq<char>, g: Seq<char>, b: Seq<char>) -> Option<(u8, u8, u8)> {
    match (channel(r), channel(g), channel(b)) {
        (Ok(r), Ok(g), Ok(b)) => Some((r, g, b)),
        _ => None,
    }
}

/// The colour that a token writes out: its first three channels.
pub open spec fn color(token: Seq<char>) -> Option<(u8, u8, u8)> {
    let channels = split(inside(token), ',');
    if channels.len() < 3 {
        None
    } else {
        color_of(channels[0], channels[1], channels[2])
    }
}

/// The pixel that a line writes out, on a row of at most `max`.
pub open spec fn pixel(line: Seq<char>, max: u64) -> Option<Pixel> {
    let l = trim(line);
    if l.len() == 0 || l[0] == '#' {
        None
    } else {
        match split_once(l, ':') {
            Some((place, rest)) => match split_once(place, ',') {
                Some((_, row)) => match unsigned(trim(row), max as int) {
                    Some(y) => match color_token(rest) {
                        Some(token) => match color(token) {
                            Some((r, g, b)) => Some(Pixel { y: y as u64, r, g, b }),
                            None => None,
                        },
                        None => None,
                    },
                    None => None,
                },
                None => None,
            },
            None => None,
        }
    }
}

/// The pixels that lines write out; lines that are no pixels are passed over.
pub open spec fn pixels(lines: Seq<Seq<char>>, max: u64) -> Seq<Pixel>
    decreases lines.len(),
{
    if lines.len() == 0 {
        Seq::empty()
    } else {
        match pixel(lines.last(), max) {
            Some(p) => pixels(lines.drop_last(), max).push(p),
            None => pixels(lines.drop_last(), max),
        }
    }
}

/// The last of the pixels stands on another row than the one before it.
pub open spec fn breaks(pixels: Seq<Pixel>) -> bool {
    pixels.len() >= 2 && pixels[pixels.len() - 2].y != pixels.last().y
}

/// The character for a pixel, in its colour.
pub open spec fn colored(p: Pixel, ramp: Ramp) -> ColoredChar {
    ColoredChar { ch: ramp.char_for(p.r, p.g, p.b), r: p.r, g: p.g, b: p.b }
}

/// The rows that pixels make up: a row is a run of pixels with the same number.
pub open spec fn rows_of(pixels: Seq<Pixel>, ramp: Ramp) -> Seq<Seq<ColoredChar>>
    decreases pixels.len(),
{
    if pixels.len() == 0 {
        Seq::empty()
    } else {
        let rows = rows_of(pixels.drop_last(), ramp);
        let c = colored(pixels.last(), ramp);
        if rows.len() == 0 || breaks(pixels) {
            rows.push(seq![c])
        } else {
            rows.drop_last().push(rows.last().push(c))
        }
    }
}

/// The text that pixels make up: their characters, with a line break between rows.
pub open spec fn art_of(pixels: Seq<Pixel>, ramp: Ramp) -> Seq<char>
    decreases pixels.len(),
{
    if pixels.len() == 0 {
        Seq::empty()
    } else {
        let art = art_of(pixels.drop_last(), ramp);
        let c = colored(pixels.last(), ramp).ch;
        if breaks(pixels) {
            art.push('\n').push(c)
        } else {
            art.push(c)
        }
    }
}

/// The place of the first line feed in `bytes`, or their length where there is none.
pub open spec fn line_end(bytes: Seq<u8>) -> int
    decreases bytes.len(),
{
    if bytes.len() == 0 || bytes[0] == 10 {
        0
    } else {
        1 + line_end(bytes.skip(1))
    }
}

/// What follows the header of a dump.
pub open spec fn body(dump: Seq<u8>) -> Seq<u8> {
    if line_end(dump) < dump.len() {
        dump.skip(line_end(dump) + 1)
    } else {
        Seq::empty()
    }
}

/// The pixels in text that is given by its bytes.
pub open spec fn pixels_in(bytes: Seq<u8>, max: u64) -> Seq<Pixel> {
    pixels(split(decode_utf8(bytes), '\n'), max)
}

/// The pixels of a dump, where it can be read.
pub open spec fn dump_pixels(dump: Seq<u8>, max: u64) -> Option<Seq<Pixel>> {
    if valid_utf8(body(dump)) {
        Some(pixels_in(body(dump), max))
    } else {
        None
    }
}

/// The lines before the first that is not UTF-8.
pub open spec fn readable(bytes: Seq<u8>) -> Seq<u8>
    decreases bytes.len(),
{
    let e = line_end(bytes);
    if 0 <= e < bytes.len() {
        if valid_utf8(bytes.take(e)) {
            bytes.take(e + 1) + readable(bytes.skip(e + 1))
        } else {
            Seq::empty()
        }
    } else if valid_utf8(bytes) {
        bytes
    } else {
        Seq::empty()
    }
}

/// The rows of a grid as sequences.
pub open spec fn grid(rows: Seq<Vec<ColoredChar>>) -> Seq<Seq<ColoredChar>> {
    rows.map_values(|row: Vec<ColoredChar>| row@)
}

/// The text that bytes encode in UTF-8.
///
/// Trusted: `std::str::from_utf8` succeeds on valid UTF-8 only, and the string that it gives
/// back has the characters that the bytes encode.
#[verifier::external_body]
fn text_of<'a>(bytes: &'a [u8]) -> (r: Option<&'a str>)
    ensures
        match r {
            Some(s) => valid_utf8(bytes@) && s@ == decode_utf8(bytes@),
            None => !valid_utf8(bytes@),
        },
{
    std::str::from_utf8(bytes).ok()
}

/// Words take up some of the text.
pub proof fn lemma_next_word(s: Seq<char>)
    ensures
        next_word(s) matches Some((word, rest)) ==> rest.len() < s.len(),
    decreases s.len(),
{
    if s.len() > 0 && crate::text::is_blank(s[0]) {
        lemma_next_word(s.skip(1));
    } else {
        lemma_word_len(s);
    }
}

/// Finds the first word that starts a colour.
fn find_color_word<'a>(s: &'a [char]) -> (r: Option<&'a [char]>)
    ensures
        match r {
            Some(word) => color_word(s@) == Some(word@),
            None => color_word(s@) is None,
        },
{
    let (plain, alpha) = (chars_of("srgb("), chars_of("srgba("));
    let mut rest: &'a [char] = s;
    loop
        invariant
            plain@ == "srgb("@,
            alpha@ == "srgba("@,
            color_word(rest@) == color_word(s@),
        decreases rest.len(),
    {
        match take_word(rest) {
            Some((word, after)) => {
                if starts_with(word, plain.as_slice()) || starts_with(word, alpha.as_slice()) {
                    return Some(word);
                }
                rest = after;
            },
            None => {
                return None;
            },
        }
    }
}

/// Finds the part of a line that holds the colour.
fn find_color<'a>(s: &'a [char]) -> (r: Option<&'a [char]>)
    ensures
        match r {
            Some(token) => color_token(s@) == Some(token@),
            None => color_token(s@) is None,
        },
{
    match find_color_word(s) {
        Some(word) => Some(word),
        None => {
            let t = trimmed(s);
            let p = find(t, '(');
            proof {
                lemma_position(t@, '(');
            }
            if p < t.len() {
                Some(t)
            } else {
                None
            }
        },
    }
}

/// Reads a colour.
fn read_color(token: &[char]) -> (r: Option<(u8, u8, u8)>)
    ensures
        r == color(token@),
{
    let (plain, alpha) = (chars_of("srgb("), chars_of("srgba("));
    let inner = without_last(
        without_prefixes(without_prefixes(token, alpha.as_slice()), plain.as_slice()),
        ')',
    );
    let channels = parts(inner, ',');
    if channels.len() < 3 {
        return None;
    }
    proof {
        reveal(color_of);
    }
    match (read_channel(channels[0]), read_channel(channels[1]), read_channel(channels[2])) {
        (Ok(r), Ok(g), Ok(b)) => Some((r, g, b)),
        _ => None,
    }
}

/// Reads a line of a dump.
pub fn read_pixel(line: &[char], max: u64) -> (r: Option<Pixel>)
    ensures
        r == pixel(line@, max),
{
    let l = trimmed(line);
    if l.len() == 0 || l[0] == '#' {
        return None;
    }
    match cut(l, ':') {
        Some((place, rest)) => match cut(place, ',') {
            Some((_, row)) => match parse_unsigned(trimmed(row), max) {
                Some(y) => match find_color(rest) {
                    Some(token) => match read_color(token) {
                        Some((r, g, b)) => Some(Pixel { y, r, g, b }),
                        None => None,
                    },
                    None => None,
                },
                None => None,
            },
            None => None,
        },
        None => None,
    }
}

/// The end of a line lies within the bytes, and is the first of its kind.
proof fn lemma_line_end(bytes: Seq<u8>)
    ensures
        0 <= line_end(bytes) <= bytes.len(),
        line_end(bytes) < bytes.len() ==> bytes[line_end(bytes)] == 10,
    decreases bytes.len(),
{
    if bytes.len() > 0 && bytes[0] != 10 {
        lemma_line_end(bytes.skip(1));
    }
}

/// Finds the end of a line.
fn find_line_end(bytes: &[u8]) -> (e: usize)
    ensures
        e == line_end(bytes@),
        e <= bytes.len(),
        e < bytes.len() ==> bytes@[e as int] == 10,
{
    let mut i: usize = 0;
    assert(bytes@.skip(0) == bytes@);
    while i < bytes.len() && bytes[i] != 10
        invariant
            i <= bytes.len(),
            line_end(bytes@) == i + line_end(bytes@.skip(i as int)),
        decreases bytes.len() - i,
    {
        assert(bytes@.skip(i as int).skip(1) == bytes@.skip(i + 1));
        i = i + 1;
    }
    i
}

/// Leaves out the header.
fn after_header<'a>(dump: &'a [u8]) -> (r: &'a [u8])
    ensures
        r@ == body(dump@),
{
    let e = find_line_end(dump);
    if e < dump.len() {
        let r = slice_subrange(dump, e + 1, dump.len());
        assert(r@ == dump@.skip(e + 1));
        r
    } else {
        let r = slice_subrange(dump, e, e);
        assert(r@ == Seq::<u8>::empty());
        r
    }
}

/// A line of valid UTF-8 stays so with its line feed.
proof fn lemma_with_line_feed(bytes: Seq<u8>, e: int)
    requires
        0 <= e < bytes.len(),
        bytes[e] == 10,
        valid_utf8(bytes.take(e)),
    ensures
        valid_utf8(bytes.take(e + 1)),
{
    assert(bytes.take(e) == bytes.subrange(0, e));
    assert(bytes.take(e + 1) == bytes.subrange(0, e + 1));
    partial_valid_utf8_extend_ascii_block(bytes, e, e + 1);
}

/// Finds the lines before the first that is not UTF-8.
fn readable_part<'a>(bytes: &'a [u8]) -> (r: &'a [u8])
    ensures
        r@ == readable(bytes@),
        valid_utf8(r@),
{
    let mut end: usize = 0;
    assert(bytes@.skip(0) == bytes@);
    assert(bytes@.take(0) + readable(bytes@) == readable(bytes@));
    loop
        invariant
            end <= bytes.len(),
            valid_utf8(bytes@.take(end as int)),
            bytes@.take(end as int) + readable(bytes@.skip(end as int)) == readable(bytes@),
        decreases bytes.len() - end,
    {
        let rest = slice_subrange(bytes, end, bytes.len());
        assert(rest@ == bytes@.skip(end as int));
        let e = find_line_end(rest);
        let line = slice_subrange(rest, 0, e);
        assert(line@ == rest@.take(e as int));
        if text_of(line).is_none() {
            assert(e == rest.len() ==> line@ == rest@);
            assert(bytes@.take(end as int) + Seq::<u8>::empty() == bytes@.take(end as int));
            return slice_subrange(bytes, 0, end);
        }
        if e == rest.len() {
            proof {
                assert(line@ == rest@);
                valid_utf8_concat(bytes@.take(end as int), rest@);
                assert(bytes@.take(end as int) + rest@ == bytes@);
            }
            return bytes;
        }
        proof {
            lemma_with_line_feed(rest@, e as int);
            valid_utf8_concat(bytes@.take(end as int), rest@.take(e + 1));
            let next = end + e + 1;
            assert(bytes@.take(end as int) + rest@.take(e + 1) == bytes@.take(next as int));
            assert(rest@.skip(e + 1) == bytes@.skip(next as int));
            assert(bytes@.take(end as int) + (rest@.take(e + 1) + readable(rest@.skip(e + 1)))
                == bytes@.take(next as int) + readable(bytes@.skip(next as int)));
        }
        end = end + e + 1;
    }
}

/// Reads the pixels in a text, on rows of at most `max`.
fn read_pixels(text: &str, max: u64) -> (r: Vec<Pixel>)
    ensures
        r@ == pixels(split(text@, '\n'), max),
{
    let chars = chars_of(text);
    let lines = parts(chars.as_slice(), '\n');
    let ghost all = split(text@, '\n');
    let mut ps: Vec<Pixel> = Vec::new();
    let mut i: usize = 0;
    while i < lines.len()
        invariant
            i <= lines.len() == all.len(),
            forall|j: int| 0 <= j < lines.len() ==> (#[trigger] lines[j])@ == all[j],
            ps@ == pixels(all.take(i as int), max),
        decreases lines.len() - i,
    {
        assert(all.take(i + 1).drop_last() == all.take(i as int));
        match read_pixel(lines[i], max) {
            Some(p) => {
                ps.push(p);
            },
            None => {},
        }
        i = i + 1;
    }
    assert(all.take(i as int) == all);
    ps
}

/// Reads the pixels of a dump, on rows of at most `max`.
pub fn read_dump(dump: &[u8], max: u64) -> (r: Result<Vec<Pixel>, DumpError>)
    ensures
        match r {
            Ok(ps) => dump_pixels(dump@, max) == Some(ps@),
            Err(_) => dump_pixels(dump@, max) is None,
        },
{
    match text_of(after_header(dump)) {
        Some(text) => Ok(read_pixels(text, max)),
        None => Err(DumpError::NotUtf8),
    }
}

/// Parses an ImageMagick pixel dump into a 2D grid of coloured ASCII chars.
/// Returns (rows, cols, pixels) where pixels is row-major and cols is the length of the first row.
pub fn parse_dump_to_colored(dump: &[u8], ramp: Ramp) -> (r: Result<
    (usize, usize, Vec<Vec<ColoredChar>>),
    DumpError,
>)
    ensures
        match r {
            Ok((n_rows, n_cols, rows)) => {
                &&& dump_pixels(dump@, usize::MAX as u64) matches Some(ps)
                &&& grid(rows@) == rows_of(ps, ramp)
                &&& n_rows == rows.len()
                &&& n_cols == (if rows.len() == 0 {
                    0
                } else {
                    rows[0].len()
                })
            },
            Err(_) => dump_pixels(dump@, usize::MAX as u64) is None,
        },
{
    let ps = match read_dump(dump, usize::MAX as u64) {
        Ok(ps) => ps,
        Err(e) => {
            return Err(e);
        },
    };
    let mut rows: Vec<Vec<ColoredChar>> = Vec::new();
    let mut i: usize = 0;
    while i < ps.len()
        invariant
            i <= ps.len(),
            grid(rows@) == rows_of(ps@.take(i as int), ramp),
            rows.len() <= i,
        decreases ps.len() - i,
    {
        let ghost before = grid(rows@);
        assert(ps@.take(i + 1).drop_last() == ps@.take(i as int));
        let p = ps[i];
        let c = ColoredChar { ch: ramp.pixel_for(p.r, p.g, p.b), r: p.r, g: p.g, b: p.b };
        let broken = i > 0 && ps[i - 1].y != p.y;
        assert(broken == breaks(ps@.take(i + 1)));
        let last = rows.pop();
        match last {
            Some(mut row) => {
                assert(grid(rows@) == before.drop_last());
                assert(row@ == before.last());
                if broken {
                    rows.push(row);
                    let mut next: Vec<ColoredChar> = Vec::new();
                    next.push(c);
                    assert(next@ == seq![c]);
                    rows.push(next);
                    assert(grid(rows@) == before.push(seq![c]));
                } else {
                    row.push(c);
                    rows.push(row);
                    assert(grid(rows@) == before.drop_last().push(before.last().push(c)));
                }
            },
            None => {
                let mut next: Vec<ColoredChar> = Vec::new();
                next.push(c);
                assert(next@ == seq![c]);
                rows.push(next);
                assert(grid(rows@) == before.push(seq![c]));
            },
        }
        i = i + 1;
    }
    assert(ps@.take(i as int) == ps@);
    let n_rows: usize = rows.len();
    let n_cols: usize = if rows.len() == 0 {
        0
    } else {
        rows[0].len()
    };
    Ok((n_rows, n_cols, rows))
}

/// Makes pixels into text.
fn write_art(ps: &[Pixel]) -> (r: String)
    ensures
        r@ == art_of(ps@, Ramp::Coarse),
{
    let mut text = String::new();
    let mut i: usize = 0;
    while i < ps.len()
        invariant
            i <= ps.len(),
            text@ == art_of(ps@.take(i as int), Ramp::Coarse),
        decreases ps.len() - i,
    {
        assert(ps@.take(i + 1).drop_last() == ps@.take(i as int));
        let p = ps[i];
        let broken = i > 0 && ps[i - 1].y != p.y;
        assert(broken == breaks(ps@.take(i + 1)));
        if broken {
            text.push('\n');
        }
        text.push(coarse::pixel_for(p.r, p.g, p.b));
        i = i + 1;
    }
    assert(ps@.take(i as int) == ps@);
    text
}

/// Converts an ImageMagick pixel dump into ASCII art lines. Where a line is not UTF-8, what the
/// lines before it give is handed back, without the closing line break.
pub fn convert_dump_to_ascii(dump: &[u8]) -> (r: Result<String, Interrupted>)
    ensures
        match r {
            Ok(text) => {
                &&& dump_pixels(dump@, u32::MAX as u64) matches Some(ps)
                &&& text@ == art_of(ps, Ramp::Coarse).push('\n')
            },
            Err(e) => {
                &&& dump_pixels(dump@, u32::MAX as u64) is None
                &&& e.text@ == art_of(
                    pixels_in(readable(body(dump@)), u32::MAX as u64),
                    Ramp::Coarse,
                )
            },
        },
{
    let bytes = after_header(dump);
    match text_of(bytes) {
        Some(text) => {
            let ps = read_pixels(text, u32::MAX as u64);
            let mut art = write_art(ps.as_slice());
            art.push('\n');
            Ok(art)
        },
        None => {
            let art = match text_of(readable_part(bytes)) {
                Some(text) => {
                    let ps = read_pixels(text, u32::MAX as u64);
                    write_art(ps.as_slice())
                },
                None => String::new(),
            };
            Err(Interrupted { text: art })
        },
    }
}

/// Text that is UTF-8 is readable as a whole.
pub proof fn lemma_all_readable(bytes: Seq<u8>)
    requires
        valid_utf8(bytes),
    ensures
        readable(bytes) == bytes,
    decreases bytes.len(),
{
    let e = line_end(bytes);
    lemma_line_end(bytes);
    if e < bytes.len() {
        is_char_boundary_iff_not_is_continuation_byte(bytes, e);
        valid_utf8_split(bytes, e);
        assert(bytes.take(e) == bytes.subrange(0, e));
        lemma_with_line_feed(bytes, e);
        if e + 1 < bytes.len() {
            lemma_after_line_feed(bytes, e);
        } else {
            assert(bytes.skip(e + 1) == Seq::<u8>::empty());
        }
        lemma_all_readable(bytes.skip(e + 1));
        assert(bytes.take(e + 1) + bytes.skip(e + 1) == bytes);
    }
}

/// What follows a line feed in UTF-8 is UTF-8.
proof fn lemma_after_line_feed(bytes: Seq<u8>, e: int)
    requires
        valid_utf8(bytes),
        0 <= e < bytes.len(),
        bytes[e] == 10,
        valid_utf8(bytes.take(e + 1)),
    ensures
        valid_utf8(bytes.skip(e + 1)),
{
    assert(bytes.take(e + 1) == bytes.subrange(0, e + 1));
    assert(bytes.skip(e + 1) == bytes.subrange(e + 1, bytes.len() as int));
    if !valid_utf8(bytes.skip(e + 1)) {
        partial_valid_partial_invalid_utf8(bytes, e + 1);
    }
}

/// Lines of UTF-8 are readable up to a line that is not, whatever follows it.
pub proof fn lemma_readable_before(good: Seq<u8>, bad: Seq<u8>, rest: Seq<u8>)
    requires
        valid_utf8(good),
        good.len() > 0 ==> good.last() == 10,
        !valid_utf8(bad),
        forall|i: int| 0 <= i < bad.len() ==> #[trigger] bad[i] != 10,
        rest.len() > 0 ==> rest[0] == 10,
    ensures
        readable(good + bad + rest) == good,
    decreases good.len(),
{
    let all = good + bad + rest;
    if good.len() == 0 {
        assert(all == bad + rest);
        lemma_line_ends_at(bad, rest);
        assert(all.take(bad.len() as int) == bad);
        if rest.len() == 0 {
            assert(all == bad);
        }
    } else {
        let e = line_end(good);
        lemma_line_end(good);
        lemma_first_line(good, bad + rest);
        assert(all == good + (bad + rest));
        is_char_boundary_iff_not_is_continuation_byte(good, e);
        valid_utf8_split(good, e);
        assert(good.take(e) == good.subrange(0, e));
        assert(all.take(e) == good.take(e));
        lemma_with_line_feed(good, e);
        lemma_after_line_feed(good, e);
        let tail = good.skip(e + 1);
        if tail.len() > 0 {
            assert(tail.last() == good.last());
        }
        lemma_readable_before(tail, bad, rest);
        assert(all.skip(e + 1) == tail + bad + rest);
        assert(all.take(e + 1) == good.take(e + 1));
        assert(good.take(e + 1) + tail == good);
    }
}

/// A line ends where its bytes do.
proof fn lemma_line_ends_at(line: Seq<u8>, rest: Seq<u8>)
    requires
        forall|i: int| 0 <= i < line.len() ==> #[trigger] line[i] != 10,
        rest.len() > 0 ==> rest[0] == 10,
    ensures
        line_end(line + rest) == line.len(),
    decreases line.len(),
{
    let all = line + rest;
    if line.len() > 0 {
        let tail = line.skip(1);
        assert forall|i: int| 0 <= i < tail.len() implies #[trigger] tail[i] != 10 by {
            assert(tail[i] == line[i + 1]);
        }
        lemma_line_ends_at(tail, rest);
        assert(all[0] == line[0]);
        assert(all.skip(1) == tail + rest);
    } else {
        assert(all == rest);
    }
}

/// The first line of lines that are closed by line feeds ends within them.
proof fn lemma_first_line(lines: Seq<u8>, rest: Seq<u8>)
    requires
        lines.len() > 0,
        lines.last() == 10,
    ensures
        line_end(lines) < lines.len(),
        line_end(lines + rest) == line_end(lines),
    decreases lines.len(),
{
    let all = lines + rest;
    assert(all[0] == lines[0]);
    if lines[0] != 10 {
        let tail = lines.skip(1);
        assert(tail.last() == lines.last());
        lemma_first_line(tail, rest);
        assert(all.skip(1) == tail + rest);
    }
}

/// The characters of a row.
pub open spec fn chars_in(row: Seq<ColoredChar>) -> Seq<char> {
    row.map_values(|c: ColoredChar| c.ch)
}

/// Rows of characters, with a line break between them.
pub open spec fn joined(rows: Seq<Seq<ColoredChar>>) -> Seq<char>
    decreases rows.len(),
{
    if rows.len() == 0 {
        Seq::empty()
    } else if rows.len() == 1 {
        chars_in(rows[0])
    } else {
        joined(rows.drop_last()) + seq!['\n'] + chars_in(rows.last())
    }
}

/// There are rows if and only if there are pixels, and no row is empty.
pub proof fn lemma_rows_filled(pixels: Seq<Pixel>, ramp: Ramp)
    ensures
        rows_of(pixels, ramp).len() == 0 <==> pixels.len() == 0,
        forall|i: int|
            0 <= i < rows_of(pixels, ramp).len() ==> (#[trigger] rows_of(pixels, ramp)[i]).len()
                > 0,
    decreases pixels.len(),
{
    if pixels.len() > 0 {
        lemma_rows_filled(pixels.drop_last(), ramp);
        let (before, after) = (rows_of(pixels.drop_last(), ramp), rows_of(pixels, ramp));
        assert forall|i: int| 0 <= i < after.len() implies (#[trigger] after[i]).len() > 0 by {
            if i < before.len() - 1 {
                assert(after[i] == before[i]);
            }
        }
    }
}

/// The rows hold the pixels in their order: none is lost, none is added, none is changed.
pub proof fn lemma_rows_complete(pixels: Seq<Pixel>, ramp: Ramp)
    ensures
        rows_of(pixels, ramp).flatten() == pixels.map_values(|p: Pixel| colored(p, ramp)),
    decreases pixels.len(),
{
    let f = |p: Pixel| colored(p, ramp);
    let after = rows_of(pixels, ramp);
    if pixels.len() == 0 {
        assert(after.flatten() == Seq::<ColoredChar>::empty());
    } else {
        let rest = pixels.drop_last();
        lemma_rows_complete(rest, ramp);
        let before = rows_of(rest, ramp);
        let c = colored(pixels.last(), ramp);
        assert(pixels.map_values(f) == rest.map_values(f).push(c));
        if before.len() == 0 || breaks(pixels) {
            before.lemma_flatten_push(seq![c]);
            assert(before.flatten() + seq![c] == before.flatten().push(c));
        } else {
            let (head, last) = (before.drop_last(), before.last());
            assert(before == head.push(last));
            head.lemma_flatten_push(last);
            head.lemma_flatten_push(last.push(c));
            assert(head.flatten() + last.push(c) == (head.flatten() + last).push(c));
        }
    }
}

/// The text of ASCII art is the rows of the grid, line by line.
pub proof fn lemma_art_is_rows(pixels: Seq<Pixel>, ramp: Ramp)
    ensures
        art_of(pixels, ramp) == joined(rows_of(pixels, ramp)),
    decreases pixels.len(),
{
    if pixels.len() > 0 {
        let rest = pixels.drop_last();
        lemma_art_is_rows(rest, ramp);
        lemma_rows_filled(rest, ramp);
        let (before, after) = (rows_of(rest, ramp), rows_of(pixels, ramp));
        let c = colored(pixels.last(), ramp);
        assert(chars_in(seq![c]) == seq![c.ch]);
        if before.len() == 0 {
            assert(after[0] == seq![c]);
            assert(Seq::<char>::empty().push(c.ch) == seq![c.ch]);
        } else if breaks(pixels) {
            assert(after.drop_last() == before);
            assert(art_of(rest, ramp).push('\n').push(c.ch) == art_of(rest, ramp) + seq!['\n']
                + seq![c.ch]);
        } else {
            let last = before.last();
            assert(chars_in(last.push(c)) == chars_in(last).push(c.ch));
            if before.len() > 1 {
                assert(after.drop_last() == before.drop_last());
                let head = joined(before.drop_last()) + seq!['\n'];
                assert(head + chars_in(last).push(c.ch) == (head + chars_in(last)).push(c.ch));
            }
        }
    }
}

} // verus!
