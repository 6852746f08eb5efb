//! How large characters are, where they fit and when they can be drawn, told from the font.

use crate::binary32::{absolute, ceil, ceiling, exponent_field, fraction_field, is_finite, value};
use crate::binary64::{
    exp2, half_even, half_up, lemma_exp2_positive, lemma_exp2_step, lemma_nearest_error,
    lemma_nearest_integer, nearest,
};
use crate::dump::ColoredChar;
use crate::frames::rows_for;
use crate::numeral::lemma_nearest_half;
use crate::render::{lemma_stamps_exact, obstacle, placed, stamps, Mark, RenderError};
use crate::typeface::{
    advance_bits, cell, covers, drawable, fits, font_height, glyph_box, outline_curves, reach,
    size_of, Curve,
};
use vstd::math::max;
use vstd::prelude::*;

verus! {

/// A cell is as wide as the `M` takes the pen, rounded up, and as high as the size of the font;
/// neither is less than one pixel.
pub proof fn lemma_cell(font: Seq<u8>, size: u8)
    ensures
        cell(font, size).0 == max(ceiling(advance_bits(font, size, 'M')) as int, 1),
        cell(font, size).1 == max(size as int, 1),
{
}

/// Rounding up gives the integer next above, or the largest of 32 bits; what is negative or no
/// number becomes 0.
pub proof fn lemma_ceiling(bits: u32)
    ensures
        bits < 0x7f80_0000 && absolute(bits) <= 0xffff_ffffreal ==> ceiling(bits) as real - 1real
            < absolute(bits) <= ceiling(bits) as real,
        bits < 0x7f80_0000 && absolute(bits) > 0xffff_ffffreal ==> ceiling(bits) == 0xffff_ffff,
        bits == 0x7f80_0000 ==> ceiling(bits) == 0xffff_ffff,
        bits > 0x7f80_0000 ==> ceiling(bits) == 0,
{
    let n = ceil(absolute(bits));
    assert(n as real - 1real < absolute(bits) <= n as real);
    lemma_absolute_positive(bits);
}

/// A size is not negative.
proof fn lemma_absolute_positive(bits: u32)
    ensures
        absolute(bits) >= 0real,
{
    let (e, f) = (exponent_field(bits), fraction_field(bits));
    let x = if e == 0 {
        -149
    } else {
        e - 150
    };
    let m = if e == 0 {
        f as real
    } else {
        (f + 0x80_0000) as real
    };
    lemma_exp2_positive(x);
    let u = exp2(x);
    assert(m * u >= 0real) by (nonlinear_arith)
        requires
            m >= 0real,
            u > 0real,
    ;
}

/// The bits of single-precision numbers: zero and one, twice a number, even steps between powers
/// of two, and even steps down to zero.
pub proof fn lemma_absolute(bits: u32)
    ensures
        absolute(0) == 0real,
        absolute(0x3f80_0000) == 1real,
        0x80_0000 <= bits < 0x7f00_0000 ==> absolute((bits + 0x80_0000) as u32) == 2real
            * absolute(bits),
        bits + 2 < 0x7f80_0000 && bits % 0x80_0000 + 2 <= 0x80_0000 ==> absolute((bits + 2) as u32)
            - absolute((bits + 1) as u32) == absolute((bits + 1) as u32) - absolute(bits),
        bits < 0x80_0000 ==> absolute(bits) == bits as real * absolute(1),
{
    let (e, f) = (exponent_field(bits), fraction_field(bits));
    lemma_exp2_step(-149);
    assert(0real * exp2(-149) == 0real);
    assert(absolute(1) == 1real * exp2(-149));
    assert(0x80_0000real * exp2(-23) == 1real) by {
        reveal_with_fuel(exp2, 24);
    }
    assert(exponent_field(0x3f80_0000) == 127 && fraction_field(0x3f80_0000) == 0);
    if 0x80_0000 <= bits < 0x7f00_0000 {
        let b = (bits + 0x80_0000) as u32;
        assert(exponent_field(b) == e + 1 && fraction_field(b) == f);
        lemma_exp2_step(e - 150);
        let (m, u) = ((f + 0x80_0000) as real, exp2(e - 150));
        assert(m * (2real * u) == 2real * (m * u)) by (nonlinear_arith);
    }
    if bits + 2 < 0x7f80_0000 && bits % 0x80_0000 + 2 <= 0x80_0000 {
        let (b, c) = ((bits + 1) as u32, (bits + 2) as u32);
        assert(exponent_field(b) == e && fraction_field(b) == f + 1);
        let x = if e == 0 {
            -149
        } else {
            e - 150
        };
        let m = if e == 0 {
            f as real
        } else {
            (f + 0x80_0000) as real
        };
        let u = exp2(x);
        assert(absolute(bits) == m * u);
        assert(absolute(b) == (m + 1real) * u);
        assert(absolute(c) == (m + 2real) * u) by {
            if f + 2 < 0x80_0000 {
                assert(exponent_field(c) == e && fraction_field(c) == f + 2);
            } else {
                assert(exponent_field(c) == e + 1 && fraction_field(c) == 0);
                if e == 0 {
                    assert(m + 2real == 0x80_0000real);
                } else {
                    lemma_exp2_step(x);
                    assert(m + 2real == 0x100_0000real);
                    assert(0x80_0000real * (2real * u) == 0x100_0000real * u);
                }
            }
        }
        assert((m + 2real) * u - (m + 1real) * u == (m + 1real) * u - m * u) by (nonlinear_arith);
    }
}

/// The nearest integer is at most a half away; of two that are equally near the even one is
/// taken, or the larger.
pub proof fn lemma_nearest_integers(x: real)
    ensures
        -1real / 2real <= half_even(x) as real - x <= 1real / 2real,
        half_even(x) as real - x == 1real / 2real || half_even(x) as real - x == -1real / 2real
            ==> half_even(x) % 2 == 0,
        half_up(x) as real - 1real / 2real <= x < half_up(x) as real + 1real / 2real,
{
}

/// A character covers a pixel if and only if that lies in its box, put at its place.
pub proof fn lemma_covers(
    data: Seq<u8>,
    size: u8,
    ch: char,
    x: int,
    y: int,
    px: int,
    py: int,
)
    ensures
        ({
            let b = glyph_box(data, size, ch);
            covers(data, size, ch, x, y, px, py) <==> 0 <= px - x - b.0 < b.2 && 0 <= py - y - b.1
                < b.3
        }),
{
}

/// A character fits where its corner and its last pixel have signed coordinates of 32 bits, both
/// with and without the offset of its box; without pixels only the corner counts.
pub proof fn lemma_fits(data: Seq<u8>, size: u8, ch: char, x: int, y: int)
    ensures
        ({
            let b = glyph_box(data, size, ch);
            let top = 0x7fff_ffffint;
            let corner = x <= top && y <= top;
            let last = x + b.2 - 1 <= top && x + b.0 + b.2 - 1 <= top && y + b.3 - 1 <= top && y
                + b.1 + b.3 - 1 <= top;
            fits(data, size, ch, x, y) <==> corner && (b.2 == 0 || b.3 == 0 || last)
        }),
{
}

/// What keeps a grid from being rendered: a picture that memory cannot hold, a character that does
/// not fit into its cell's place, and else one that cannot be drawn. Every character that is not
/// blank counts, and no other.
pub proof fn lemma_obstacle(
    rows: Seq<Seq<ColoredChar>>,
    font: Seq<u8>,
    w: int,
    h: int,
    char_w: u32,
    char_h: u32,
    size: u8,
)
    ensures
        ({
            let held = w <= 0xffff_ffff && h <= 0xffff_ffff && w * h * 3 <= isize::MAX;
            let fitting = forall|r: int, c: int|
                0 <= r < rows.len() && 0 <= c < rows[r].len() && (#[trigger] rows[r][c]).ch != ' '
                    ==> fits(font, size, rows[r][c].ch, c * char_w, r * char_h);
            let drawn = forall|r: int, c: int|
                0 <= r < rows.len() && 0 <= c < rows[r].len() && (#[trigger] rows[r][c]).ch != ' '
                    ==> drawable(font, size, rows[r][c].ch);
            obstacle(rows, font, w, h, char_w, char_h, size) == (if !held || !fitting {
                Some(RenderError::TooLarge)
            } else if !drawn {
                Some(RenderError::Font)
            } else {
                None
            })
        }),
{
    let all = stamps(rows, rows.len() as int, char_w, char_h);
    assert forall|r: int, c: int|
        0 <= r < rows.len() && 0 <= c < rows[r].len() && (
        #[trigger] rows[r][c]).ch != ' ' implies exists|i: int|
        0 <= i < all.len() && #[trigger] all[i] == (Mark {
            glyph: rows[r][c],
            x: c * char_w,
            y: r * char_h,
        }) by {
        let m = Mark { glyph: rows[r][c], x: c * char_w, y: r * char_h };
        lemma_stamps_exact(rows, rows.len() as int, char_w, char_h, m);
        assert(m.glyph == rows[r][c]);
        assert(all.contains(m));
    }
    assert forall|i: int| 0 <= i < all.len() implies exists|r: int, c: int|
        0 <= r < rows.len() && 0 <= c < rows[r].len() && (#[trigger] all[i]).glyph
            == #[trigger] rows[r][c] && rows[r][c].ch != ' ' && all[i].x == c * char_w && all[i].y
            == r * char_h by {
        assert(all.contains(all[i]));
        lemma_stamps_exact(rows, rows.len() as int, char_w, char_h, all[i]);
    }
}

/// Without a size, and in a font without height, every character can be drawn: nothing is.
pub proof fn lemma_nothing_drawn(data: Seq<u8>, size: u8, ch: char)
    ensures
        size == 0 ==> drawable(data, size, ch),
        font_height(data) == 0 ==> drawable(data, size, ch),
{
}

/// A coordinate is one of those to the side of the points that span a curve.
pub open spec fn lies_across(c: Curve, x: u32) -> bool {
    match c {
        Curve::Line(p, q) => x == p.0 || x == q.0,
        Curve::Quad(p, q, r) => x == p.0 || x == q.0 || x == r.0,
        Curve::Cubic(p, q, r, s) => x == p.0 || x == q.0 || x == r.0 || x == s.0,
    }
}

/// A coordinate is one of those up and down of the points that span a curve.
pub open spec fn lies_along(c: Curve, y: u32) -> bool {
    match c {
        Curve::Line(p, q) => y == p.1 || y == q.1,
        Curve::Quad(p, q, r) => y == p.1 || y == q.1 || y == r.1,
        Curve::Cubic(p, q, r, s) => y == p.1 || y == q.1 || y == r.1 || y == s.1,
    }
}

/// How far a curve reaches is not negative, and less than one unit above its farthest point.
proof fn lemma_reach(a: u32, b: u32, c: u32, d: u32)
    ensures
        0 <= reach(a, b, c, d),
        reach(a, b, c, d) as real <= absolute(a) + 1real || reach(a, b, c, d) as real <= absolute(b)
            + 1real || reach(a, b, c, d) as real <= absolute(c) + 1real || reach(
            a,
            b,
            c,
            d,
        ) as real <= absolute(d) + 1real,
{
    lemma_absolute_positive(a);
    lemma_absolute_positive(b);
    lemma_absolute_positive(c);
    lemma_absolute_positive(d);
}

/// A character of which a slanted line or a bend reaches more than two pixels out of its box to
/// the left cannot be drawn, if it has pixels at all.
pub proof fn lemma_too_far_left(data: Seq<u8>, size: u8, ch: char, i: int, x: u32)
    requires
        size > 0,
        font_height(data) != 0,
        glyph_box(data, size, ch).2 > 0,
        glyph_box(data, size, ch).3 > 0,
        0 <= i < outline_curves(data, ch).len(),
        match outline_curves(data, ch)[i] {
            Curve::Line(p, q) => p.0 != q.0 && p.1 != q.1,
            _ => true,
        },
        lies_across(outline_curves(data, ch)[i], x),
        value(x) * size as real / (font_height(data) as real) < glyph_box(data, size, ch).0 as real
            - 2real,
    ensures
        !drawable(data, size, ch),
{
    let c = outline_curves(data, ch)[i];
    let (left, _, _, h) = glyph_box(data, size, ch);
    let (rows, height) = (h as int, font_height(data) as int);
    let (p, q, r, s) = c.corners();
    lemma_reach(p.0, q.0, r.0, s.0);
    let (n, z, k) = (
        reach(p.0, q.0, r.0, s.0) as real,
        size as real,
        size_of(height) as real,
    );
    assert((reach(p.0, q.0, r.0, s.0) * size) as real == n * z) by (nonlinear_arith)
        requires
            n == reach(p.0, q.0, r.0, s.0) as real,
            z == size as real,
    ;
    assert(n * z / k >= 0real) by (nonlinear_arith)
        requires
            n >= 0real,
            z >= 0real,
            k > 0real,
    ;
    let across = c.across(size, height, left as int);
    assert(across >= 0real);
    assert(rows * rows >= 0) by (nonlinear_arith);
    let g = (rows + rows * rows / 0x100_0000 + 256) as real;
    assert(g >= 0real);
    assert(across * g >= 0real) by (nonlinear_arith)
        requires
            across >= 0real,
            g >= 0real,
    ;
    assert(c.drift(size, height, left as int, rows) >= 0real);
    assert(!c.keeps_right(size, height, left as int, rows));
}

/// What is reached, in pixels, is bounded as the points are.
proof fn lemma_reach_scaled(a: u32, b: u32, c: u32, d: u32, size: u8, height: int, bound: real)
    requires
        size > 0,
        height != 0,
        forall|x: u32|
            x == a || x == b || x == c || x == d ==> (#[trigger] absolute(x) + 1real)
                * size as real / size_of(height) as real <= bound,
    ensures
        0real <= (reach(a, b, c, d) * size) as real / size_of(height) as real <= bound,
{
    lemma_reach(a, b, c, d);
    let r = reach(a, b, c, d);
    let (n, z, k) = (r as real, size as real, size_of(height) as real);
    assert((r * size) as real == n * z) by (nonlinear_arith)
        requires
            n == r as real,
            z == size as real,
    ;
    let x = if n <= absolute(a) + 1real {
        a
    } else if n <= absolute(b) + 1real {
        b
    } else if n <= absolute(c) + 1real {
        c
    } else {
        d
    };
    let m = absolute(x) + 1real;
    assert(m * z / k <= bound);
    assert(0real <= n * z / k <= m * z / k) by (nonlinear_arith)
        requires
            0real <= n <= m,
            z > 0real,
            k > 0real,
    ;
}

/// A character whose outline lies within 4096 pixels of its corner and nowhere left of its box
/// can be drawn.
pub proof fn lemma_ordinary_drawn(data: Seq<u8>, size: u8, ch: char)
    requires
        font_height(data) != 0,
        glyph_box(data, size, ch).3 <= 4096,
        4 * (glyph_box(data, size, ch).2 * glyph_box(data, size, ch).3 + 4) <= isize::MAX,
        forall|i: int, x: u32|
            0 <= i < outline_curves(data, ch).len() && #[trigger] lies_across(
                outline_curves(data, ch)[i],
                x,
            ) ==> {
                let (b, n) = (glyph_box(data, size, ch), font_height(data));
                &&& is_finite(x)
                &&& (absolute(x) + 1real) * size as real / size_of(n as int) as real + size_of(
                    b.0 as int,
                ) as real <= 4096real
                &&& value(x) * size as real / n as real >= b.0 as real
            },
        forall|i: int, y: u32|
            0 <= i < outline_curves(data, ch).len() && #[trigger] lies_along(
                outline_curves(data, ch)[i],
                y,
            ) ==> is_finite(y) && (absolute(y) + 1real) * size as real / size_of(
                font_height(data) as int,
            ) as real <= 4096real,
    ensures
        drawable(data, size, ch),
{
    let (left, _, w, h) = glyph_box(data, size, ch);
    let height = font_height(data) as int;
    if size > 0 {
        assert forall|i: int| 0 <= i < outline_curves(data, ch).len() implies {
            let c = #[trigger] outline_curves(data, ch)[i];
            &&& c.in_range(size, height, left as int)
            &&& w == 0 || h == 0 || c.straight() || c.keeps_right(
                size,
                height,
                left as int,
                h as int,
            )
        } by {
            let c = outline_curves(data, ch)[i];
            let (p, q, r, s) = c.corners();
            let far = 4096real - size_of(left as int) as real;
            assert(lies_across(c, p.0) && lies_across(c, q.0) && lies_across(c, r.0)
                && lies_across(c, s.0));
            assert(lies_along(c, p.1) && lies_along(c, q.1) && lies_along(c, r.1) && lies_along(
                c,
                s.1,
            ));
            lemma_reach_scaled(p.0, q.0, r.0, s.0, size, height, far);
            lemma_reach_scaled(p.1, q.1, r.1, s.1, size, height, 4096real);
            let across = c.across(size, height, left as int);
            assert(0real <= across <= 4096real);
            let rows = h as int;
            assert(0 <= rows * rows <= 4096 * 4096) by (nonlinear_arith)
                requires
                    0 <= rows <= 4096,
            ;
            let g = (rows + rows * rows / 0x100_0000 + 256) as real;
            assert(0real <= g <= 4353real);
            assert(across * g <= 4096real * 4353real) by (nonlinear_arith)
                requires
                    0real <= across <= 4096real,
                    0real <= g <= 4353real,
            ;
            assert(c.drift(size, height, left as int, rows) <= 2real);
        }
    }
}

/// A character whose outline is made of lines straight down and straight across can be drawn,
/// however large it is, as long as its coordinates stay within `2^23` pixels and its pixels find
/// room in memory.
pub proof fn lemma_straight_drawn(data: Seq<u8>, size: u8, ch: char)
    requires
        font_height(data) != 0,
        4 * (glyph_box(data, size, ch).2 * glyph_box(data, size, ch).3 + 4) <= isize::MAX,
        -0x80_0000 <= glyph_box(data, size, ch).0 <= 0x80_0000,
        forall|i: int|
            0 <= i < outline_curves(data, ch).len() ==> match #[trigger] outline_curves(
                data,
                ch,
            )[i] {
                Curve::Line(p, q) => p.0 == q.0 || p.1 == q.1,
                _ => false,
            },
        forall|i: int, x: u32|
            0 <= i < outline_curves(data, ch).len() && #[trigger] lies_across(
                outline_curves(data, ch)[i],
                x,
            ) ==> is_finite(x) && (absolute(x) + 1real) * size as real / size_of(
                font_height(data) as int,
            ) as real <= 0x80_0000real,
        forall|i: int, y: u32|
            0 <= i < outline_curves(data, ch).len() && #[trigger] lies_along(
                outline_curves(data, ch)[i],
                y,
            ) ==> is_finite(y) && (absolute(y) + 1real) * size as real / size_of(
                font_height(data) as int,
            ) as real <= 0x80_0000real,
    ensures
        drawable(data, size, ch),
{
    let left = glyph_box(data, size, ch).0 as int;
    let height = font_height(data) as int;
    if size > 0 {
        assert forall|i: int| 0 <= i < outline_curves(data, ch).len() implies {
            let c = #[trigger] outline_curves(data, ch)[i];
            c.in_range(size, height, left) && c.straight()
        } by {
            let c = outline_curves(data, ch)[i];
            let (p, q, r, s) = c.corners();
            assert(lies_across(c, p.0) && lies_across(c, q.0) && lies_across(c, r.0)
                && lies_across(c, s.0));
            assert(lies_along(c, p.1) && lies_along(c, q.1) && lies_along(c, r.1) && lies_along(
                c,
                s.1,
            ));
            lemma_reach_scaled(p.0, q.0, r.0, s.0, size, height, 0x80_0000real);
            lemma_reach_scaled(p.1, q.1, r.1, s.1, size, height, 0x80_0000real);
        }
    }
}

/// A picture that is a whole number of times as high as it is wide gets half that many rows for
/// each column, rounded up.
pub proof fn lemma_rows_of_whole_ratio(w: u32, k: u32, columns: u32)
    requires
        w > 0,
        k * w <= 0xffff_ffff,
        0 < k * columns < 0x1_0000_0000,
    ensures
        rows_for(w, (k * w) as u32, columns) == (k * columns + 1) / 2,
{
    let h = (k * w) as u32;
    let (x, y, a, c) = (w as real, h as real, k as real, columns as real);
    assert(y == a * x) by (nonlinear_arith)
        requires
            y == (k * w) as real,
            a == k as real,
            x == w as real,
    ;
    assert(y / x == a) by (nonlinear_arith)
        requires
            y == a * x,
            x > 0real,
    ;
    lemma_nearest_integer(k as int);
    let n = k * columns;
    assert(n as real == a * c) by (nonlinear_arith)
        requires
            n == k * columns,
            a == k as real,
            c == columns as real,
    ;
    lemma_nearest_integer(n);
    let half = n as real / 2real;
    lemma_nearest_half(half);
    assert(2real * half == n as real);
    assert(nearest(half) == half);
    assert(half_up(half) == (n + 1) / 2);
}

/// Characters are placed where both coordinates of their corners are signed numbers of 32 bits.
pub proof fn lemma_placed(list: Seq<Mark>)
    ensures
        placed(list) <==> forall|i: int|
            0 <= i < list.len() ==> (#[trigger] list[i]).x <= 0x7fff_ffff && list[i].y
                <= 0x7fff_ffff,
{
}

/// The number of rows where nothing or next to nothing is left, where a picture has no width, and
/// where there would be too many.
pub proof fn lemma_rows_at_the_ends(w: u32, h: u32, columns: u32)
    ensures
        w > 0 && h * columns * 100 <= 298 * w ==> rows_for(w, h, columns) == 1,
        w == 0 && (h == 0 || columns == 0) ==> rows_for(w, h, columns) == 1,
        w == 0 && h > 0 && columns > 0 ==> rows_for(w, h, columns) == 0xffff_ffff,
        w > 0 && h * columns >= 0x2_0000_0001 * w ==> rows_for(w, h, columns) == 0xffff_ffff,
{
    if w > 0 {
        let (x, y, c) = (w as real, h as real, columns as real);
        let a = y / x;
        let t = a * c;
        assert((h * columns) as real == y * c) by (nonlinear_arith)
            requires
                y == h as real,
                c == columns as real,
        ;
        assert(a * x == y && a >= 0real) by (nonlinear_arith)
            requires
                a == y / x,
                x > 0real,
                y >= 0real,
        ;
        assert(t * x == y * c && t >= 0real) by (nonlinear_arith)
            requires
                t == a * c,
                a * x == y,
                a >= 0real,
                c >= 0real,
        ;
        let p = nearest(a);
        lemma_nearest_error(a);
        let d = 1real / 0x20_0000_0000_0000real;
        assert(t - t * d <= p * c <= t + t * d && p * c >= 0real) by (nonlinear_arith)
            requires
                t == a * c,
                a - a * d <= p <= a + a * d,
                c >= 0real,
                p >= 0real,
        ;
        let q = nearest(p * c);
        lemma_nearest_error(p * c);
        lemma_nearest_error(q / 2real);
        if h * columns * 100 <= 298 * w {
            assert((h * columns * 100) as real == 100real * (y * c));
            assert((298 * w) as real == 298real * x);
            assert(t <= 298real / 100real) by (nonlinear_arith)
                requires
                    t * x == y * c,
                    100real * (y * c) <= 298real * x,
                    x > 0real,
            ;
        }
        if h * columns >= 0x2_0000_0001 * w {
            assert((0x2_0000_0001 * w) as real == 0x2_0000_0001real * x);
            assert(t >= 0x2_0000_0001real) by (nonlinear_arith)
                requires
                    t * x == y * c,
                    y * c >= 0x2_0000_0001real * x,
                    x > 0real,
            ;
        }
    }
}

} // verus!
