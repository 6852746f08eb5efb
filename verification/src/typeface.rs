//! Fonts: what a font file says of the size of its characters.

use crate::binary32::{
    absolute, ceil, ceil_absolute, ceil_to_u32, ceiling, enlarged, floor_enlarged, has_value,
    is_finite, is_nan, value,
};
use ab_glyph::{point, Font, FontRef, OutlineCurve, Point, PxScale, ScaleFont};
use vstd::prelude::*;

verus! {

/// The bytes are a font file.
pub uninterp spec fn parses_as_font(data: Seq<u8>) -> bool;

/// The height of a font in its own units, from the lowest descent to the highest ascent.
pub uninterp spec fn font_height(data: Seq<u8>) -> i32;

/// How far a character takes the pen at a size in pixels: the bits of a single-precision number.
pub uninterp spec fn advance_bits(data: Seq<u8>, size: u8, ch: char) -> u32;

/// The box round a character drawn at a size, in whole pixels: how far its left and its upper
/// edge are from the corner at which the character is drawn, its width, and its height.
pub uninterp spec fn glyph_box(data: Seq<u8>, size: u8, ch: char) -> (i32, i32, u32, u32);

/// A piece of the outline of a character: the points that it runs from and to, and between them
/// those that bend it. The coordinates are the bits of single-precision numbers, in units of the
/// font, to the right and up.
#[derive(Clone, Copy, Debug, PartialEq, Eq)]
pub enum Curve {
    /// A straight line.
    Line((u32, u32), (u32, u32)),
    /// A quadratic curve.
    Quad((u32, u32), (u32, u32), (u32, u32)),
    /// A cubic curve.
    Cubic((u32, u32), (u32, u32), (u32, u32), (u32, u32)),
}

/// The outline of a character, in units of the font.
pub uninterp spec fn outline_curves(data: Seq<u8>, ch: char) -> Seq<Curve>;

/// Whether bytes are a font file.
///
/// Trusted: `ab_glyph::FontRef::try_from_slice` reads nothing but the bytes, so that whether
/// it accepts them is a property of the bytes.
#[verifier::external_body]
fn is_font(data: &[u8]) -> (r: bool)
    ensures
        r == parses_as_font(data@),
{
    FontRef::try_from_slice(data).is_ok()
}

/// The height of a font in its own units.
///
/// Trusted: `ab_glyph::Font::height_unscaled` is read from the tables of the font. It is the
/// difference of two integers of 16 bits.
#[verifier::external_body]
fn unscaled_height(data: &[u8]) -> (r: i32)
    requires
        parses_as_font(data@),
    ensures
        r == font_height(data@),
        -0x1_0000 < r < 0x1_0000,
{
    FontRef::try_from_slice(data).unwrap().height_unscaled() as i32
}

/// How far a character takes the pen.
///
/// Trusted: `ab_glyph::ScaleFont::h_advance`, of the glyph that `glyph_id` finds for the
/// character, is computed from the size and from the tables of the font. For a font without
/// height it may be no number; which of the bit patterns for that comes back is left open.
#[verifier::external_body]
fn advance(data: &[u8], size: u8, ch: char) -> (r: u32)
    requires
        parses_as_font(data@),
    ensures
        r == advance_bits(data@, size, ch) || (is_nan(r) && is_nan(advance_bits(data@, size, ch))),
{
    let font = FontRef::try_from_slice(data).unwrap();
    let scaled = font.as_scaled(PxScale { x: size.into(), y: size.into() });
    scaled.h_advance(scaled.glyph_id(ch)).to_bits()
}

/// The height of a line.
///
/// Trusted: `ab_glyph::ScaleFont::height` is the size that the font was scaled to.
#[verifier::external_body]
fn line_height(data: &[u8], size: u8) -> (r: u32)
    requires
        parses_as_font(data@),
    ensures
        r == size,
{
    let font = FontRef::try_from_slice(data).unwrap();
    font.as_scaled(PxScale { x: size.into(), y: size.into() }).height() as u32
}

/// The box round a character.
///
/// Trusted: `ab_glyph::OutlinedGlyph::px_bounds`, of the glyph that `outline_glyph` makes of the
/// character at the height of the ascent, is computed from the size and from the tables of the
/// font. A character without an outline has an empty box.
#[verifier::external_body]
fn outline_box(data: &[u8], size: u8, ch: char) -> (r: (i32, i32, u32, u32))
    requires
        parses_as_font(data@),
    ensures
        r == glyph_box(data@, size, ch),
{
    let font = FontRef::try_from_slice(data).unwrap();
    let scale = PxScale { x: size.into(), y: size.into() };
    let origin = point(0u8.into(), font.as_scaled(scale).ascent());
    match font.outline_glyph(font.glyph_id(ch).with_scale_and_position(scale, origin)) {
        Some(g) => {
            let b = g.px_bounds();
            let (left, top) = (b.min.x.round() as i32, b.min.y.round() as i32);
            (left, top, b.width() as u32, b.height() as u32)
        },
        None => (0, 0, 0, 0),
    }
}

/// The outline of a character.
///
/// Trusted: the curves of `ab_glyph::Font::outline`, of the glyph that `glyph_id` finds for the
/// character, are read from the tables of the font. A character without an outline has none.
#[verifier::external_body]
fn curves_of(data: &[u8], ch: char) -> (r: Vec<Curve>)
    requires
        parses_as_font(data@),
    ensures
        r@ == outline_curves(data@, ch),
{
    let font = FontRef::try_from_slice(data).unwrap();
    let at = |p: Point| (p.x.to_bits(), p.y.to_bits());
    let curve = |c: OutlineCurve| match c {
        OutlineCurve::Line(a, b) => Curve::Line(at(a), at(b)),
        OutlineCurve::Quad(a, b, c) => Curve::Quad(at(a), at(b), at(c)),
        OutlineCurve::Cubic(a, b, c, d) => Curve::Cubic(at(a), at(b), at(c), at(d)),
    };
    match font.outline(font.glyph_id(ch)) {
        Some(outline) => outline.curves.into_iter().map(curve).collect(),
        None => Vec::new(),
    }
}

/// The larger of two integers.
pub open spec fn larger(a: int, b: int) -> int {
    if a < b {
        b
    } else {
        a
    }
}

/// The size of an integer, whatever its sign.
pub open spec fn size_of(n: int) -> int {
    larger(n, -n)
}

/// How far four numbers reach from zero, in whole units.
pub open spec fn reach(a: u32, b: u32, c: u32, d: u32) -> int {
    larger(
        larger(ceil(absolute(a)), ceil(absolute(b))),
        larger(ceil(absolute(c)), ceil(absolute(d))),
    )
}

impl Curve {
    /// The points that span the curve, the last of them repeated up to four.
    pub open spec fn corners(self) -> ((u32, u32), (u32, u32), (u32, u32), (u32, u32)) {
        match self {
            Curve::Line(a, b) => (a, b, b, b),
            Curve::Quad(a, b, c) => (a, b, c, c),
            Curve::Cubic(a, b, c, d) => (a, b, c, d),
        }
    }

    /// Every coordinate is a finite number.
    pub open spec fn finite(self) -> bool {
        let (a, b, c, d) = self.corners();
        &&& is_finite(a.0) && is_finite(b.0) && is_finite(c.0) && is_finite(d.0)
        &&& is_finite(a.1) && is_finite(b.1) && is_finite(c.1) && is_finite(d.1)
    }

    /// How far to the side the curve is from the left edge of a box at most, in pixels.
    pub open spec fn across(self, size: u8, height: int, left: int) -> real {
        let (a, b, c, d) = self.corners();
        (reach(a.0, b.0, c.0, d.0) * size) as real / size_of(height) as real + size_of(
            left,
        ) as real
    }

    /// How far up or down the curve reaches from the base line at most, in pixels.
    pub open spec fn along(self, size: u8, height: int) -> real {
        let (a, b, c, d) = self.corners();
        (reach(a.1, b.1, c.1, d.1) * size) as real / size_of(height) as real
    }

    /// The curve is a line straight down or straight across.
    pub open spec fn straight(self) -> bool {
        match self {
            Curve::Line(a, b) => a.0 == b.0 || a.1 == b.1,
            _ => false,
        }
    }

    /// How far rounding can carry the curve to the side over a number of rows, in pixels.
    ///
    /// A coordinate is rounded once in each row, by at most one part in `2^24`. That adds up, and
    /// what has been added is rounded with it. The points of the curve, the parts it is cut into
    /// and their slopes are rounded too: less, taken together, than in 256 rows. A box is less
    /// than `2^24` pixels high, as it has less than `2^16` units of less than `2^8` pixels.
    pub open spec fn drift(self, size: u8, height: int, left: int, rows: int) -> real {
        let roundings = rows + rows * rows / 0x100_0000 + 256;
        self.across(size, height, left) * roundings as real / 0x100_0000real
    }

    /// Drawn over a number of rows, the curve stays within two pixels left of the edge of a box,
    /// whatever rounding adds.
    ///
    /// Up to `2^21` pixels a quadratic curve is cut into so few parts that rounding puts none of
    /// them past its end.
    pub open spec fn keeps_right(self, size: u8, height: int, left: int, rows: int) -> bool {
        let (a, b, c, d) = self.corners();
        let least = left as real - 2real + self.drift(size, height, left, rows);
        &&& self is Quad ==> self.across(size, height, left) <= 0x20_0000real && self.along(
            size,
            height,
        ) <= 0x20_0000real
        &&& value(a.0) * size as real / height as real >= least
        &&& value(b.0) * size as real / height as real >= least
        &&& value(c.0) * size as real / height as real >= least
        &&& value(d.0) * size as real / height as real >= least
    }

    /// The curve lies within `2^24` pixels.
    pub open spec fn in_range(self, size: u8, height: int, left: int) -> bool {
        &&& self.finite()
        &&& self.across(size, height, left) <= 0x100_0000real
        &&& self.along(size, height) <= 0x100_0000real
    }

    /// The points that span the curve.
    fn list_corners(&self) -> (r: ((u32, u32), (u32, u32), (u32, u32), (u32, u32)))
        ensures
            r == self.corners(),
    {
        match *self {
            Curve::Line(a, b) => (a, b, b, b),
            Curve::Quad(a, b, c) => (a, b, c, c),
            Curve::Cubic(a, b, c, d) => (a, b, c, d),
        }
    }

    /// The distances of the curve, in pixels times the height of the font, are integers.
    proof fn lemma_distances(self, size: u8, height: int, left: int)
        requires
            height != 0,
        ensures
            ({
                let (a, b, c, d) = self.corners();
                let n = size_of(height);
                &&& self.across(size, height, left) * n as real == (reach(a.0, b.0, c.0, d.0)
                    * size + size_of(left) * n) as real
                &&& self.along(size, height) * n as real == (reach(a.1, b.1, c.1, d.1)
                    * size) as real
            }),
    {
        let (a, b, c, d) = self.corners();
        let n = size_of(height);
        let (p, q) = (reach(a.0, b.0, c.0, d.0) * size, reach(a.1, b.1, c.1, d.1) * size);
        let (u, v, w, e) = (p as real, q as real, n as real, size_of(left) as real);
        assert((u / w + e) * w == u + e * w && (v / w) * w == v) by (nonlinear_arith)
            requires
                w > 0real,
        ;
        assert((size_of(left) * n) as real == e * w) by (nonlinear_arith)
            requires
                e == size_of(left) as real,
                w == n as real,
        ;
    }

    /// Whether the curve is a line straight down or straight across.
    fn is_straight(&self) -> (r: bool)
        ensures
            r == self.straight(),
    {
        match *self {
            Curve::Line(a, b) => a.0 == b.0 || a.1 == b.1,
            _ => false,
        }
    }

    /// Whether the curve lies within `2^24` pixels.
    fn is_in_range(&self, size: u8, height: i32, left: i32) -> (r: bool)
        requires
            size > 0,
            height != 0,
            -0x1_0000 < height < 0x1_0000,
        ensures
            r == self.in_range(size, height as int, left as int),
    {
        let (a, b, c, d) = self.list_corners();
        if !(has_value(a.0) && has_value(b.0) && has_value(c.0) && has_value(d.0)) {
            return false;
        }
        if !(has_value(a.1) && has_value(b.1) && has_value(c.1) && has_value(d.1)) {
            return false;
        }
        let n: u64 = magnitude(height);
        let ghost (x, y) = (
            self.across(size, height as int, left as int),
            self.along(size, height as int),
        );
        let ghost (xr, yr) = (reach(a.0, b.0, c.0, d.0), reach(a.1, b.1, c.1, d.1));
        proof {
            self.lemma_distances(size, height as int, left as int);
            lemma_bound(x, xr * size + size_of(left as int) * n, n as int, 0x100_0000);
            lemma_bound(y, yr * size, n as int, 0x100_0000);
            lemma_products(xr, size, size_of(left as int), n as int);
            lemma_products(yr, size, 0, n as int);
        }
        match (measure_reach(a.0, b.0, c.0, d.0), measure_reach(a.1, b.1, c.1, d.1)) {
            (Some(xs), Some(ys)) => {
                let xd: u64 = xs * size as u64 + magnitude(left) * n;
                xd <= 0x100_0000 * n && ys * size as u64 <= 0x100_0000 * n
            },
            _ => false,
        }
    }

    /// Whether the curve stays within two pixels left of the edge of a box, whatever rounding
    /// adds.
    fn does_keep_right(&self, size: u8, height: i32, left: i32, rows: u32) -> (r: bool)
        requires
            size > 0,
            height != 0,
            -0x1_0000 < height < 0x1_0000,
            self.in_range(size, height as int, left as int),
        ensures
            r == self.keeps_right(size, height as int, left as int, rows as int),
    {
        let (a, b, c, d) = self.list_corners();
        let n: u64 = magnitude(height);
        let ghost (x, y) = (
            self.across(size, height as int, left as int),
            self.along(size, height as int),
        );
        let ghost (xr, yr) = (reach(a.0, b.0, c.0, d.0), reach(a.1, b.1, c.1, d.1));
        proof {
            self.lemma_distances(size, height as int, left as int);
            lemma_bound(x, xr * size + size_of(left as int) * n, n as int, 0x100_0000);
            lemma_bound(y, yr * size, n as int, 0x100_0000);
            lemma_bound(x, xr * size + size_of(left as int) * n, n as int, 0x20_0000);
            lemma_bound(y, yr * size, n as int, 0x20_0000);
            lemma_products(xr, size, size_of(left as int), n as int);
            lemma_products(yr, size, 0, n as int);
        }
        let (xs, ys) = match (
            measure_reach(a.0, b.0, c.0, d.0),
            measure_reach(a.1, b.1, c.1, d.1),
        ) {
            (Some(xs), Some(ys)) => (xs, ys),
            _ => {
                return false;
            },
        };
        let xd: u64 = xs * size as u64 + magnitude(left) * n;
        let ghost drift = self.drift(size, height as int, left as int, rows as int);
        if let Curve::Quad(..) = *self {
            if xd > 0x20_0000 * n || ys * size as u64 > 0x20_0000 * n {
                return false;
            }
        }
        assert(0 <= rows * rows <= 0xffff_ffff * 0xffff_ffff) by (nonlinear_arith)
            requires
                0 <= rows <= 0xffff_ffff,
        ;
        let roundings: u64 = rows as u64 + rows as u64 * rows as u64 / 0x100_0000 + 256;
        assert(0 <= xd * roundings <= 0x1000_0000_0000_0000_0000_0000) by (nonlinear_arith)
            requires
                0 <= xd <= 0x1_0000_0000_0000,
                0 <= roundings <= 0x200_0000_0000,
        ;
        let q: i128 = xd as i128 * roundings as i128;
        proof {
            let (s, g, t) = (n as real, roundings as real, xd as real);
            assert(q as real == t * g) by (nonlinear_arith)
                requires
                    q == xd * roundings,
                    t == xd as real,
                    g == roundings as real,
            ;
            assert(drift * (0x100_0000real * s) == t * g) by (nonlinear_arith)
                requires
                    drift == x * g / 0x100_0000real,
                    x * s == t,
            ;
        }
        assert(-0x1_0000 * 0x8000_0002 <= n * (left - 2) <= 0x1_0000 * 0x8000_0002) by (
        nonlinear_arith)
            requires
                0 < n < 0x1_0000,
                -0x8000_0000 <= left <= 0x7fff_ffff,
        ;
        let least: i128 = n as i128 * (left as i128 - 2) * 0x100_0000 + q;
        proof {
            lemma_place(a.0, size, height as int, left as int, drift, q as int);
            lemma_place(b.0, size, height as int, left as int, drift, q as int);
            lemma_place(c.0, size, height as int, left as int, drift, q as int);
            lemma_place(d.0, size, height as int, left as int, drift, q as int);
        }
        let flip = height < 0;
        floor_enlarged(a.0, size, flip) >= least && floor_enlarged(b.0, size, flip) >= least
            && floor_enlarged(c.0, size, flip) >= least && floor_enlarged(d.0, size, flip) >= least
    }
}

/// A number is at most an integer, or is not, as its multiple is.
proof fn lemma_bound(x: real, p: int, n: int, k: int)
    requires
        n > 0,
        x * n as real == p as real,
    ensures
        x <= k as real <==> p <= k * n,
{
    let (u, v) = (n as real, k as real);
    assert((k * n) as real == v * u) by (nonlinear_arith)
        requires
            v == k as real,
            u == n as real,
    ;
    assert(x <= v <==> x * u <= v * u) by (nonlinear_arith)
        requires
            u > 0real,
    ;
}

/// A distance is not below what it is computed from, nor too large for 64 bits.
proof fn lemma_products(r: int, size: u8, left: int, n: int)
    requires
        size > 0,
        0 <= left <= 0x8000_0000,
        0 < n < 0x1_0000,
    ensures
        0 <= left * n <= 0x8000_0000 * 0x1_0000,
        0x100_0000 * n < 0x100_0000_0000,
        r >= 0 ==> r <= r * size,
        0 <= r <= 0x200_0000_0000 ==> r * size <= 0x200_0000_0000 * 255,
{
    assert(0 <= left * n <= 0x8000_0000 * 0x1_0000) by (nonlinear_arith)
        requires
            0 <= left <= 0x8000_0000,
            0 < n < 0x1_0000,
    ;
    assert((r >= 0 ==> r <= r * size) && (0 <= r <= 0x200_0000_0000 ==> r * size
        <= 0x200_0000_0000 * 255)) by (nonlinear_arith)
        requires
            0 < size <= 255,
    ;
}

/// A point is far enough to the right, or is not, as the integer below its multiple is.
proof fn lemma_place(bits: u32, size: u8, height: int, left: int, drift: real, q: int)
    requires
        height != 0,
        drift * (0x100_0000real * size_of(height) as real) == q as real,
    ensures
        value(bits) * size as real / height as real >= left as real - 2real + drift <==> enlarged(
            bits,
            size,
            height < 0,
        ).floor() >= size_of(height) * (left - 2) * 0x100_0000 + q,
{
    let n = size_of(height);
    let (x, s, g, h, e) = (
        value(bits),
        n as real,
        size as real,
        height as real,
        left as real - 2real,
    );
    let k = n * (left - 2) * 0x100_0000 + q;
    let y = x * g / h;
    assert(y * h == x * g) by (nonlinear_arith)
        requires
            y == x * g / h,
            h != 0real,
    ;
    assert(y * (0x100_0000real * s) == enlarged(bits, size, height < 0)) by {
        if height < 0 {
            assert(y * (0x100_0000real * s) == (-x) * g * 0x100_0000real) by (nonlinear_arith)
                requires
                    y * h == x * g,
                    s == -h,
            ;
        } else {
            assert(y * (0x100_0000real * s) == x * g * 0x100_0000real) by (nonlinear_arith)
                requires
                    y * h == x * g,
                    s == h,
            ;
        }
    }
    assert((n * (left - 2)) as real == s * e) by (nonlinear_arith)
        requires
            s == n as real,
            e == (left - 2) as real,
    ;
    let f = 0x100_0000real * s;
    assert((e + drift) * f == s * e * 0x100_0000real + drift * f) by (nonlinear_arith)
        requires
            f == 0x100_0000real * s,
    ;
    assert(k as real == (e + drift) * f);
    assert(y >= e + drift <==> y * f >= (e + drift) * f) by (nonlinear_arith)
        requires
            f > 0real,
    ;
}

/// The size of a number, whatever its sign.
fn magnitude(n: i32) -> (r: u64)
    ensures
        r == size_of(n as int),
{
    if n < 0 {
        (-(n as i64)) as u64
    } else {
        n as u64
    }
}

/// The larger of two.
fn pick_larger(a: u64, b: u64) -> (r: u64)
    ensures
        r == larger(a as int, b as int),
{
    if a < b {
        b
    } else {
        a
    }
}

/// How far four numbers reach from zero, if that is not much above `2^40`.
fn measure_reach(a: u32, b: u32, c: u32, d: u32) -> (r: Option<u64>)
    requires
        is_finite(a) && is_finite(b) && is_finite(c) && is_finite(d),
    ensures
        match r {
            Some(n) => n == reach(a, b, c, d) && n <= 0x200_0000_0000,
            None => reach(a, b, c, d) > 0x100_0000_0000,
        },
{
    match (ceil_absolute(a), ceil_absolute(b), ceil_absolute(c), ceil_absolute(d)) {
        (Some(a), Some(b), Some(c), Some(d)) => Some(
            pick_larger(pick_larger(a, b), pick_larger(c, d)),
        ),
        _ => None,
    }
}

/// A character can be drawn at a size.
///
/// The rasterizer goes through an outline row by row, and the index of a pixel underflows in it
/// where a line that is neither straight down nor straight across comes more than two pixels left
/// of the box round the character. So no such line may come that far, unless the box is empty and
/// has no pixels. The pixels have to find room in memory, and the coordinates in signed numbers of
/// 32 bits. Without a size, or in a font without height, nothing is drawn at all.
pub open spec fn drawable(data: Seq<u8>, size: u8, ch: char) -> bool {
    let (left, _, w, h) = glyph_box(data, size, ch);
    let height = font_height(data) as int;
    ||| size == 0
    ||| height == 0
    ||| {
        &&& 4 * (w * h + 4) <= isize::MAX
        &&& forall|i: int|
            0 <= i < outline_curves(data, ch).len() ==> {
                let c = #[trigger] outline_curves(data, ch)[i];
                &&& c.in_range(size, height, left as int)
                &&& w == 0 || h == 0 || c.straight() || c.keeps_right(
                    size,
                    height,
                    left as int,
                    h as int,
                )
            }
    }
}

/// A character fits at a place: the coordinates of its pixels, and what they are added up from,
/// are signed numbers of 32 bits.
pub open spec fn fits(data: Seq<u8>, size: u8, ch: char, x: int, y: int) -> bool {
    let (left, top, w, h) = glyph_box(data, size, ch);
    &&& x <= i32::MAX
    &&& y <= i32::MAX
    &&& w > 0 && h > 0 ==> {
        &&& x + w - 1 <= i32::MAX
        &&& x + left + w - 1 <= i32::MAX
        &&& y + h - 1 <= i32::MAX
        &&& y + top + h - 1 <= i32::MAX
    }
}

/// A pixel lies in the box round a character that is drawn with its corner at `x` and `y`.
pub open spec fn covers(
    data: Seq<u8>,
    size: u8,
    ch: char,
    x: int,
    y: int,
    px: int,
    py: int,
) -> bool {
    let (left, top, w, h) = glyph_box(data, size, ch);
    x + left <= px < x + left + w && y + top <= py < y + top + h
}

/// Why a font cannot be used.
#[derive(Clone, Copy, Debug, PartialEq, Eq, Structural)]
pub enum FontError {
    /// The data is no font file.
    Invalid,
}

/// A font, held as the bytes of its file.
pub struct Typeface {
    data: Vec<u8>,
}

impl View for Typeface {
    type V = Seq<u8>;

    closed spec fn view(&self) -> Seq<u8> {
        self.data@
    }
}

impl Typeface {
    /// The bytes are a font file.
    #[verifier::type_invariant]
    spec fn valid(self) -> bool {
        parses_as_font(self.data@)
    }

    /// Takes the bytes of a font file.
    pub fn try_from_vec(data: Vec<u8>) -> (r: Result<Typeface, FontError>)
        ensures
            match r {
                Ok(font) => parses_as_font(data@) && font@ == data@,
                Err(_) => !parses_as_font(data@),
            },
    {
        if is_font(data.as_slice()) {
            Ok(Typeface { data })
        } else {
            Err(FontError::Invalid)
        }
    }

    /// The bytes of the font file.
    pub(crate) fn as_slice(&self) -> (r: &[u8])
        ensures
            r@ == self@,
            parses_as_font(r@),
    {
        proof {
            use_type_invariant(self);
        }
        self.data.as_slice()
    }

    /// The height of the font in its own units.
    pub fn height(&self) -> (r: i32)
        ensures
            r == font_height(self@),
            -0x1_0000 < r < 0x1_0000,
    {
        unscaled_height(self.as_slice())
    }

    /// Whether a character can be drawn at a size.
    pub fn can_draw(&self, size: u8, ch: char) -> (r: bool)
        ensures
            r == drawable(self@, size, ch),
    {
        let (left, _, w, h) = outline_box(self.as_slice(), size, ch);
        let height = self.height();
        if size == 0 || height == 0 {
            return true;
        }
        assert(0 <= w * h <= 0xffff_ffff * 0xffff_ffff) by (nonlinear_arith)
            requires
                0 <= w <= 0xffff_ffff,
                0 <= h <= 0xffff_ffff,
        ;
        if w as u64 * h as u64 + 4 > isize::MAX as u64 / 4 {
            return false;
        }
        let curves = curves_of(self.as_slice(), ch);
        let mut i: usize = 0;
        while i < curves.len()
            invariant
                size > 0,
                height != 0,
                -0x1_0000 < height < 0x1_0000,
                height == font_height(self@),
                (left, w, h) == ({
                    let b = glyph_box(self@, size, ch);
                    (b.0, b.2, b.3)
                }),
                curves@ == outline_curves(self@, ch),
                0 <= i <= curves.len(),
                forall|j: int|
                    0 <= j < i ==> {
                        let c = #[trigger] outline_curves(self@, ch)[j];
                        &&& c.in_range(size, height as int, left as int)
                        &&& w == 0 || h == 0 || c.straight() || c.keeps_right(
                            size,
                            height as int,
                            left as int,
                            h as int,
                        )
                    },
            decreases curves.len() - i,
        {
            let c = curves[i];
            assert(c == outline_curves(self@, ch)[i as int]);
            let fine = c.is_in_range(size, height, left) && (w == 0 || h == 0 || c.is_straight()
                || c.does_keep_right(size, height, left, h));
            if !fine {
                return false;
            }
            i += 1;
        }
        true
    }

    /// Whether a character fits at a place.
    pub fn has_room(&self, size: u8, ch: char, x: u32, y: u32) -> (r: bool)
        ensures
            r == fits(self@, size, ch, x as int, y as int),
    {
        let (left, top, w, h) = outline_box(self.as_slice(), size, ch);
        let max: i64 = i32::MAX as i64;
        if x as i64 > max || y as i64 > max {
            return false;
        }
        if w == 0 || h == 0 {
            return true;
        }
        let (right, bottom): (i64, i64) = (x as i64 + w as i64 - 1, y as i64 + h as i64 - 1);
        right <= max && right + left as i64 <= max && bottom <= max && bottom + top as i64 <= max
    }
}

/// The larger of two.
pub open spec fn at_least(n: u32, least: u32) -> u32 {
    if n < least {
        least
    } else {
        n
    }
}

/// The cell of a font: as wide as its `M` takes the pen, as high as a line, in whole pixels and
/// at least one each way.
pub open spec fn cell(data: Seq<u8>, size: u8) -> (u32, u32) {
    cell_from(advance_bits(data, size, 'M'), size as u32)
}

/// The cell for an advance, given by its bits, and a height.
pub open spec fn cell_from(bits: u32, height: u32) -> (u32, u32) {
    (at_least(ceiling(bits), 1), at_least(height, 1))
}

/// Rounds an advance and a height to a cell.
pub fn round_cell(bits: u32, height: u32) -> (r: (u32, u32))
    ensures
        r == cell_from(bits, height),
{
    let w = ceil_to_u32(bits);
    (if w < 1 {
        1
    } else {
        w
    }, if height < 1 {
        1
    } else {
        height
    })
}

/// Measures the actual pixel advance width and line height of a font at a size in pixels.
///
/// Monospace fonts are not half as wide as they are high: a width that is asked of the font
/// keeps the picture from being squashed.
pub fn measure_font_cell(font: &Typeface, font_size: u8) -> (r: (u32, u32))
    ensures
        r == cell(font@, font_size),
{
    let bits = advance(font.as_slice(), font_size, 'M');
    let height = line_height(font.as_slice(), font_size);
    round_cell(bits, height)
}

} // verus!
