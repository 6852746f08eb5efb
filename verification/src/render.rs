//! Pictures of coloured ASCII art.

use crate::dump::{grid, ColoredChar};
use crate::typeface::{covers, drawable, fits, parses_as_font, Typeface};
use ab_glyph::{FontRef, PxScale};
use image::{Rgb, RgbImage};
use imageproc::drawing::draw_text_mut;
use vstd::prelude::*;

verus! {

/// The size of the font for cells of [`CHAR_W`] by [`CHAR_H`] pixels.
pub const FONT_SIZE: u8 = 12;

/// The width of a cell of the fixed grid, in pixels.
pub const CHAR_W: u32 = 7;

/// The height of a cell of the fixed grid, in pixels.
pub const CHAR_H: u32 = 14;

/// A character to be drawn: which, in what colour, and where its upper left corner is.
#[derive(Clone, Copy, Debug, PartialEq, Eq, Structural)]
pub struct Stamp {
    pub glyph: ColoredChar,
    pub x: u32,
    pub y: u32,
}

/// A character to be drawn, wherever its upper left corner may be.
pub struct Mark {
    pub glyph: ColoredChar,
    pub x: int,
    pub y: int,
}

impl View for Stamp {
    type V = Mark;

    open spec fn view(&self) -> Mark {
        Mark { glyph: self.glyph, x: self.x as int, y: self.y as int }
    }
}

/// Characters to be drawn, as marks.
pub open spec fn marks(stamps: Seq<Stamp>) -> Seq<Mark> {
    stamps.map_values(|s: Stamp| s@)
}

/// A picture: the red, green and blue of each pixel, row by row.
pub struct Canvas {
    pub width: u32,
    pub height: u32,
    pub pixels: Vec<u8>,
}

impl Canvas {
    /// There are three bytes for each pixel.
    pub open spec fn well_formed(self) -> bool {
        self.pixels@.len() == self.width * self.height * 3
    }
}

/// The pixels of a picture after a character has been drawn on it in a colour, with its upper
/// left corner at `x` and `y`.
pub uninterp spec fn text_drawn(
    pixels: Seq<u8>,
    width: u32,
    height: u32,
    ch: char,
    color: (u8, u8, u8),
    x: int,
    y: int,
    font: Seq<u8>,
    size: u8,
) -> Seq<u8>;

/// The pixels of a picture after a character has been drawn on it.
pub open spec fn stamped(
    pixels: Seq<u8>,
    width: u32,
    height: u32,
    mark: Mark,
    font: Seq<u8>,
    size: u8,
) -> Seq<u8> {
    let c = mark.glyph;
    text_drawn(pixels, width, height, c.ch, (c.r, c.g, c.b), mark.x, mark.y, font, size)
}

/// The red, green and blue of a pixel.
pub open spec fn pixel_at(pixels: Seq<u8>, width: u32, px: int, py: int) -> (u8, u8, u8) {
    let i = (py * width + px) * 3;
    (pixels[i], pixels[i + 1], pixels[i + 2])
}

/// Draws a character on a picture.
///
/// Trusted: what `imageproc::drawing::draw_text_mut` makes of a picture is a function of the
/// picture, the character, its colour and place, the font and its size. It draws on the pixels
/// in the box round the character, leaves the others as they are, and neither adds nor removes
/// any. What the pixels in the box become is left to the name [`text_drawn`]. The arithmetic in it
/// overflows on outlines and places that [`drawable`] and [`fits`] leave out.
#[verifier::external_body]
fn draw_char(
    pixels: Vec<u8>,
    width: u32,
    height: u32,
    ch: char,
    color: (u8, u8, u8),
    x: u32,
    y: u32,
    font: &[u8],
    size: u8,
) -> (r: Vec<u8>)
    requires
        pixels@.len() == width * height * 3,
        parses_as_font(font@),
        drawable(font@, size, ch),
        fits(font@, size, ch, x as int, y as int),
    ensures
        r@ == text_drawn(pixels@, width, height, ch, color, x as int, y as int, font@, size),
        r@.len() == pixels@.len(),
        forall|px: int, py: int|
            0 <= px < width && 0 <= py < height && !covers(
                font@,
                size,
                ch,
                x as int,
                y as int,
                px,
                py,
            ) ==> #[trigger] pixel_at(r@, width, px, py) == pixel_at(pixels@, width, px, py),
{
    let mut img = RgbImage::from_raw(width, height, pixels).unwrap();
    let font = FontRef::try_from_slice(font).unwrap();
    let scale = PxScale { x: size.into(), y: size.into() };
    let rgb = Rgb([color.0, color.1, color.2]);
    draw_text_mut(&mut img, rgb, x as i32, y as i32, scale, &font, &ch.to_string());
    img.into_raw()
}

/// The characters of the first `n` cells of a row: those that are not blank, `char_w` pixels
/// apart.
pub open spec fn row_stamps(row: Seq<ColoredChar>, n: int, y: int, char_w: u32) -> Seq<Mark>
    decreases n,
{
    if n <= 0 {
        Seq::empty()
    } else {
        let before = row_stamps(row, n - 1, y, char_w);
        if row[n - 1].ch == ' ' {
            before
        } else {
            before.push(Mark { glyph: row[n - 1], x: (n - 1) * char_w, y })
        }
    }
}

/// The characters of the first `n` rows, `char_h` pixels apart.
pub open spec fn stamps(
    rows: Seq<Seq<ColoredChar>>,
    n: int,
    char_w: u32,
    char_h: u32,
) -> Seq<Mark>
    decreases n,
{
    if n <= 0 {
        Seq::empty()
    } else {
        stamps(rows, n - 1, char_w, char_h) + row_stamps(
            rows[n - 1],
            rows[n - 1].len() as int,
            (n - 1) * char_h,
            char_w,
        )
    }
}

/// The pixels of a black picture on which characters have been drawn in turn.
pub open spec fn painted(
    stamps: Seq<Mark>,
    width: u32,
    height: u32,
    font: Seq<u8>,
    size: u8,
) -> Seq<u8>
    decreases stamps.len(),
{
    if stamps.len() == 0 {
        Seq::new((width * height * 3) as nat, |i: int| 0u8)
    } else {
        stamped(
            painted(stamps.drop_last(), width, height, font, size),
            width,
            height,
            stamps.last(),
            font,
            size,
        )
    }
}

/// The corners of the characters are signed numbers of 32 bits.
pub open spec fn placed(stamps: Seq<Mark>) -> bool {
    forall|i: int|
        0 <= i < stamps.len() ==> (#[trigger] stamps[i]).x <= i32::MAX && stamps[i].y <= i32::MAX
}

/// The characters fit where they are drawn.
pub open spec fn all_fit(stamps: Seq<Mark>, font: Seq<u8>, size: u8) -> bool {
    forall|i: int|
        0 <= i < stamps.len() ==> fits(
            font,
            size,
            (#[trigger] stamps[i]).glyph.ch,
            stamps[i].x,
            stamps[i].y,
        )
}

/// A pixel lies in none of the boxes round characters.
pub open spec fn uncovered(
    stamps: Seq<Mark>,
    font: Seq<u8>,
    size: u8,
    px: int,
    py: int,
) -> bool {
    forall|i: int|
        0 <= i < stamps.len() ==> !covers(
            font,
            size,
            (#[trigger] stamps[i]).glyph.ch,
            stamps[i].x,
            stamps[i].y,
            px,
            py,
        )
}

/// A picture is black wherever there is no character.
pub open spec fn black_between(
    pixels: Seq<u8>,
    width: u32,
    height: u32,
    stamps: Seq<Mark>,
    font: Seq<u8>,
    size: u8,
) -> bool {
    forall|px: int, py: int|
        0 <= px < width && 0 <= py < height && uncovered(stamps, font, size, px, py)
            ==> #[trigger] pixel_at(pixels, width, px, py) == (0u8, 0u8, 0u8)
}

/// The characters can be drawn at a size.
pub open spec fn all_drawable(stamps: Seq<Mark>, font: Seq<u8>, size: u8) -> bool {
    forall|i: int|
        0 <= i < stamps.len() ==> drawable(font, size, (#[trigger] stamps[i]).glyph.ch)
}

/// A picture of this size can be held in memory.
pub open spec fn holdable(width: int, height: int) -> bool {
    width <= u32::MAX && height <= u32::MAX && width * height * 3 <= isize::MAX
}

/// Lists the characters of a row, if their corners are signed numbers of 32 bits.
fn stamp_row(row: &[ColoredChar], y: u128, char_w: u32, out: &mut Vec<Stamp>) -> (ok: bool)
    ensures
        ok ==> marks(final(out)@) == marks(old(out)@) + row_stamps(
            row@,
            row@.len() as int,
            y as int,
            char_w,
        ),
        ok == placed(row_stamps(row@, row@.len() as int, y as int, char_w)),
{
    let ghost before = marks(out@);
    let mut i: usize = 0;
    assert(before == before + Seq::<Mark>::empty());
    while i < row.len()
        invariant
            i <= row.len(),
            before == marks(old(out)@),
            marks(out@) == before + row_stamps(row@, i as int, y as int, char_w),
            placed(row_stamps(row@, i as int, y as int, char_w)),
        decreases row.len() - i,
    {
        let c = row[i];
        let ghost (some, more) = (
            row_stamps(row@, i as int, y as int, char_w),
            row_stamps(row@, i + 1, y as int, char_w),
        );
        if c.ch != ' ' {
            assert(0 <= i * char_w <= 0xffff_ffff_ffff_ffff * 0xffff_ffff) by (nonlinear_arith)
                requires
                    0 <= i <= 0xffff_ffff_ffff_ffff,
                    0 <= char_w <= 0xffff_ffff,
            ;
            let x: u128 = i as u128 * char_w as u128;
            let ghost last = Mark { glyph: c, x: x as int, y: y as int };
            assert(more == some.push(last));
            if x > i32::MAX as u128 || y > i32::MAX as u128 {
                proof {
                    lemma_row_prefix(row@, i + 1, y as int, char_w);
                    assert(more[some.len() as int] == last);
                    assert(row_stamps(row@, row@.len() as int, y as int, char_w)[some.len() as int]
                        == last);
                }
                return false;
            }
            let ghost listed = out@;
            out.push(Stamp { glyph: c, x: x as u32, y: y as u32 });
            assert(marks(out@) == marks(listed).push(last));
            assert(marks(out@) == before + more);
        }
        i = i + 1;
    }
    true
}

/// The characters of the first cells are the first ones of the row.
proof fn lemma_row_prefix(row: Seq<ColoredChar>, n: int, y: int, char_w: u32)
    requires
        0 <= n <= row.len(),
    ensures
        row_stamps(row, n, y, char_w).is_prefix_of(
            row_stamps(row, row.len() as int, y, char_w),
        ),
    decreases row.len() - n,
{
    let (some, all) = (
        row_stamps(row, n, y, char_w),
        row_stamps(row, row.len() as int, y, char_w),
    );
    if n < row.len() {
        lemma_row_prefix(row, n + 1, y, char_w);
        let more = row_stamps(row, n + 1, y, char_w);
        assert(more == all.subrange(0, more.len() as int));
        assert(some == more.subrange(0, some.len() as int));
        assert(some == all.subrange(0, some.len() as int));
    } else {
        assert(some == all.subrange(0, some.len() as int));
    }
}

/// The characters of the first rows are the first ones of the grid.
proof fn lemma_stamps_prefix(rows: Seq<Seq<ColoredChar>>, n: int, char_w: u32, char_h: u32)
    requires
        0 <= n <= rows.len(),
    ensures
        stamps(rows, n, char_w, char_h).is_prefix_of(
            stamps(rows, rows.len() as int, char_w, char_h),
        ),
    decreases rows.len() - n,
{
    let (some, all) = (
        stamps(rows, n, char_w, char_h),
        stamps(rows, rows.len() as int, char_w, char_h),
    );
    if n < rows.len() {
        lemma_stamps_prefix(rows, n + 1, char_w, char_h);
        let more = stamps(rows, n + 1, char_w, char_h);
        assert(more == all.subrange(0, more.len() as int));
        assert(some == more.subrange(0, some.len() as int));
        assert(some == all.subrange(0, some.len() as int));
    } else {
        assert(some == all.subrange(0, some.len() as int));
    }
}

/// Lists the characters of a grid that are to be drawn, row by row, if their corners are signed
/// numbers of 32 bits. Blanks are not drawn, and it does not matter where they are.
pub fn list_stamps(rows: &[Vec<ColoredChar>], char_w: u32, char_h: u32) -> (r: Option<Vec<Stamp>>)
    ensures
        match r {
            Some(list) => {
                &&& marks(list@) == stamps(grid(rows@), rows@.len() as int, char_w, char_h)
                &&& placed(marks(list@))
            },
            None => !placed(stamps(grid(rows@), rows@.len() as int, char_w, char_h)),
        },
{
    let ghost g = grid(rows@);
    let mut out: Vec<Stamp> = Vec::new();
    let mut i: usize = 0;
    assert(marks(out@) == Seq::<Mark>::empty());
    while i < rows.len()
        invariant
            i <= rows.len(),
            g == grid(rows@),
            marks(out@) == stamps(g, i as int, char_w, char_h),
            placed(marks(out@)),
        decreases rows.len() - i,
    {
        assert(g[i as int] == rows[i as int]@);
        assert(0 <= i * char_h <= 0xffff_ffff_ffff_ffff * 0xffff_ffff) by (nonlinear_arith)
            requires
                0 <= i <= 0xffff_ffff_ffff_ffff,
                0 <= char_h <= 0xffff_ffff,
        ;
        let y: u128 = i as u128 * char_h as u128;
        let ghost some = marks(out@);
        let ghost last = row_stamps(g[i as int], g[i as int].len() as int, y as int, char_w);
        let ok = stamp_row(rows[i].as_slice(), y, char_w, &mut out);
        assert(stamps(g, i + 1, char_w, char_h) == some + last);
        if !ok {
            proof {
                lemma_stamps_prefix(g, i + 1, char_w, char_h);
                let all = stamps(g, g.len() as int, char_w, char_h);
                let k = choose|k: int|
                    0 <= k < last.len() && !((#[trigger] last[k]).x <= i32::MAX && last[k].y
                        <= i32::MAX);
                assert((some + last)[some.len() + k] == last[k]);
                assert(all[some.len() + k] == last[k]);
            }
            return None;
        }
        proof {
            assert forall|k: int| 0 <= k < (some + last).len() implies (#[trigger] (some
                + last)[k]).x <= i32::MAX && (some + last)[k].y <= i32::MAX by {
                if k < some.len() {
                    assert((some + last)[k] == some[k]);
                } else {
                    assert((some + last)[k] == last[k - some.len()]);
                }
            }
        }
        i = i + 1;
    }
    Some(out)
}

/// Draws characters on a black picture.
fn paint(list: &[Stamp], width: u32, height: u32, font: &Typeface, size: u8) -> (r: Canvas)
    requires
        holdable(width as int, height as int),
        all_drawable(marks(list@), font@, size),
        all_fit(marks(list@), font@, size),
    ensures
        r.well_formed(),
        r.width == width,
        r.height == height,
        r.pixels@ == painted(marks(list@), width, height, font@, size),
        black_between(r.pixels@, width, height, marks(list@), font@, size),
{
    let ghost all = marks(list@);
    assert(width * height >= 0) by (nonlinear_arith)
        requires
            width >= 0,
            height >= 0,
    ;
    let n: usize = width as usize * height as usize * 3;
    let mut pixels: Vec<u8> = vec![0u8; n];
    assert(pixels@ == painted(all.take(0), width, height, font@, size));
    proof {
        assert forall|px: int, py: int| 0 <= px < width && 0 <= py < height implies
            #[trigger] pixel_at(pixels@, width, px, py) == (0u8, 0u8, 0u8) by {
            let (w, h) = (width as int, height as int);
            assert(0 <= py * w + px < w * h) by (nonlinear_arith)
                requires
                    0 <= px < w,
                    0 <= py < h,
            ;
        }
    }
    let mut i: usize = 0;
    while i < list.len()
        invariant
            i <= list.len(),
            all == marks(list@),
            all_drawable(all, font@, size),
            all_fit(all, font@, size),
            pixels@.len() == width * height * 3,
            pixels@ == painted(all.take(i as int), width, height, font@, size),
            black_between(pixels@, width, height, all.take(i as int), font@, size),
        decreases list.len() - i,
    {
        let ghost before = pixels@;
        assert(all.take(i + 1).drop_last() == all.take(i as int));
        let (c, x, y) = (list[i].glyph, list[i].x, list[i].y);
        let rgb = (c.r, c.g, c.b);
        assert(all[i as int] == list@[i as int]@);
        pixels = draw_char(pixels, width, height, c.ch, rgb, x, y, font.as_slice(), size);
        proof {
            let (some, more) = (all.take(i as int), all.take(i + 1));
            assert forall|px: int, py: int|
                0 <= px < width && 0 <= py < height && uncovered(
                    more,
                    font@,
                    size,
                    px,
                    py,
                ) implies #[trigger] pixel_at(pixels@, width, px, py) == (0u8, 0u8, 0u8) by {
                assert(more[i as int] == all[i as int]);
                assert(!covers(font@, size, c.ch, x as int, y as int, px, py));
                assert(uncovered(some, font@, size, px, py)) by {
                    assert forall|j: int| 0 <= j < some.len() implies !covers(
                        font@,
                        size,
                        (#[trigger] some[j]).glyph.ch,
                        some[j].x,
                        some[j].y,
                        px,
                        py,
                    ) by {
                        assert(more[j] == some[j]);
                    }
                }
                assert(pixel_at(before, width, px, py) == (0u8, 0u8, 0u8));
            }
        }
        i = i + 1;
    }
    assert(all.take(i as int) == all);
    Canvas { width, height, pixels }
}

/// Why ASCII art cannot be rendered.
#[derive(Clone, Copy, Debug, PartialEq, Eq, Structural)]
pub enum RenderError {
    /// The picture is too large, or a character lies too far out.
    TooLarge,
    /// A character is not [`drawable`] at the size asked for.
    Font,
}

/// Whether a picture can be held in memory.
fn can_hold(width: u64, height: u64) -> (r: bool)
    ensures
        r == holdable(width as int, height as int),
{
    if width > u32::MAX as u64 || height > u32::MAX as u64 {
        return false;
    }
    assert(0 <= width * height <= 0xffff_ffff * 0xffff_ffff) by (nonlinear_arith)
        requires
            0 <= width <= 0xffff_ffff,
            0 <= height <= 0xffff_ffff,
    ;
    width as u128 * height as u128 * 3 <= isize::MAX as u128
}

/// Whether the characters fit where they are drawn.
fn have_room(list: &[Stamp], font: &Typeface, size: u8) -> (r: bool)
    ensures
        r == all_fit(marks(list@), font@, size),
{
    let ghost all = marks(list@);
    let mut i: usize = 0;
    while i < list.len()
        invariant
            i <= list.len(),
            all == marks(list@),
            forall|j: int|
                0 <= j < i ==> fits(
                    font@,
                    size,
                    (#[trigger] all[j]).glyph.ch,
                    all[j].x,
                    all[j].y,
                ),
        decreases list.len() - i,
    {
        assert(all[i as int] == list@[i as int]@);
        if !font.has_room(size, list[i].glyph.ch, list[i].x, list[i].y) {
            return false;
        }
        i = i + 1;
    }
    true
}

/// Whether the characters can be drawn.
fn can_draw_all(list: &[Stamp], font: &Typeface, size: u8) -> (r: bool)
    ensures
        r == all_drawable(marks(list@), font@, size),
{
    let ghost all = marks(list@);
    let mut i: usize = 0;
    while i < list.len()
        invariant
            i <= list.len(),
            all == marks(list@),
            forall|j: int| 0 <= j < i ==> drawable(font@, size, (#[trigger] all[j]).glyph.ch),
        decreases list.len() - i,
    {
        assert(all[i as int] == list@[i as int]@);
        if !font.can_draw(size, list[i].glyph.ch) {
            return false;
        }
        i = i + 1;
    }
    true
}

/// The picture of a grid of coloured characters: `target_w` by `target_h` pixels, black but for
/// the characters, each in its colour in a cell of `char_w` by `char_h` pixels.
pub open spec fn rendered(
    rows: Seq<Seq<ColoredChar>>,
    font: Seq<u8>,
    target_w: u32,
    target_h: u32,
    char_w: u32,
    char_h: u32,
    font_size: u8,
) -> Seq<u8> {
    painted(
        stamps(rows, rows.len() as int, char_w, char_h),
        target_w,
        target_h,
        font,
        font_size,
    )
}

/// What keeps a grid of coloured characters from being rendered.
pub open spec fn obstacle(
    rows: Seq<Seq<ColoredChar>>,
    font: Seq<u8>,
    target_w: int,
    target_h: int,
    char_w: u32,
    char_h: u32,
    font_size: u8,
) -> Option<RenderError> {
    let drawn = stamps(rows, rows.len() as int, char_w, char_h);
    if !holdable(target_w, target_h) || !all_fit(drawn, font, font_size) {
        Some(RenderError::TooLarge)
    } else if !all_drawable(drawn, font, font_size) {
        Some(RenderError::Font)
    } else {
        None
    }
}

/// Renders a grid of coloured characters on a canvas of a given size.
pub fn render_colored_ascii(
    rows: &[Vec<ColoredChar>],
    font: &Typeface,
    target_w: u32,
    target_h: u32,
    char_w: u32,
    char_h: u32,
    font_size: u8,
) -> (r: Result<Canvas, RenderError>)
    ensures
        match r {
            Ok(canvas) => {
                &&& obstacle(
                    grid(rows@),
                    font@,
                    target_w as int,
                    target_h as int,
                    char_w,
                    char_h,
                    font_size,
                ) is None
                &&& canvas.well_formed()
                &&& canvas.width == target_w
                &&& canvas.height == target_h
                &&& canvas.pixels@ == rendered(
                    grid(rows@),
                    font@,
                    target_w,
                    target_h,
                    char_w,
                    char_h,
                    font_size,
                )
                &&& black_between(
                    canvas.pixels@,
                    target_w,
                    target_h,
                    stamps(grid(rows@), rows@.len() as int, char_w, char_h),
                    font@,
                    font_size,
                )
            },
            Err(e) => obstacle(
                grid(rows@),
                font@,
                target_w as int,
                target_h as int,
                char_w,
                char_h,
                font_size,
            ) == Some(e),
        },
{
    if !can_hold(target_w as u64, target_h as u64) {
        return Err(RenderError::TooLarge);
    }
    let list = match list_stamps(rows, char_w, char_h) {
        Some(list) => list,
        None => {
            return Err(RenderError::TooLarge);
        },
    };
    if !have_room(list.as_slice(), font, font_size) {
        return Err(RenderError::TooLarge);
    }
    if !can_draw_all(list.as_slice(), font, font_size) {
        return Err(RenderError::Font);
    }
    Ok(paint(list.as_slice(), target_w, target_h, font, font_size))
}

/// Renders a grid of coloured characters, `n_cols` wide, in cells of [`CHAR_W`] by [`CHAR_H`]
/// pixels.
pub fn render_fixed_cells(rows: &[Vec<ColoredChar>], n_cols: usize, font: &Typeface) -> (r: Result<
    Canvas,
    RenderError,
>)
    ensures
        match r {
            Ok(canvas) => {
                &&& obstacle(
                    grid(rows@),
                    font@,
                    n_cols * CHAR_W,
                    rows@.len() * CHAR_H,
                    CHAR_W,
                    CHAR_H,
                    FONT_SIZE,
                ) is None
                &&& canvas.well_formed()
                &&& canvas.width == n_cols * CHAR_W
                &&& canvas.height == rows@.len() * CHAR_H
                &&& canvas.pixels@ == rendered(
                    grid(rows@),
                    font@,
                    (n_cols * CHAR_W) as u32,
                    (rows@.len() * CHAR_H) as u32,
                    CHAR_W,
                    CHAR_H,
                    FONT_SIZE,
                )
                &&& black_between(
                    canvas.pixels@,
                    canvas.width,
                    canvas.height,
                    stamps(grid(rows@), rows@.len() as int, CHAR_W, CHAR_H),
                    font@,
                    FONT_SIZE,
                )
            },
            Err(e) => obstacle(
                grid(rows@),
                font@,
                n_cols * CHAR_W,
                rows@.len() * CHAR_H,
                CHAR_W,
                CHAR_H,
                FONT_SIZE,
            ) == Some(e),
        },
{
    let n_rows: usize = rows.len();
    assert(n_cols * CHAR_W == n_cols * 7 && n_rows * CHAR_H == n_rows * 14);
    let width: u128 = n_cols as u128 * CHAR_W as u128;
    let height: u128 = n_rows as u128 * CHAR_H as u128;
    if width > u32::MAX as u128 || height > u32::MAX as u128 {
        return Err(RenderError::TooLarge);
    }
    render_colored_ascii(rows, font, width as u32, height as u32, CHAR_W, CHAR_H, FONT_SIZE)
}

/// The characters of a row that are drawn: exactly those that are not blank, each at the corner
/// of its cell.
proof fn lemma_row_stamps_exact(row: Seq<ColoredChar>, n: int, y: int, char_w: u32, s: Mark)
    requires
        0 <= n <= row.len(),
    ensures
        row_stamps(row, n, y, char_w).contains(s) <==> exists|c: int|
            0 <= c < n && s.glyph == #[trigger] row[c] && row[c].ch != ' ' && s.x == c
                * char_w && s.y == y,
    decreases n,
{
    let after = row_stamps(row, n, y, char_w);
    if n > 0 {
        lemma_row_stamps_exact(row, n - 1, y, char_w, s);
        let before = row_stamps(row, n - 1, y, char_w);
        let last = Mark { glyph: row[n - 1], x: (n - 1) * char_w, y };
        if row[n - 1].ch != ' ' {
            assert(after == before.push(last));
            assert(after[before.len() as int] == last);
            if before.contains(s) {
                let k = choose|k: int| 0 <= k < before.len() && before[k] == s;
                assert(after[k] == s);
            }
            if after.contains(s) && s != last {
                let k = choose|k: int| 0 <= k < after.len() && after[k] == s;
                assert(before[k] == s);
            }
        }
    }
}

/// The characters of a grid that are drawn: exactly those that are not blank, each at the corner
/// of its cell.
pub proof fn lemma_stamps_exact(
    rows: Seq<Seq<ColoredChar>>,
    n: int,
    char_w: u32,
    char_h: u32,
    s: Mark,
)
    requires
        0 <= n <= rows.len(),
    ensures
        stamps(rows, n, char_w, char_h).contains(s) <==> exists|r: int, c: int|
            0 <= r < n && 0 <= c < rows[r].len() && s.glyph == #[trigger] rows[r][c]
                && rows[r][c].ch != ' ' && s.x == c * char_w && s.y == r * char_h,
    decreases n,
{
    if n > 0 {
        lemma_stamps_exact(rows, n - 1, char_w, char_h, s);
        let row = rows[n - 1];
        let y = (n - 1) * char_h;
        lemma_row_stamps_exact(row, row.len() as int, y, char_w, s);
        let before = stamps(rows, n - 1, char_w, char_h);
        let last = row_stamps(row, row.len() as int, y, char_w);
        let after = before + last;
        assert(after.contains(s) <==> before.contains(s) || last.contains(s)) by {
            if before.contains(s) {
                let k = choose|k: int| 0 <= k < before.len() && before[k] == s;
                assert(after[k] == s);
            }
            if last.contains(s) {
                let k = choose|k: int| 0 <= k < last.len() && last[k] == s;
                assert(after[before.len() + k] == s);
            }
            if after.contains(s) {
                let k = choose|k: int| 0 <= k < after.len() && after[k] == s;
                if k < before.len() {
                    assert(before[k] == s);
                } else {
                    assert(last[k - before.len()] == s);
                }
            }
        }
        if last.contains(s) {
            let c = choose|c: int|
                0 <= c < row.len() && s.glyph == #[trigger] row[c] && row[c].ch != ' ' && s.x == c
                    * char_w && s.y == y;
            assert(s.glyph == rows[n - 1][c]);
        }
    }
}

/// Two cells at the same place of two rows look the same: they are the same, or both are blank
/// or beyond the end of their row.
pub open spec fn alike(a: Seq<ColoredChar>, b: Seq<ColoredChar>, c: int) -> bool {
    let (p, q) = (c < a.len() && a[c].ch != ' ', c < b.len() && b[c].ch != ' ');
    p == q && (p ==> a[c] == b[c])
}

/// Two grids differ in nothing but the colours and the number of their blanks.
pub open spec fn alike_but_for_blanks(
    a: Seq<Seq<ColoredChar>>,
    b: Seq<Seq<ColoredChar>>,
) -> bool {
    a.len() == b.len() && forall|r: int, c: int|
        0 <= r < a.len() && 0 <= c ==> #[trigger] alike(a[r], b[r], c)
}

/// Blanks at the end of a row add nothing to it.
proof fn lemma_blank_end(row: Seq<ColoredChar>, n: int, m: int, y: int, char_w: u32)
    requires
        0 <= n <= m <= row.len(),
        forall|c: int| n <= c < m ==> (#[trigger] row[c]).ch == ' ',
    ensures
        row_stamps(row, m, y, char_w) == row_stamps(row, n, y, char_w),
    decreases m - n,
{
    if n < m {
        lemma_blank_end(row, n, m - 1, y, char_w);
        assert(row[m - 1].ch == ' ');
    }
}

/// Cells that look the same are drawn in the same way.
proof fn lemma_alike(a: Seq<ColoredChar>, b: Seq<ColoredChar>, n: int, y: int, char_w: u32)
    requires
        0 <= n <= a.len(),
        n <= b.len(),
        forall|c: int| 0 <= c ==> #[trigger] alike(a, b, c),
    ensures
        row_stamps(a, n, y, char_w) == row_stamps(b, n, y, char_w),
    decreases n,
{
    if n > 0 {
        lemma_alike(a, b, n - 1, y, char_w);
        assert(alike(a, b, n - 1));
    }
}

/// Rows that differ in nothing but blanks are drawn in the same way.
proof fn lemma_row_blanks(a: Seq<ColoredChar>, b: Seq<ColoredChar>, y: int, char_w: u32)
    requires
        a.len() <= b.len(),
        forall|c: int| 0 <= c ==> #[trigger] alike(a, b, c),
    ensures
        row_stamps(a, a.len() as int, y, char_w) == row_stamps(b, b.len() as int, y, char_w),
{
    lemma_alike(a, b, a.len() as int, y, char_w);
    assert forall|c: int| a.len() <= c < b.len() implies (#[trigger] b[c]).ch == ' ' by {
        assert(alike(a, b, c));
    }
    lemma_blank_end(b, a.len() as int, b.len() as int, y, char_w);
}

/// Grids that differ in nothing but blanks are drawn in the same way.
proof fn lemma_stamps_blanks(
    a: Seq<Seq<ColoredChar>>,
    b: Seq<Seq<ColoredChar>>,
    n: int,
    char_w: u32,
    char_h: u32,
)
    requires
        alike_but_for_blanks(a, b),
        0 <= n <= a.len(),
    ensures
        stamps(a, n, char_w, char_h) == stamps(b, n, char_w, char_h),
    decreases n,
{
    if n > 0 {
        lemma_stamps_blanks(a, b, n - 1, char_w, char_h);
        let (p, q) = (a[n - 1], b[n - 1]);
        assert forall|c: int| 0 <= c implies #[trigger] alike(p, q, c) by {
            assert(alike(a[n - 1], b[n - 1], c));
        }
        assert forall|c: int| 0 <= c implies #[trigger] alike(q, p, c) by {
            assert(alike(p, q, c));
        }
        if p.len() <= q.len() {
            lemma_row_blanks(p, q, (n - 1) * char_h, char_w);
        } else {
            lemma_row_blanks(q, p, (n - 1) * char_h, char_w);
        }
    }
}

/// Blanks do not matter: grids that differ in nothing but the colours and the number of their
/// blanks meet the same obstacles and give the same picture.
pub proof fn lemma_blanks_do_not_matter(
    a: Seq<Seq<ColoredChar>>,
    b: Seq<Seq<ColoredChar>>,
    font: Seq<u8>,
    target_w: u32,
    target_h: u32,
    char_w: u32,
    char_h: u32,
    font_size: u8,
)
    requires
        alike_but_for_blanks(a, b),
    ensures
        obstacle(a, font, target_w as int, target_h as int, char_w, char_h, font_size) == obstacle(
            b,
            font,
            target_w as int,
            target_h as int,
            char_w,
            char_h,
            font_size,
        ),
        rendered(a, font, target_w, target_h, char_w, char_h, font_size) == rendered(
            b,
            font,
            target_w,
            target_h,
            char_w,
            char_h,
            font_size,
        ),
{
    lemma_stamps_blanks(a, b, a.len() as int, char_w, char_h);
}

/// Of blanks nothing is drawn.
proof fn lemma_no_stamps(rows: Seq<Seq<ColoredChar>>, n: int, char_w: u32, char_h: u32)
    requires
        0 <= n <= rows.len(),
        forall|r: int, c: int|
            0 <= r < rows.len() && 0 <= c < rows[r].len() ==> (#[trigger] rows[r][c]).ch == ' ',
    ensures
        stamps(rows, n, char_w, char_h) == Seq::<Mark>::empty(),
    decreases n,
{
    if n > 0 {
        lemma_no_stamps(rows, n - 1, char_w, char_h);
        let row = rows[n - 1];
        assert forall|c: int| 0 <= c < row.len() implies (#[trigger] row[c]).ch == ' ' by {
            assert(rows[n - 1][c].ch == ' ');
        }
        lemma_blank_end(row, 0, row.len() as int, (n - 1) * char_h, char_w);
    }
}

/// A grid of nothing but blanks is a black picture, with any font, if the picture can be held in
/// memory.
pub proof fn lemma_blanks_are_black(
    rows: Seq<Seq<ColoredChar>>,
    font: Seq<u8>,
    target_w: u32,
    target_h: u32,
    char_w: u32,
    char_h: u32,
    font_size: u8,
)
    requires
        forall|r: int, c: int|
            0 <= r < rows.len() && 0 <= c < rows[r].len() ==> (#[trigger] rows[r][c]).ch == ' ',
        holdable(target_w as int, target_h as int),
    ensures
        obstacle(
            rows,
            font,
            target_w as int,
            target_h as int,
            char_w,
            char_h,
            font_size,
        ) is None,
        rendered(rows, font, target_w, target_h, char_w, char_h, font_size) == Seq::new(
            (target_w * target_h * 3) as nat,
            |i: int| 0u8,
        ),
{
    lemma_no_stamps(rows, rows.len() as int, char_w, char_h);
}

} // verus!
