//! Where pixels and characters come to stand: in rows, in lines of text and in pictures.

use crate::dump::{
    art_of, lemma_rows_filled, pixel, pixels, rows_of, ColoredChar, Pixel, Ramp,
};
use crate::render::{painted, rendered, row_stamps, stamps, text_drawn, Mark};
use vstd::prelude::*;

verus! {

/// The character that stands for a pixel, with the colour of the pixel.
spec fn glyph(p: Pixel, ramp: Ramp) -> ColoredChar {
    ColoredChar { ch: ramp.char_for(p.r, p.g, p.b), r: p.r, g: p.g, b: p.b }
}

/// Where pixels are followed by others, a new row begins if and only if the number of the row
/// changes there; otherwise the row goes on.
pub proof fn lemma_rows_join(a: Seq<Pixel>, b: Seq<Pixel>, ramp: Ramp)
    requires
        a.len() > 0,
        b.len() > 0,
    ensures
        a.last().y != b[0].y ==> rows_of(a + b, ramp) == rows_of(a, ramp) + rows_of(b, ramp),
        a.last().y == b[0].y ==> rows_of(a + b, ramp) == rows_of(a, ramp).drop_last() + seq![
            rows_of(a, ramp).last() + rows_of(b, ramp)[0],
        ] + rows_of(b, ramp).skip(1),
    decreases b.len(),
{
    lemma_rows_filled(a, ramp);
    lemma_rows_filled(b, ramp);
    let (s, q) = (a + b, b.drop_last());
    let (x, y) = (rows_of(a, ramp), rows_of(b, ramp));
    let c = glyph(b.last(), ramp);
    assert(s.drop_last() == a + q);
    assert(s.last() == b.last());
    if b.len() == 1 {
        assert(q == Seq::<Pixel>::empty());
        assert(s.drop_last() == a);
        assert(s[s.len() - 2] == a.last());
        assert(y == Seq::<Seq<ColoredChar>>::empty().push(seq![c]));
        if a.last().y != b[0].y {
            assert(rows_of(s, ramp) == x + y);
        } else {
            assert(x.last().push(c) == x.last() + y[0]);
            assert(rows_of(s, ramp) == x.drop_last() + seq![x.last() + y[0]] + y.skip(1));
        }
    } else {
        lemma_rows_join(a, q, ramp);
        lemma_rows_filled(q, ramp);
        assert(q[0] == b[0]);
        assert(s[s.len() - 2] == b[b.len() - 2]);
        let (z, w) = (rows_of(q, ramp), rows_of(a + q, ramp));
        if b[b.len() - 2].y != b.last().y {
            assert(y == z.push(seq![c]));
            assert(rows_of(s, ramp) == w.push(seq![c]));
            if a.last().y != b[0].y {
                assert(rows_of(s, ramp) == x + y);
            } else {
                assert(rows_of(s, ramp) == x.drop_last() + seq![x.last() + y[0]] + y.skip(1));
            }
        } else {
            assert(y == z.drop_last().push(z.last().push(c)));
            assert(rows_of(s, ramp) == w.drop_last().push(w.last().push(c)));
            if a.last().y != b[0].y {
                assert(w.last() == z.last());
                assert(rows_of(s, ramp) == x + y);
            } else if z.len() == 1 {
                assert(w.last() == x.last() + z[0]);
                assert((x.last() + z[0]).push(c) == x.last() + z[0].push(c));
                assert(rows_of(s, ramp) == x.drop_last() + seq![x.last() + y[0]] + y.skip(1));
            } else {
                assert(w.last() == z.last());
                assert(rows_of(s, ramp) == x.drop_last() + seq![x.last() + y[0]] + y.skip(1));
            }
        }
    }
}

/// Pixels on one row make up one row: the characters for them in their order, each in the colour
/// of its pixel.
pub proof fn lemma_one_row(ps: Seq<Pixel>, ramp: Ramp)
    requires
        ps.len() > 0,
        forall|i: int| 0 <= i < ps.len() ==> (#[trigger] ps[i]).y == ps[0].y,
    ensures
        rows_of(ps, ramp).len() == 1,
        rows_of(ps, ramp)[0].len() == ps.len(),
        forall|i: int|
            0 <= i < ps.len() ==> {
                let c = #[trigger] rows_of(ps, ramp)[0][i];
                &&& c.ch == ramp.char_for(ps[i].r, ps[i].g, ps[i].b)
                &&& (c.r, c.g, c.b) == (ps[i].r, ps[i].g, ps[i].b)
            },
    decreases ps.len(),
{
    let q = ps.drop_last();
    if q.len() > 0 {
        assert forall|i: int| 0 <= i < q.len() implies (#[trigger] q[i]).y == q[0].y by {
            assert(ps[i].y == ps[0].y);
        }
        lemma_one_row(q, ramp);
        assert(ps[ps.len() - 2].y == ps.last().y);
        assert forall|i: int| 0 <= i < ps.len() implies {
            let c = #[trigger] rows_of(ps, ramp)[0][i];
            &&& c.ch == ramp.char_for(ps[i].r, ps[i].g, ps[i].b)
            &&& (c.r, c.g, c.b) == (ps[i].r, ps[i].g, ps[i].b)
        } by {
            if i < q.len() {
                assert(rows_of(ps, ramp)[0][i] == rows_of(q, ramp)[0][i]);
            }
        }
    } else {
        assert(rows_of(q, ramp) == Seq::<Seq<ColoredChar>>::empty());
        assert(rows_of(ps, ramp)[0] == seq![glyph(ps[0], ramp)]);
    }
}

/// A picture that is listed row by row makes up as many rows as it has, each as wide as it is:
/// `ys` are the numbers of its rows, of which neighbours differ.
pub proof fn lemma_row_major(ps: Seq<Pixel>, w: nat, ys: Seq<u64>, ramp: Ramp)
    requires
        w > 0,
        ps.len() == ys.len() * w,
        forall|r: int, c: int|
            0 <= r < ys.len() && 0 <= c < w ==> (#[trigger] ps[r * w + c]).y == ys[r],
        forall|r: int| 0 <= r < ys.len() - 1 ==> #[trigger] ys[r] != ys[r + 1],
    ensures
        rows_of(ps, ramp).len() == ys.len(),
        forall|r: int| 0 <= r < ys.len() ==> (#[trigger] rows_of(ps, ramp)[r]).len() == w,
        forall|r: int, c: int|
            0 <= r < ys.len() && 0 <= c < w ==> {
                let (p, q) = (ps[r * w + c], #[trigger] rows_of(ps, ramp)[r][c]);
                &&& q.ch == ramp.char_for(p.r, p.g, p.b)
                &&& (q.r, q.g, q.b) == (p.r, p.g, p.b)
            },
    decreases ys.len(),
{
    if ys.len() == 0 {
        assert(ps.len() == 0) by (nonlinear_arith)
            requires
                ps.len() == ys.len() * w,
                ys.len() == 0,
        ;
    } else {
        let n = ys.len() - 1;
        let m = n * w;
        assert(ps.len() == m + w) by (nonlinear_arith)
            requires
                ps.len() == ys.len() * w,
                n == ys.len() - 1,
                m == n * w,
        ;
        assert(m >= 0) by (nonlinear_arith)
            requires
                m == n * w,
                n >= 0,
                w > 0,
        ;
        let (a, b, zs) = (ps.take(m), ps.skip(m), ys.drop_last());
        assert(a + b == ps);
        assert forall|r: int, c: int| 0 <= r < zs.len() && 0 <= c < w implies (#[trigger] a[r * w
            + c]).y == zs[r] by {
            assert(0 <= r * w + c < m) by (nonlinear_arith)
                requires
                    0 <= r < n,
                    0 <= c < w,
                    m == n * w,
            ;
            assert(ps[r * w + c].y == ys[r]);
        }
        assert forall|r: int| 0 <= r < zs.len() - 1 implies #[trigger] zs[r] != zs[r + 1] by {
            assert(ys[r] != ys[r + 1]);
        }
        lemma_row_major(a, w, zs, ramp);
        assert forall|i: int| 0 <= i < b.len() implies (#[trigger] b[i]).y == ys[n] by {
            assert(ps[n * w + i].y == ys[n]);
        }
        lemma_one_row(b, ramp);
        let (x, y) = (rows_of(a, ramp), rows_of(b, ramp));
        if n > 0 {
            assert(a.last().y == ys[n - 1]) by {
                assert((n - 1) * w + (w - 1) == m - 1) by (nonlinear_arith)
                    requires
                        m == n * w,
                ;
                assert(ps[(n - 1) * w + (w - 1)].y == ys[n - 1]);
            }
            assert(ys[n - 1] != ys[n - 1 + 1]);
            assert(m > 0) by (nonlinear_arith)
                requires
                    m == n * w,
                    n > 0,
                    w > 0,
            ;
            lemma_rows_join(a, b, ramp);
        } else {
            assert(m == 0) by (nonlinear_arith)
                requires
                    m == n * w,
                    n == 0,
            ;
            assert(a == Seq::<Pixel>::empty());
            assert(x == Seq::<Seq<ColoredChar>>::empty());
            assert(b == ps);
        }
        let all = rows_of(ps, ramp);
        assert(all == x + y);
        assert forall|r: int, c: int| 0 <= r < ys.len() && 0 <= c < w implies {
            let (p, q) = (ps[r * w + c], #[trigger] all[r][c]);
            &&& q.ch == ramp.char_for(p.r, p.g, p.b)
            &&& (q.r, q.g, q.b) == (p.r, p.g, p.b)
        } by {
            if r < n {
                assert(all[r][c] == x[r][c]);
                assert(0 <= r * w + c < m) by (nonlinear_arith)
                    requires
                        0 <= r < n,
                        0 <= c < w,
                        m == n * w,
                ;
                assert(a[r * w + c] == ps[r * w + c]);
            } else {
                assert(all[r][c] == y[0][c]);
                assert(b[c] == ps[n * w + c]);
            }
        }
    }
}

/// Where pixels are followed by others, the text of the first is followed by that of the others,
/// on a new line if and only if the number of the row changes there.
pub proof fn lemma_art_join(a: Seq<Pixel>, b: Seq<Pixel>, ramp: Ramp)
    requires
        a.len() > 0,
        b.len() > 0,
    ensures
        a.last().y != b[0].y ==> art_of(a + b, ramp) == art_of(a, ramp) + seq!['\n'] + art_of(
            b,
            ramp,
        ),
        a.last().y == b[0].y ==> art_of(a + b, ramp) == art_of(a, ramp) + art_of(b, ramp),
    decreases b.len(),
{
    let (s, q) = (a + b, b.drop_last());
    assert(s.drop_last() == a + q);
    let c = glyph(b.last(), ramp).ch;
    if b.len() == 1 {
        assert(q == Seq::<Pixel>::empty());
        assert(s.drop_last() == a);
        assert(s[s.len() - 2] == a.last());
        assert(art_of(q, ramp) == Seq::<char>::empty());
        assert(art_of(b, ramp) == Seq::<char>::empty().push(c));
    } else {
        lemma_art_join(a, q, ramp);
        assert(q[0] == b[0]);
        assert(s[s.len() - 2] == b[b.len() - 2]);
    }
    let (x, y) = (art_of(a, ramp), art_of(b, ramp));
    if a.last().y != b[0].y {
        assert(art_of(s, ramp) == x + seq!['\n'] + y);
    } else {
        assert(art_of(s, ramp) == x + y);
    }
}

/// Pixels on one row make up one line: the characters for them in their order.
pub proof fn lemma_one_line(ps: Seq<Pixel>, ramp: Ramp)
    requires
        forall|i: int| 0 <= i < ps.len() ==> (#[trigger] ps[i]).y == ps[0].y,
    ensures
        art_of(ps, ramp).len() == ps.len(),
        forall|i: int|
            0 <= i < ps.len() ==> #[trigger] art_of(ps, ramp)[i] == ramp.char_for(
                ps[i].r,
                ps[i].g,
                ps[i].b,
            ),
    decreases ps.len(),
{
    if ps.len() > 0 {
        let q = ps.drop_last();
        assert forall|i: int| 0 <= i < q.len() implies (#[trigger] q[i]).y == q[0].y by {
            assert(ps[i].y == ps[0].y);
        }
        lemma_one_line(q, ramp);
        if ps.len() > 1 {
            assert(ps[ps.len() - 2].y == ps.last().y);
        }
        assert forall|i: int| 0 <= i < ps.len() implies #[trigger] art_of(ps, ramp)[i]
            == ramp.char_for(ps[i].r, ps[i].g, ps[i].b) by {
            if i < q.len() {
                assert(art_of(ps, ramp)[i] == art_of(q, ramp)[i]);
            }
        }
    }
}

/// The pixels on lines are those on the first of them and then those on the others.
pub proof fn lemma_pixels_join(a: Seq<Seq<char>>, b: Seq<Seq<char>>, max: u64)
    ensures
        pixels(a + b, max) == pixels(a, max) + pixels(b, max),
    decreases b.len(),
{
    if b.len() == 0 {
        assert(a + b == a);
        assert(pixels(a, max) + Seq::<Pixel>::empty() == pixels(a, max));
    } else {
        assert((a + b).drop_last() == a + b.drop_last());
        lemma_pixels_join(a, b.drop_last(), max);
        let (x, y) = (pixels(a, max), pixels(b.drop_last(), max));
        match pixel(b.last(), max) {
            Some(p) => {
                assert((x + y).push(p) == x + y.push(p));
            },
            None => {},
        }
    }
}

/// A line holds its pixel, if it is one, and no other.
pub proof fn lemma_one_pixel(line: Seq<char>, max: u64)
    ensures
        match pixel(line, max) {
            Some(p) => pixels(seq![line], max) == seq![p],
            None => pixels(seq![line], max) == Seq::<Pixel>::empty(),
        },
{
    assert(seq![line].drop_last() == Seq::<Seq<char>>::empty());
    assert(pixels(seq![line].drop_last(), max) == Seq::<Pixel>::empty());
}

/// A picture on which nothing has been drawn is black.
pub proof fn lemma_unpainted(width: u32, height: u32, font: Seq<u8>, size: u8)
    ensures
        painted(Seq::empty(), width, height, font, size).len() == width * height * 3,
        forall|i: int|
            0 <= i < width * height * 3 ==> #[trigger] painted(
                Seq::empty(),
                width,
                height,
                font,
                size,
            )[i] == 0,
{
    assert(width * height >= 0) by (nonlinear_arith)
        requires
            width >= 0,
            height >= 0,
    ;
}

/// However many characters have been drawn, the next is drawn on top of them: in its colour and
/// at its place.
pub proof fn lemma_painted_next(
    list: Seq<Mark>,
    m: Mark,
    width: u32,
    height: u32,
    font: Seq<u8>,
    size: u8,
)
    ensures
        painted(list.push(m), width, height, font, size) == text_drawn(
            painted(list, width, height, font, size),
            width,
            height,
            m.glyph.ch,
            (m.glyph.r, m.glyph.g, m.glyph.b),
            m.x,
            m.y,
            font,
            size,
        ),
{
    assert(list.push(m).drop_last() == list);
    assert(list.push(m).last() == m);
}

/// The characters before a cell do not depend on what follows.
proof fn lemma_row_stamps_before(
    row: Seq<ColoredChar>,
    c: ColoredChar,
    n: int,
    y: int,
    char_w: u32,
)
    requires
        n <= row.len(),
    ensures
        row_stamps(row.push(c), n, y, char_w) == row_stamps(row, n, y, char_w),
    decreases n,
{
    if n > 0 {
        lemma_row_stamps_before(row, c, n - 1, y, char_w);
        assert(row.push(c)[n - 1] == row[n - 1]);
    }
}

/// The characters before a row do not depend on what follows.
proof fn lemma_stamps_before(
    a: Seq<Seq<ColoredChar>>,
    b: Seq<Seq<ColoredChar>>,
    n: int,
    char_w: u32,
    char_h: u32,
)
    requires
        n <= a.len(),
        n <= b.len(),
        forall|r: int| 0 <= r < n ==> a[r] == b[r],
    ensures
        stamps(a, n, char_w, char_h) == stamps(b, n, char_w, char_h),
    decreases n,
{
    if n > 0 {
        lemma_stamps_before(a, b, n - 1, char_w, char_h);
    }
}

/// The picture of a grid to which one more cell is added at the end: a blank changes nothing, any
/// other character is drawn in its colour at the corner of its cell.
pub proof fn lemma_rendered_cell(
    rows: Seq<Seq<ColoredChar>>,
    row: Seq<ColoredChar>,
    c: ColoredChar,
    font: Seq<u8>,
    target_w: u32,
    target_h: u32,
    char_w: u32,
    char_h: u32,
    font_size: u8,
)
    ensures
        ({
            let before = rendered(
                rows.push(row),
                font,
                target_w,
                target_h,
                char_w,
                char_h,
                font_size,
            );
            let after = rendered(
                rows.push(row.push(c)),
                font,
                target_w,
                target_h,
                char_w,
                char_h,
                font_size,
            );
            if c.ch == ' ' {
                after == before
            } else {
                after == text_drawn(
                    before,
                    target_w,
                    target_h,
                    c.ch,
                    (c.r, c.g, c.b),
                    row.len() * char_w,
                    rows.len() * char_h,
                    font,
                    font_size,
                )
            }
        }),
{
    let (n, k, y) = (rows.len() as int, row.len() as int, rows.len() * char_h);
    let (a, b) = (rows.push(row), rows.push(row.push(c)));
    lemma_stamps_before(a, rows, n, char_w, char_h);
    lemma_stamps_before(b, rows, n, char_w, char_h);
    lemma_row_stamps_before(row, c, k, y, char_w);
    let (head, tail) = (stamps(rows, n, char_w, char_h), row_stamps(row, k, y, char_w));
    assert(stamps(a, n + 1, char_w, char_h) == head + tail);
    assert(row.push(c)[k] == c);
    if c.ch != ' ' {
        let m = Mark { glyph: c, x: k * char_w, y };
        assert(stamps(b, n + 1, char_w, char_h) == head + tail.push(m));
        assert(head + tail.push(m) == (head + tail).push(m));
        lemma_painted_next(head + tail, m, target_w, target_h, font, font_size);
    } else {
        assert(stamps(b, n + 1, char_w, char_h) == head + tail);
    }
}

/// The characters to be drawn of a grid to which one more cell is added at the end: those there
/// were and, if it is not blank, the new one at the corner of its cell.
pub proof fn lemma_stamps_cell(
    rows: Seq<Seq<ColoredChar>>,
    row: Seq<ColoredChar>,
    c: ColoredChar,
    char_w: u32,
    char_h: u32,
)
    ensures
        ({
            let before = stamps(rows.push(row), rows.len() + 1int, char_w, char_h);
            let after = stamps(rows.push(row.push(c)), rows.len() + 1int, char_w, char_h);
            let next = Mark { glyph: c, x: row.len() * char_w, y: rows.len() * char_h };
            after == (if c.ch == ' ' {
                before
            } else {
                before.push(next)
            })
        }),
        stamps(rows.push(Seq::empty()), rows.len() + 1int, char_w, char_h) == stamps(
            rows,
            rows.len() as int,
            char_w,
            char_h,
        ),
{
    let (n, k, y) = (rows.len() as int, row.len() as int, rows.len() * char_h);
    let (a, b) = (rows.push(row), rows.push(row.push(c)));
    lemma_stamps_before(a, rows, n, char_w, char_h);
    lemma_stamps_before(b, rows, n, char_w, char_h);
    lemma_stamps_before(rows.push(Seq::empty()), rows, n, char_w, char_h);
    lemma_row_stamps_before(row, c, k, y, char_w);
    let (head, tail) = (stamps(rows, n, char_w, char_h), row_stamps(row, k, y, char_w));
    assert(head + Seq::<Mark>::empty() == head);
    assert(stamps(a, n + 1, char_w, char_h) == head + tail);
    assert(row.push(c)[k] == c);
    let next = Mark { glyph: c, x: k * char_w, y };
    assert(head + tail.push(next) == (head + tail).push(next));
}

/// An empty row below a grid adds nothing to its picture.
pub proof fn lemma_rendered_row(
    rows: Seq<Seq<ColoredChar>>,
    font: Seq<u8>,
    target_w: u32,
    target_h: u32,
    char_w: u32,
    char_h: u32,
    font_size: u8,
)
    ensures
        rendered(
            rows.push(Seq::empty()),
            font,
            target_w,
            target_h,
            char_w,
            char_h,
            font_size,
        ) == rendered(rows, font, target_w, target_h, char_w, char_h, font_size),
{
    let n = rows.len() as int;
    lemma_stamps_before(rows.push(Seq::empty()), rows, n, char_w, char_h);
    let head = stamps(rows, n, char_w, char_h);
    assert(head + Seq::<Mark>::empty() == head);
}

/// The picture of an empty grid is black.
pub proof fn lemma_rendered_empty(
    font: Seq<u8>,
    target_w: u32,
    target_h: u32,
    char_w: u32,
    char_h: u32,
    font_size: u8,
)
    ensures
        ({
            let picture = rendered(
                Seq::empty(),
                font,
                target_w,
                target_h,
                char_w,
                char_h,
                font_size,
            );
            &&& picture.len() == target_w * target_h * 3
            &&& forall|i: int| 0 <= i < picture.len() ==> #[trigger] picture[i] == 0
        }),
{
    lemma_unpainted(target_w, target_h, font, font_size);
}

} // verus!
