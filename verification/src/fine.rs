//! A ramp of 70 characters, ordered from dense to sparse and closed by the blank.

use crate::binary64::{lemma_nearest_error, nearest};
use crate::brightness::{
    lemma_grey, lemma_step_monotone, lemma_step_range, luminance, luminance_of, step_for, step_of,
};
use vstd::prelude::*;

verus! {

/// Colours up to this luminance are left blank.
pub const LUMINANCE_THRESHOLD: u32 = 12;

/// The characters in order of brightness, the blank last.
pub open spec fn ascii_chars() -> Seq<char> {
    "$@B%8&WM#*oahkbdpqwmZO0QLCJUYXzcvunxrjft/\\|()1{}[]?-_+~<>i!lI;:,\"^`'. "@
}

/// The character for a colour. The brightest colours stop one short of the closing blank.
pub open spec fn pixel_char(r: u8, g: u8, b: u8) -> char {
    let lum = luminance(r, g, b);
    if lum <= LUMINANCE_THRESHOLD as real {
        ' '
    } else {
        ascii_chars()[step_of(lum, LUMINANCE_THRESHOLD as int, ascii_chars().len() - 2)]
    }
}

/// Picks the character for a colour.
pub fn pixel_for(r: u8, g: u8, b: u8) -> (ch: char)
    ensures
        ch == pixel_char(r, g, b),
{
    let lum = luminance_of(r, g, b);
    if lum.at_most(LUMINANCE_THRESHOLD) {
        ' '
    } else {
        proof {
            reveal_strlit(
                "$@B%8&WM#*oahkbdpqwmZO0QLCJUYXzcvunxrjft/\\|()1{}[]?-_+~<>i!lI;:,\"^`'. ",
            );
            lemma_step_range(r, g, b, LUMINANCE_THRESHOLD as int, 68);
        }
        "$@B%8&WM#*oahkbdpqwmZO0QLCJUYXzcvunxrjft/\\|()1{}[]?-_+~<>i!lI;:,\"^`'. ".get_char(
            step_for(lum, LUMINANCE_THRESHOLD, 68) as usize,
        )
    }
}

/// A colour above the threshold has a character of the ramp other than the closing blank, and
/// one that is at least as bright has the same or a later character.
pub proof fn lemma_ramp(r: u8, g: u8, b: u8, r2: u8, g2: u8, b2: u8)
    requires
        (LUMINANCE_THRESHOLD as real) < luminance(r, g, b) <= luminance(r2, g2, b2),
    ensures
        exists|i: int, j: int|
            0 <= i <= j < ascii_chars().len() - 1 && pixel_char(r, g, b)
                == #[trigger] ascii_chars()[i] && pixel_char(r2, g2, b2)
                == #[trigger] ascii_chars()[j],
{
    let (x, y) = (luminance(r, g, b), luminance(r2, g2, b2));
    let t = LUMINANCE_THRESHOLD as int;
    reveal_strlit("$@B%8&WM#*oahkbdpqwmZO0QLCJUYXzcvunxrjft/\\|()1{}[]?-_+~<>i!lI;:,\"^`'. ");
    lemma_step_monotone(x, y, t, 68);
    lemma_step_range(r, g, b, t, 68);
    lemma_step_range(r2, g2, b2, t, 68);
    let (i, j) = (step_of(x, t, 68), step_of(y, t, 68));
    assert(pixel_char(r, g, b) == ascii_chars()[i]);
    assert(pixel_char(r2, g2, b2) == ascii_chars()[j]);
}

/// A colour is blank if and only if it is no brighter than the threshold.
pub proof fn lemma_blank(r: u8, g: u8, b: u8)
    ensures
        pixel_char(r, g, b) == ' ' <==> luminance(r, g, b) <= LUMINANCE_THRESHOLD as real,
{
    if luminance(r, g, b) > LUMINANCE_THRESHOLD as real {
        reveal_strlit("$@B%8&WM#*oahkbdpqwmZO0QLCJUYXzcvunxrjft/\\|()1{}[]?-_+~<>i!lI;:,\"^`'. ");
        lemma_step_range(r, g, b, LUMINANCE_THRESHOLD as int, 68);
        assert(forall|i: int| 0 <= i < 69 ==> #[trigger] ascii_chars()[i] != ' ');
    }
}

/// The ramp has 70 characters, all of them different.
pub proof fn lemma_levels_differ()
    ensures
        ascii_chars().len() == 70,
        ascii_chars().no_duplicates(),
{
    reveal_strlit("$@B%8&WM#*oahkbdpqwmZO0QLCJUYXzcvunxrjft/\\|()1{}[]?-_+~<>i!lI;:,\"^`'. ");
    assert(forall|i: int, j: int|
        0 <= i < 70 && 0 <= j < 70 && i != j ==> ascii_chars()[i] != ascii_chars()[j]);
}

/// Every character of the ramp stands for some shade of grey.
pub proof fn lemma_every_level(i: int) -> (v: u8)
    requires
        0 <= i < ascii_chars().len(),
    ensures
        pixel_char(v, v, v) == ascii_chars()[i],
{
    reveal_strlit("$@B%8&WM#*oahkbdpqwmZO0QLCJUYXzcvunxrjft/\\|()1{}[]?-_+~<>i!lI;:,\"^`'. ");
    if i == 69 {
        lemma_grey(0);
        0
    } else {
        let v: u8 = if i == 0 {
            13
        } else {
            (12 + (486 * i + 68) / 136) as u8
        };
        let d = 68 * (v - 12) - 243 * i;
        assert(13 <= v <= 255 && -40 <= d <= 68);
        lemma_grey(v);
        let (lum, k, n) = (luminance(v, v, v), v as real, i as real);
        assert(-40real <= 68real * (k - 12real) - 243real * n <= 68real) by {
            assert(d as real == 68real * (k - 12real) - 243real * n);
        }
        let x = lum - 12real;
        lemma_nearest_error(x);
        let y = nearest(x) / 243real;
        lemma_nearest_error(y);
        let z = nearest(y) * 68real;
        lemma_nearest_error(z);
        assert(n <= nearest(z) + 1real / 2real < n + 1real);
        assert((255 - 12) as real == 243real && 68int as real == 68real && 12int as real == 12real);
        assert(step_of(lum, 12, 68) == (nearest(z) + 1real / 2real).floor());
        v
    }
}

} // verus!
