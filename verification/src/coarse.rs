//! A ramp of ten characters, from blank for dark to `@` for bright.

use crate::brightness::{
    lemma_step_monotone, lemma_step_range, luminance, luminance_of, step_for, step_of,
};
use vstd::prelude::*;

verus! {

/// Colours up to this luminance are left blank.
pub const LUMINANCE_THRESHOLD: u32 = 16;

/// The characters in order of brightness.
pub open spec fn ascii_chars() -> Seq<char> {
    " .:-=+*#%@"@
}

/// The character for a colour.
pub open spec fn pixel_char(r: u8, g: u8, b: u8) -> char {
    let lum = luminance(r, g, b);
    if lum <= LUMINANCE_THRESHOLD as real {
        ' '
    } else {
        ascii_chars()[step_of(lum, LUMINANCE_THRESHOLD as int, ascii_chars().len() - 1)]
    }
}

/// Picks the character for a colour.
pub fn pixel_for(r: u8, g: u8, b: u8) -> (ch: char)
    ensures
        ch == pixel_char(r, g, b),
{
    let lum = luminance_of(r, g, b);
    if lum.at_most(LUMINANCE_THRESHOLD) {
        ' '
    } else {
        proof {
            reveal_strlit(" .:-=+*#%@");
            lemma_step_range(r, g, b, LUMINANCE_THRESHOLD as int, 9);
        }
        " .:-=+*#%@".get_char(step_for(lum, LUMINANCE_THRESHOLD, 9) as usize)
    }
}

/// A colour above the threshold has a character of the ramp, and one that is at least as bright
/// has the same or a later character.
pub proof fn lemma_ramp(r: u8, g: u8, b: u8, r2: u8, g2: u8, b2: u8)
    requires
        (LUMINANCE_THRESHOLD as real) < luminance(r, g, b) <= luminance(r2, g2, b2),
    ensures
        exists|i: int, j: int|
            0 <= i <= j < ascii_chars().len() && pixel_char(r, g, b) == #[trigger] ascii_chars()[i]
                && pixel_char(r2, g2, b2) == #[trigger] ascii_chars()[j],
{
    let (x, y) = (luminance(r, g, b), luminance(r2, g2, b2));
    let t = LUMINANCE_THRESHOLD as int;
    reveal_strlit(" .:-=+*#%@");
    lemma_step_monotone(x, y, t, 9);
    lemma_step_range(r, g, b, t, 9);
    lemma_step_range(r2, g2, b2, t, 9);
    let (i, j) = (step_of(x, t, 9), step_of(y, t, 9));
    assert(pixel_char(r, g, b) == ascii_chars()[i]);
    assert(pixel_char(r2, g2, b2) == ascii_chars()[j]);
}

} // verus!
