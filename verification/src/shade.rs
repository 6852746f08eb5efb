//! Which character stands for which colour, told from the colour itself.

use crate::binary64::{half_up, lemma_nearest_error, nearest};
use crate::brightness::{lemma_step_range, luminance, share, step_of};
use crate::channel::plain_level;
use crate::dump::Ramp;
use vstd::prelude::*;

verus! {

/// The brightness of a colour in ten-thousandths, before any rounding.
pub open spec fn weighted(r: u8, g: u8, b: u8) -> int {
    2126 * r + 7152 * g + 722 * b
}

/// A share is what it stands for, to within a tiny rounding.
proof fn lemma_share_exact(weight: int, level: u8)
    requires
        0 <= weight <= 10000,
    ensures
        -1real <= (share(weight, level) - (weight * level) as real / 10000real)
            * 1000_0000_0000real <= 1real,
        share(weight, level) >= 0real,
{
    let w = weight as real / 10000real;
    let l = level as real;
    let c = nearest(w);
    lemma_nearest_error(w);
    assert((weight * level) as real == weight as real * l) by (nonlinear_arith)
        requires
            l == level as real,
    ;
    let d = 1real / 0x20_0000_0000_0000real;
    assert(w * l == weight as real * l / 10000real) by (nonlinear_arith)
        requires
            w == weight as real / 10000real,
    ;
    assert(0real <= w * l <= 255real && w * l - 255real * d <= c * l <= w * l + 255real * d && c * l
        >= 0real) by (nonlinear_arith)
        requires
            w - d <= c <= w + d,
            0real <= l <= 255real,
            0real <= w <= 1real,
            c >= 0real,
            d >= 0real,
    ;
    lemma_nearest_error(c * l);
}

/// The luminance of a colour is the weighted sum of its channels, to within a tiny rounding.
pub proof fn lemma_luminance_exact(r: u8, g: u8, b: u8)
    ensures
        -1real <= (luminance(r, g, b) - weighted(r, g, b) as real / 10000real) * 100_0000_0000real
            <= 1real,
{
    lemma_share_exact(2126, r);
    lemma_share_exact(7152, g);
    lemma_share_exact(722, b);
    let x = share(2126, r) + share(7152, g);
    lemma_nearest_error(x);
    let y = nearest(x) + share(722, b);
    lemma_nearest_error(y);
    let (p, q, s) = ((2126 * r) as real, (7152 * g) as real, (722 * b) as real);
    assert(weighted(r, g, b) as real == p + q + s);
    assert(weighted(r, g, b) <= 2550000);
}

/// The step of a ramp is the one nearest to where the luminance lies between the threshold and
/// white.
proof fn lemma_step_exact(lum: real, threshold: int, top: int)
    requires
        0 <= threshold <= 100,
        1 <= top <= 100,
        threshold as real <= lum <= 256real,
    ensures
        ({
            let d = (255 - threshold) as real;
            let off = step_of(lum, threshold, top) as real * d - (lum - threshold as real)
                * top as real;
            -d / 2real - 1real / 10_0000_0000real <= off <= d / 2real + 1real / 10_0000_0000real
        }),
{
    let (t, k, d) = (threshold as real, top as real, (255 - threshold) as real);
    let e = 1real / 0x20_0000_0000_0000real;
    let x = lum - t;
    lemma_nearest_error(x);
    let a = nearest(x);
    let y = a / d;
    assert(y * d == a && 0real <= y <= 2real) by (nonlinear_arith)
        requires
            y == a / d,
            155real <= d <= 255real,
            0real <= a <= 257real,
    ;
    lemma_nearest_error(y);
    let c = nearest(y);
    let z = c * k;
    assert(y * k - 200real * e <= z <= y * k + 200real * e && 0real <= z <= 300real) by (
    nonlinear_arith)
        requires
            z == c * k,
            y - y * e <= c <= y + y * e,
            0real <= y <= 2real,
            1real <= k <= 100real,
            e == 1real / 0x20_0000_0000_0000real,
    ;
    lemma_nearest_error(z);
    let s = half_up(nearest(z)) as real;
    assert(s == step_of(lum, threshold, top) as real);
    assert(y * k - 501real * e - 1real / 2real <= s <= y * k + 501real * e + 1real / 2real);
    assert((y * k) * d == a * k) by (nonlinear_arith)
        requires
            y * d == a,
    ;
    assert(a * k - 128000real * e - d / 2real <= s * d <= a * k + 128000real * e + d / 2real) by (
    nonlinear_arith)
        requires
            y * k - 501real * e - 1real / 2real <= s <= y * k + 501real * e + 1real / 2real,
            (y * k) * d == a * k,
            155real <= d <= 255real,
            e == 1real / 0x20_0000_0000_0000real,
    ;
    assert(x * k - 25600real * e <= a * k <= x * k + 25600real * e) by (nonlinear_arith)
        requires
            x - x * e <= a <= x + x * e,
            0real <= x <= 256real,
            1real <= k <= 100real,
            e == 1real / 0x20_0000_0000_0000real,
    ;
}

/// The step of a ramp for a colour, told from its channels.
proof fn lemma_step(r: u8, g: u8, b: u8, threshold: int, top: int)
    requires
        0 <= threshold <= 100,
        1 <= top <= 100,
        weighted(r, g, b) > 10000 * threshold,
    ensures
        luminance(r, g, b) > threshold as real,
        ({
            let k = step_of(luminance(r, g, b), threshold, top);
            let d = 10000 * (255 - threshold);
            let off = k * d - top * (weighted(r, g, b) - 10000 * threshold);
            0 <= k <= top && -d <= 2 * off <= d
        }),
{
    lemma_luminance_exact(r, g, b);
    let lum = luminance(r, g, b);
    let n = weighted(r, g, b);
    assert(n <= 2550000);
    assert((10000 * threshold) as real == 10000real * threshold as real);
    lemma_step_exact(lum, threshold, top);
    lemma_step_range(r, g, b, threshold, top);
    let k = step_of(lum, threshold, top);
    let (t, q, v) = (threshold as real, top as real, (255 - threshold) as real);
    let d = 10000 * (255 - threshold);
    let off = k * d - top * (n - 10000 * threshold);
    let x = k as real * v - (lum - t) * q;
    let exact = k as real * v - (n as real / 10000real - t) * q;
    let m = n as real / 10000real;
    assert(exact - x == (lum - m) * q) by (nonlinear_arith)
        requires
            x == k as real * v - (lum - t) * q,
            exact == k as real * v - (m - t) * q,
    ;
    assert(-1real / 1_0000_0000real <= exact - x <= 1real / 1_0000_0000real) by (nonlinear_arith)
        requires
            exact - x == (lum - m) * q,
            -1real <= (lum - m) * 100_0000_0000real <= 1real,
            0real <= q <= 100real,
    ;
    assert((k * d) as real == 10000real * (k as real * v)) by (nonlinear_arith)
        requires
            d == 10000 * (255 - threshold),
            v == (255 - threshold) as real,
    ;
    assert((top * (n - 10000 * threshold)) as real == 10000real * ((n as real / 10000real - t) * q))
        by (nonlinear_arith)
        requires
            t == threshold as real,
            q == top as real,
    ;
    assert(off as real == 10000real * exact);
    assert(d as real == 10000real * v);
    assert(-(d as real) - 1real < 2real * (off as real) < (d as real) + 1real);
}

/// A step is the level of the place on the ramp, computed in double precision.
pub proof fn lemma_step_is_level(lum: real, threshold: int, top: int)
    ensures
        step_of(lum, threshold, top) == plain_level(
            nearest(nearest(lum - threshold as real) / (255 - threshold) as real) * top as real,
        ),
{
}

/// The ramp of ten characters: a colour of up to 16 is blank, white is `@`, and one between them
/// has the character nearest to its place between those two.
pub proof fn lemma_coarse(r: u8, g: u8, b: u8)
    ensures
        2126 * r + 7152 * g + 722 * b <= 160000 ==> Ramp::Coarse.char_for(r, g, b) == ' ',
        2126 * r + 7152 * g + 722 * b > 160000 ==> exists|k: int|
            0 <= k <= 9 && Ramp::Coarse.char_for(r, g, b) == #[trigger] " .:-=+*#%@"@[k]
                && -2390000 <= 2 * (k * 2390000 - 9 * (2126 * r + 7152 * g + 722 * b - 160000))
                <= 2390000,
{
    reveal_strlit(" .:-=+*#%@");
    let n = weighted(r, g, b);
    let lum = luminance(r, g, b);
    lemma_luminance_exact(r, g, b);
    if n > 160000 {
        lemma_step(r, g, b, 16, 9);
        let k = step_of(lum, 16, 9);
        assert(Ramp::Coarse.char_for(r, g, b) == " .:-=+*#%@"@[k]);
    } else if lum > 16real {
        lemma_step_exact(lum, 16, 9);
        assert((255 - 16) as real == 239real && 9int as real == 9real && 16int as real == 16real);
        let x = step_of(lum, 16, 9) as real;
        assert(-1real < x < 1real);
        assert(step_of(lum, 16, 9) == 0);
    }
}

/// The ramp of 70 characters: a colour below 12 is blank, the darkest above are `$`, white is
/// `.`, and one between them has the character nearest to its place between those two.
pub proof fn lemma_fine(r: u8, g: u8, b: u8)
    ensures
        2126 * r + 7152 * g + 722 * b < 120000 ==> Ramp::Fine.char_for(r, g, b) == ' ',
        2126 * r + 7152 * g + 722 * b > 120000 ==> exists|k: int|
            0 <= k <= 68 && Ramp::Fine.char_for(r, g, b)
                == #[trigger] "$@B%8&WM#*oahkbdpqwmZO0QLCJUYXzcvunxrjft/\\|()1{}[]?-_+~<>i!lI;:,\"^`'. "@[k]
                && -2430000 <= 2 * (k * 2430000 - 68 * (2126 * r + 7152 * g + 722 * b - 120000))
                <= 2430000,
{
    reveal_strlit("$@B%8&WM#*oahkbdpqwmZO0QLCJUYXzcvunxrjft/\\|()1{}[]?-_+~<>i!lI;:,\"^`'. ");
    let n = weighted(r, g, b);
    let lum = luminance(r, g, b);
    lemma_luminance_exact(r, g, b);
    if n > 120000 {
        lemma_step(r, g, b, 12, 68);
        let k = step_of(lum, 12, 68);
        assert(Ramp::Fine.char_for(r, g, b)
            == "$@B%8&WM#*oahkbdpqwmZO0QLCJUYXzcvunxrjft/\\|()1{}[]?-_+~<>i!lI;:,\"^`'. "@[k]);
    }
}

/// White has the last character of the ramp of ten, and the last but the blank of the ramp of 70.
pub proof fn lemma_white()
    ensures
        Ramp::Coarse.char_for(255, 255, 255) == '@',
        Ramp::Fine.char_for(255, 255, 255) == '.',
{
    lemma_coarse(255, 255, 255);
    lemma_fine(255, 255, 255);
    reveal_strlit(" .:-=+*#%@");
    reveal_strlit("$@B%8&WM#*oahkbdpqwmZO0QLCJUYXzcvunxrjft/\\|()1{}[]?-_+~<>i!lI;:,\"^`'. ");
}

} // verus!
