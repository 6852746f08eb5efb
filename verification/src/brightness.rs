//! How bright a colour is, and how far up a ramp of characters that brightness lies.

use crate::binary64::{
    exp2, half_up, lemma_exponent, lemma_nearest_between, lemma_nearest_error,
    lemma_nearest_monotone, lemma_nearest_of_normal, nearest, round_quotient, Binary64,
};
use vstd::prelude::*;

verus! {

/// The share of one channel in the brightness: `weight` ten-thousandths of `level`.
pub open spec fn share(weight: int, level: u8) -> real {
    nearest(nearest(weight as real / 10000real) * level as real)
}

/// The relative luminance of a colour, from 0 for black to 255 for white:
/// `0.2126 * r + 0.7152 * g + 0.0722 * b`.
pub open spec fn luminance(r: u8, g: u8, b: u8) -> real {
    nearest(nearest(share(2126, r) + share(7152, g)) + share(722, b))
}

/// The step of a ramp with steps `0..=top` on which a luminance above `threshold` lies:
/// the threshold itself is on step 0, white on step `top`.
pub open spec fn step_of(luminance: real, threshold: int, top: int) -> int {
    let scale = nearest(nearest(luminance - threshold as real) / (255 - threshold) as real);
    half_up(nearest(scale * top as real))
}

/// What is known of a share: it is zero, or between a tiny fraction and 512.
proof fn lemma_share(weight: int, level: u8)
    requires
        100 <= weight <= 10000,
    ensures
        level == 0 ==> share(weight, level) == 0real,
        level > 0 ==> exp2(-7) <= share(weight, level),
        0real <= share(weight, level) <= weight as real / 10000real * level as real
            + 1real / 1000real,
{
    let w = weight as real / 10000real;
    let c = nearest(w);
    lemma_nearest_error(w);
    let l = level as real;
    assert(exp2(-7) == 1real / 128real) by {
        reveal_with_fuel(exp2, 8);
    }
    assert(exp2(10) == 1024real) by {
        reveal_with_fuel(exp2, 11);
    }
    assert(w * l - l / 1000000real <= c * l <= w * l + l / 1000000real) by (nonlinear_arith)
        requires
            w - 1real / 1000000real <= c <= w + 1real / 1000000real,
            l >= 0real,
    ;
    assert(level > 0 ==> w * l >= 1real / 100real) by (nonlinear_arith)
        requires
            level > 0 ==> l >= 1real,
            w >= 1real / 100real,
    ;
    assert(0real <= w * l <= 255real) by (nonlinear_arith)
        requires
            0real <= l <= 255real,
            0real <= w <= 1real,
    ;
    lemma_nearest_error(c * l);
    if level > 0 {
        lemma_nearest_between(c * l, -7, 10);
    } else {
        assert(c * l == 0real) by (nonlinear_arith)
            requires
                l == 0real,
        ;
    }
}

/// Computes a share.
fn share_of(weight: u32, level: u8) -> (r: Binary64)
    requires
        100 <= weight <= 10000,
    ensures
        r.normal(),
        -60 <= r.exponent <= 0,
        r.value() == share(weight as int, level),
{
    let c = round_quotient(weight as u128, 10000, 0);
    assert(weight as real / 10000real * exp2(0) == weight as real / 10000real);
    let r = c.times(level as u32);
    proof {
        lemma_share(weight as int, level);
        lemma_nearest_of_normal(r);
        if r.significand > 0 {
            assert(exp2(9) == 512real) by {
                reveal_with_fuel(exp2, 10);
            }
            let (w, l) = (weight as real / 10000real, level as real);
            assert(w * l <= 255real) by (nonlinear_arith)
                requires
                    0real <= l <= 255real,
                    0real <= w <= 1real,
            ;
            lemma_exponent(r, -7, 9);
        }
    }
    if r.significand == 0 {
        Binary64::zero()
    } else {
        r
    }
}

/// What is known of a luminance: it is zero, or between a tiny fraction and little above 255.
proof fn lemma_luminance(r: u8, g: u8, b: u8)
    ensures
        0real <= nearest(share(2126, r) + share(7152, g)) <= 237real,
        nearest(share(2126, r) + share(7152, g)) == 0real || exp2(-7) <= nearest(
            share(2126, r) + share(7152, g),
        ),
        0real <= luminance(r, g, b) <= 255real + 1real / 100real,
        luminance(r, g, b) == 0real || exp2(-7) <= luminance(r, g, b),
{
    lemma_share(2126, r);
    lemma_share(7152, g);
    lemma_share(722, b);
    assert(exp2(8) == 256real) by {
        reveal_with_fuel(exp2, 9);
    }
    assert(exp2(-7) > 0real) by {
        reveal_with_fuel(exp2, 8);
    }
    let x = share(2126, r) + share(7152, g);
    lemma_nearest_error(x);
    if x > 0real {
        lemma_nearest_between(x, -7, 8);
    }
    let y = nearest(x) + share(722, b);
    lemma_nearest_error(y);
    if y > 0real {
        lemma_nearest_between(y, -7, 8);
    }
}

/// Computes the luminance of a colour.
pub fn luminance_of(r: u8, g: u8, b: u8) -> (lum: Binary64)
    ensures
        lum.normal(),
        -60 <= lum.exponent <= 0,
        lum.value() == luminance(r, g, b),
{
    let (x, y, z) = (share_of(2126, r), share_of(7152, g), share_of(722, b));
    proof {
        lemma_luminance(r, g, b);
        assert(exp2(8) == 256real) by {
            reveal_with_fuel(exp2, 9);
        }
    }
    let mut sum = x.plus(y);
    proof {
        lemma_nearest_of_normal(sum);
        if sum.significand > 0 {
            lemma_exponent(sum, -7, 8);
        }
    }
    if sum.significand == 0 {
        sum = Binary64::zero();
    }
    let lum = sum.plus(z);
    proof {
        lemma_nearest_of_normal(lum);
        if lum.significand > 0 {
            lemma_exponent(lum, -7, 8);
        }
    }
    if lum.significand == 0 {
        Binary64::zero()
    } else {
        lum
    }
}

/// The steps of a ramp that colours reach.
pub proof fn lemma_step_range(r: u8, g: u8, b: u8, threshold: int, top: int)
    requires
        0 <= threshold <= 100,
        0 <= top <= 100,
        luminance(r, g, b) > threshold as real,
    ensures
        0 <= step_of(luminance(r, g, b), threshold, top) <= top,
{
    lemma_luminance(r, g, b);
    let (t, k, d) = (threshold as real, top as real, (255 - threshold) as real);
    let x = luminance(r, g, b) - t;
    lemma_nearest_error(x);
    let y = nearest(x) / d;
    assert(0real <= y <= 1real + 1real / 1000real) by (nonlinear_arith)
        requires
            y == nearest(x) / d,
            0real <= nearest(x) <= d + 1real / 50real,
            d >= 155real,
    ;
    lemma_nearest_error(y);
    let z = nearest(y) * k;
    assert(0real <= z <= k + 1real / 5real) by (nonlinear_arith)
        requires
            z == nearest(y) * k,
            0real <= nearest(y) <= 1real + 1real / 500real,
            0real <= k <= 100real,
    ;
    lemma_nearest_error(z);
}

/// Computes on which step of a ramp a luminance above `threshold` lies.
pub fn step_for(lum: Binary64, threshold: u32, top: u32) -> (step: u32)
    requires
        lum.normal(),
        -60 <= lum.exponent <= 0,
        threshold <= 100,
        lum.value() > threshold as real,
        0 <= step_of(lum.value(), threshold as int, top as int) <= u32::MAX,
    ensures
        step == step_of(lum.value(), threshold as int, top as int),
{
    lum.minus(threshold).over(255 - threshold).times(top).round()
}

/// More of a channel is never a smaller share.
proof fn lemma_share_monotone(weight: int, low: u8, high: u8)
    requires
        0 <= weight,
        low <= high,
    ensures
        share(weight, low) <= share(weight, high),
{
    let c = nearest(weight as real / 10000real);
    lemma_nearest_monotone(0real, weight as real / 10000real);
    let (a, b) = (low as real, high as real);
    assert(c * a <= c * b) by (nonlinear_arith)
        requires
            0real <= c,
            a <= b,
    ;
    lemma_nearest_monotone(c * a, c * b);
}

/// A colour with at least as much of each channel is at least as bright.
pub proof fn lemma_luminance_monotone(r: u8, g: u8, b: u8, r2: u8, g2: u8, b2: u8)
    requires
        r <= r2,
        g <= g2,
        b <= b2,
    ensures
        luminance(r, g, b) <= luminance(r2, g2, b2),
{
    lemma_share_monotone(2126, r, r2);
    lemma_share_monotone(7152, g, g2);
    lemma_share_monotone(722, b, b2);
    lemma_nearest_monotone(share(2126, r) + share(7152, g), share(2126, r2) + share(7152, g2));
    let (x, y) = (
        nearest(share(2126, r) + share(7152, g)),
        nearest(share(2126, r2) + share(7152, g2)),
    );
    lemma_nearest_monotone(x + share(722, b), y + share(722, b2));
}

/// What is at least as bright lies at least as high on a ramp.
pub proof fn lemma_step_monotone(dark: real, bright: real, threshold: int, top: int)
    requires
        dark <= bright,
        threshold < 255,
        0 <= top,
    ensures
        step_of(dark, threshold, top) <= step_of(bright, threshold, top),
{
    let (t, d, k) = (threshold as real, (255 - threshold) as real, top as real);
    lemma_nearest_monotone(dark - t, bright - t);
    let (x, y) = (nearest(dark - t), nearest(bright - t));
    assert(x / d <= y / d) by (nonlinear_arith)
        requires
            x <= y,
            d > 0real,
    ;
    lemma_nearest_monotone(x / d, y / d);
    let (v, w) = (nearest(x / d), nearest(y / d));
    assert(v * k <= w * k) by (nonlinear_arith)
        requires
            v <= w,
            k >= 0real,
    ;
    lemma_nearest_monotone(v * k, w * k);
}

/// A share is close to what it stands for.
proof fn lemma_share_close(weight: int, level: u8)
    requires
        0 <= weight <= 10000,
    ensures
        weight as real / 10000real * level as real - 1real / 1000real <= share(weight, level)
            <= weight as real / 10000real * level as real + 1real / 1000real,
{
    let w = weight as real / 10000real;
    let c = nearest(w);
    lemma_nearest_error(w);
    let l = level as real;
    assert(w * l - l / 1000000real <= c * l <= w * l + l / 1000000real) by (nonlinear_arith)
        requires
            w - 1real / 1000000real <= c <= w + 1real / 1000000real,
            l >= 0real,
    ;
    assert(0real <= w * l <= 255real) by (nonlinear_arith)
        requires
            0real <= l <= 255real,
            0real <= w <= 1real,
    ;
    assert(c * l >= 0real) by (nonlinear_arith)
        requires
            c >= 0real,
            l >= 0real,
    ;
    lemma_nearest_error(c * l);
}

/// A shade of grey is about as bright as each of its channels; black has no brightness.
pub proof fn lemma_grey(v: u8)
    ensures
        v as real - 1real / 100real <= luminance(v, v, v) <= v as real + 1real / 100real,
        v == 0 ==> luminance(v, v, v) == 0real,
{
    lemma_share_close(2126, v);
    lemma_share_close(7152, v);
    lemma_share_close(722, v);
    lemma_share(2126, v);
    lemma_share(7152, v);
    lemma_share(722, v);
    let x = share(2126, v) + share(7152, v);
    lemma_nearest_error(x);
    lemma_nearest_error(nearest(x) + share(722, v));
}

} // verus!
