//! One colour channel as ImageMagick writes it: an integer, a decimal or a percentage.

use crate::binary64::{half_up, lemma_nearest_error, lemma_nearest_monotone, nearest};
use crate::decimal::{literal, magnitude, read_literal, Literal, Reading, Size};
use crate::text::{chars_of, trim, trimmed};
use vstd::prelude::*;
use vstd::slice::slice_subrange;

verus! {

/// Why a channel cannot be read.
#[derive(Clone, Copy, Debug, PartialEq, Eq, Structural)]
pub enum ChannelError {
    /// What stands before the percent sign is no number.
    Percent,
    /// The text is no number.
    Plain,
}

/// A level within the range of a channel.
pub open spec fn clamped(level: int) -> u8 {
    if level < 255 {
        level as u8
    } else {
        255
    }
}

/// The level for a non-negative number: the nearest integer.
pub open spec fn plain_level(x: real) -> int {
    half_up(nearest(x))
}

/// The level for a non-negative percentage: that share of 255.
pub open spec fn percent_level(x: real) -> int {
    half_up(nearest(nearest(nearest(x) / 100real) * 255real))
}

/// The level for a literal. Below zero, and for what is no number, it is 0.
pub open spec fn level(l: Literal, percent: bool) -> u8 {
    match l {
        Literal::Finite { negative, digits, exponent } => {
            let x = magnitude(digits, exponent);
            if negative {
                0
            } else if percent {
                clamped(percent_level(x))
            } else {
                clamped(plain_level(x))
            }
        },
        Literal::Infinite { negative } => if negative {
            0
        } else {
            255
        },
        Literal::NotANumber => 0,
    }
}

/// The level that `s` writes out.
pub open spec fn channel(s: Seq<char>) -> Result<u8, ChannelError> {
    let t = trim(s);
    if t.len() > 0 && t.last() == '%' {
        match literal(trim(t.drop_last())) {
            Some(l) => Ok(level(l, true)),
            None => Err(ChannelError::Percent),
        }
    } else {
        match literal(t) {
            Some(l) => Ok(level(l, false)),
            None => Err(ChannelError::Plain),
        }
    }
}

/// Tiny numbers have level 0, huge ones a level beyond the range.
proof fn lemma_extremes(x: real)
    requires
        x >= 0real,
    ensures
        x < 1real / 1000real ==> plain_level(x) == 0 && percent_level(x) == 0,
        x >= 1000real ==> plain_level(x) >= 255 && percent_level(x) >= 255,
        plain_level(x) >= 0,
        percent_level(x) >= 0,
{
    lemma_nearest_error(x);
    let y = nearest(x) / 100real;
    lemma_nearest_error(y);
    let z = nearest(y) * 255real;
    lemma_nearest_error(z);
}

/// The level for a reading.
fn level_of(reading: Reading, percent: bool, Ghost(l): Ghost<Literal>) -> (r: u8)
    requires
        reading.of(l),
    ensures
        r == level(l, percent),
{
    match reading {
        Reading::Finite { negative, size } => {
            let ghost x = match l {
                Literal::Finite { digits, exponent, .. } => magnitude(digits, exponent),
                _ => 0real,
            };
            proof {
                lemma_extremes(x);
            }
            if negative {
                return 0;
            }
            match size {
                Size::Tiny => 0,
                Size::Huge => 255,
                Size::Fits(b) => {
                    let n = if percent {
                        b.over(100).times(255).round()
                    } else {
                        b.round()
                    };
                    if n < 255 {
                        n as u8
                    } else {
                        255
                    }
                },
            }
        },
        Reading::Infinite { negative } => if negative {
            0
        } else {
            255
        },
        Reading::NotANumber => 0,
    }
}

/// Reads a channel from a part of a line.
pub fn read_channel(s: &[char]) -> (r: Result<u8, ChannelError>)
    ensures
        r == channel(s@),
{
    let t = trimmed(s);
    if t.len() > 0 && t[t.len() - 1] == '%' {
        let head = slice_subrange(t, 0, t.len() - 1);
        assert(head@ == t@.drop_last());
        let p = trimmed(head);
        match read_literal(p) {
            Some(reading) => Ok(level_of(reading, true, Ghost(literal(p@)->0))),
            None => Err(ChannelError::Percent),
        }
    } else {
        match read_literal(t) {
            Some(reading) => Ok(level_of(reading, false, Ghost(literal(t@)->0))),
            None => Err(ChannelError::Plain),
        }
    }
}

/// Reads a channel: `"255"`, `"254.7"` or `"50.2%"`.
pub fn parse_channel(s: &str) -> (r: Result<u8, ChannelError>)
    ensures
        r == channel(s@),
{
    let chars = chars_of(s);
    read_channel(chars.as_slice())
}

/// A larger number never gives a smaller level, written as it is or as a percentage.
pub proof fn lemma_level_monotone(x: real, y: real)
    requires
        0real <= x <= y,
    ensures
        plain_level(x) <= plain_level(y),
        percent_level(x) <= percent_level(y),
{
    lemma_nearest_monotone(x, y);
    let (a, b) = (nearest(x), nearest(y));
    lemma_nearest_monotone(a / 100real, b / 100real);
    lemma_nearest_monotone(nearest(a / 100real) * 255real, nearest(b / 100real) * 255real);
}

} // verus!
