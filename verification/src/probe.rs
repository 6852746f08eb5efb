//! What ImageMagick reports of a GIF: the delays of its frames and the size of an image.

use crate::text::{
    chars_of, next_word, parse_unsigned, parts, split, take_word, trim, trimmed, unsigned,
};
use vstd::prelude::*;
use vstd::utf8::{decode_utf8, valid_utf8};

verus! {

/// The text that bytes stand for, where what is not UTF-8 is replaced.
pub uninterp spec fn lossy(bytes: Seq<u8>) -> Seq<char>;

/// Makes text of bytes.
///
/// Trusted: `String::from_utf8_lossy` is a function of the bytes, and gives back the characters
/// that they encode where they are valid UTF-8. What it puts in place of bytes that are not is
/// left to the name [`lossy`].
#[verifier::external_body]
fn lossy_text(bytes: &[u8]) -> (r: String)
    ensures
        r@ == lossy(bytes@),
        valid_utf8(bytes@) ==> r@ == decode_utf8(bytes@),
{
    String::from_utf8_lossy(bytes).into_owned()
}

/// Why the delays cannot be told.
#[derive(Clone, Copy, Debug, PartialEq, Eq, Structural)]
pub enum DelayError {
    /// No line of the report is a delay.
    NoFrames,
}

/// Why the size of an image cannot be told.
#[derive(Clone, Copy, Debug, PartialEq, Eq, Structural)]
pub enum SizeError {
    MissingWidth,
    InvalidWidth,
    MissingHeight,
    InvalidHeight,
}

/// The delays on lines; lines that are no number are passed over.
pub open spec fn delays_on(lines: Seq<Seq<char>>) -> Seq<u32>
    decreases lines.len(),
{
    if lines.len() == 0 {
        Seq::empty()
    } else {
        match unsigned(trim(lines.last()), u32::MAX as int) {
            Some(n) => delays_on(lines.drop_last()).push(n as u32),
            None => delays_on(lines.drop_last()),
        }
    }
}

/// The delays in a report, one on each line.
pub open spec fn delays(report: Seq<char>) -> Seq<u32> {
    delays_on(split(report, '\n'))
}

/// The size in a report: its first two words, the width and the height.
pub open spec fn dimensions(report: Seq<char>) -> Result<(u32, u32), SizeError> {
    match next_word(report) {
        None => Err(SizeError::MissingWidth),
        Some((first, rest)) => match unsigned(first, u32::MAX as int) {
            None => Err(SizeError::InvalidWidth),
            Some(w) => match next_word(rest) {
                None => Err(SizeError::MissingHeight),
                Some((second, _)) => match unsigned(second, u32::MAX as int) {
                    None => Err(SizeError::InvalidHeight),
                    Some(h) => Ok((w as u32, h as u32)),
                },
            },
        },
    }
}

/// Reads the delays in a report.
pub fn read_delays(report: &str) -> (r: Result<Vec<u32>, DelayError>)
    ensures
        match r {
            Ok(ds) => ds@ == delays(report@) && ds.len() > 0,
            Err(_) => delays(report@).len() == 0,
        },
{
    let chars = chars_of(report);
    let lines = parts(chars.as_slice(), '\n');
    let ghost all = split(report@, '\n');
    let mut ds: Vec<u32> = Vec::new();
    let mut i: usize = 0;
    while i < lines.len()
        invariant
            i <= lines.len() == all.len(),
            forall|j: int| 0 <= j < lines.len() ==> (#[trigger] lines[j])@ == all[j],
            ds@ == delays_on(all.take(i as int)),
        decreases lines.len() - i,
    {
        assert(all.take(i + 1).drop_last() == all.take(i as int));
        match parse_unsigned(trimmed(lines[i]), u32::MAX as u64) {
            Some(n) => {
                ds.push(n as u32);
            },
            None => {},
        }
        i = i + 1;
    }
    assert(all.take(i as int) == all);
    if ds.len() == 0 {
        Err(DelayError::NoFrames)
    } else {
        Ok(ds)
    }
}

/// Reads the delays of the frames, in hundredths of a second, from what a program has written.
pub fn get_frame_delays(output: &[u8]) -> (r: Result<Vec<u32>, DelayError>)
    ensures
        match r {
            Ok(ds) => ds@ == delays(lossy(output@)) && ds.len() > 0,
            Err(_) => delays(lossy(output@)).len() == 0,
        },
        valid_utf8(output@) ==> match r {
            Ok(ds) => ds@ == delays(decode_utf8(output@)),
            Err(_) => delays(decode_utf8(output@)).len() == 0,
        },
{
    let report = lossy_text(output);
    read_delays(report.as_str())
}

/// Reads a width and a height.
fn read_dimensions(report: &[char]) -> (r: Result<(u32, u32), SizeError>)
    ensures
        r == dimensions(report@),
{
    match take_word(report) {
        None => Err(SizeError::MissingWidth),
        Some((first, rest)) => match parse_unsigned(first, u32::MAX as u64) {
            None => Err(SizeError::InvalidWidth),
            Some(w) => match take_word(rest) {
                None => Err(SizeError::MissingHeight),
                Some((second, _)) => match parse_unsigned(second, u32::MAX as u64) {
                    None => Err(SizeError::InvalidHeight),
                    Some(h) => Ok((w as u32, h as u32)),
                },
            },
        },
    }
}

/// Reads the size in a report.
pub fn read_size(report: &str) -> (r: Result<(u32, u32), SizeError>)
    ensures
        r == dimensions(report@),
{
    let chars = chars_of(report);
    read_dimensions(chars.as_slice())
}

/// Reads the size in the first line of a report.
pub fn read_first_size(report: &str) -> (r: Result<(u32, u32), SizeError>)
    ensures
        r == dimensions(split(report@, '\n')[0]),
{
    let chars = chars_of(report);
    let lines = parts(chars.as_slice(), '\n');
    proof {
        reveal(split);
        crate::text::lemma_position(report@, '\n');
    }
    read_dimensions(lines[0])
}

/// Reads the size of an image from what a program has written.
pub fn image_dimensions(output: &[u8]) -> (r: Result<(u32, u32), SizeError>)
    ensures
        r == dimensions(lossy(output@)),
        valid_utf8(output@) ==> r == dimensions(decode_utf8(output@)),
{
    let report = lossy_text(output);
    read_size(report.as_str())
}

/// Reads the size of the first image from what a program has written, with a line for each
/// image.
pub fn first_image_dimensions(output: &[u8]) -> (r: Result<(u32, u32), SizeError>)
    ensures
        r == dimensions(split(lossy(output@), '\n')[0]),
        valid_utf8(output@) ==> r == dimensions(split(decode_utf8(output@), '\n')[0]),
{
    let report = lossy_text(output);
    read_first_size(report.as_str())
}

} // verus!
