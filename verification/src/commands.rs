//! The arguments that `ffmpeg` and ImageMagick are called with.

use crate::frames::{average, delay_for, delay_of};
use crate::names::texts;
use crate::text::{digits_of, push_number};
use vstd::prelude::*;
use vstd::string::StringExecFns;

verus! {

/// The path of a file in a directory.
pub open spec fn path(dir: Seq<char>, name: Seq<char>) -> Seq<char> {
    dir + "/"@ + name
}

/// A size that ImageMagick keeps to, whatever shape that gives the picture.
pub open spec fn exact_size(w: u32, h: u32) -> Seq<char> {
    digits_of(w as nat) + "x"@ + digits_of(h as nat) + "!"@
}

/// Joins two pieces of text.
fn joined(a: &str, b: &str) -> (r: String)
    ensures
        r@ == a@ + b@,
{
    let mut r = String::new();
    r.append(a);
    r.append(b);
    r
}

/// Makes the path of a file in a directory.
pub fn path_in(dir: &str, name: &str) -> (r: String)
    ensures
        r@ == path(dir@, name@),
{
    let mut r = joined(dir, "/");
    r.append(name);
    r
}

/// Writes out a size.
pub fn geometry(w: u32, h: u32) -> (r: String)
    ensures
        r@ == exact_size(w, h),
{
    let mut r = String::new();
    push_number(&mut r, w);
    r.append("x");
    push_number(&mut r, h);
    r.append("!");
    r
}

/// The arguments of `ffmpeg` that take a GIF apart into numbered pictures.
pub open spec fn extracting(input: Seq<char>, frame_dir: Seq<char>) -> Seq<Seq<char>> {
    seq!["-i"@, input, path(frame_dir, "frame%04d.png"@)]
}

/// The arguments of `magick` that report the delay of each frame on a line.
pub open spec fn asking_delays(input: Seq<char>) -> Seq<Seq<char>> {
    seq!["identify"@, "-format"@, "%T\n"@, input]
}

/// The arguments of `magick` that report the size of a picture.
pub open spec fn asking_size(picture: Seq<char>) -> Seq<Seq<char>> {
    seq!["identify"@, "-ping"@, "-format"@, "%w %h"@, picture]
}

/// The arguments of `magick` that report the size of each frame on a line.
pub open spec fn asking_frame_sizes(input: Seq<char>) -> Seq<Seq<char>> {
    seq!["identify"@, "-ping"@, "-format"@, "%w %h\n"@, input]
}

/// The options of a resize that keeps edges and colours.
pub open spec fn sharpening(sharp: bool) -> Seq<Seq<char>> {
    if sharp {
        seq!["-filter"@, "Lanczos"@, "-colorspace"@, "sRGB"@]
    } else {
        Seq::empty()
    }
}

/// The arguments of `magick` that resize a picture to a size in characters.
pub open spec fn resizing(
    picture: Seq<char>,
    w: u32,
    h: u32,
    sharp: bool,
    resized: Seq<char>,
) -> Seq<Seq<char>> {
    seq![picture, "-resize"@, exact_size(w, h)] + sharpening(sharp) + seq![resized]
}

/// The arguments of `magick` that write the pixels of a picture out as text.
pub open spec fn dumping(resized: Seq<char>, dump: Seq<char>) -> Seq<Seq<char>> {
    seq![resized, dump]
}

/// The arguments of `magick` that draw a text file, black on white.
pub open spec fn labelling(text: Seq<char>, picture: Seq<char>) -> Seq<Seq<char>> {
    seq![
        "-background"@,
        "white"@,
        "-fill"@,
        "black"@,
        "-font"@,
        "/usr/share/fonts/liberation/LiberationMono-Regular.ttf"@,
        "-pointsize"@,
        "12"@,
        "label:@"@ + text,
        picture,
    ]
}

/// The first `n` pictures of an animation, each after its delay.
pub open spec fn timed(
    dir: Seq<char>,
    pictures: Seq<Seq<char>>,
    delays: Seq<u32>,
    n: int,
) -> Seq<Seq<char>>
    decreases n,
{
    if n <= 0 {
        Seq::empty()
    } else {
        timed(dir, pictures, delays, n - 1) + seq![
            "-delay"@,
            digits_of(delay_of(delays, n - 1) as nat),
            path(dir, pictures[n - 1]),
        ]
    }
}

/// How an animation is finished: as it is, or brought to a size.
pub open spec fn finish(size: Option<(u32, u32)>) -> Seq<Seq<char>> {
    match size {
        Some((w, h)) => seq!["-coalesce"@, "-resize"@, exact_size(w, h)],
        None => Seq::empty(),
    }
}

/// The arguments of `magick` that make an endless animation of the pictures in a directory.
/// Pictures beyond the known delays are shown for the average delay.
pub open spec fn assembling(
    dir: Seq<char>,
    pictures: Seq<Seq<char>>,
    delays: Seq<u32>,
    size: Option<(u32, u32)>,
    output: Seq<char>,
) -> Seq<Seq<char>> {
    seq!["-loop"@, "0"@] + timed(dir, pictures, delays, pictures.len() as int) + finish(size)
        + seq![output]
}

/// Lists the arguments that take a GIF apart.
pub fn extract_args(input: &str, frame_dir: &str) -> (r: Vec<String>)
    ensures
        texts(r@) == extracting(input@, frame_dir@),
{
    let mut r: Vec<String> = Vec::new();
    r.push("-i".to_owned());
    r.push(input.to_owned());
    r.push(path_in(frame_dir, "frame%04d.png"));
    r
}

/// Lists the arguments that report the delays.
pub fn delay_args(input: &str) -> (r: Vec<String>)
    ensures
        texts(r@) == asking_delays(input@),
{
    let mut r: Vec<String> = Vec::new();
    r.push("identify".to_owned());
    r.push("-format".to_owned());
    r.push("%T\n".to_owned());
    r.push(input.to_owned());
    r
}

/// Lists the arguments that report the size of a picture.
pub fn size_args(picture: &str) -> (r: Vec<String>)
    ensures
        texts(r@) == asking_size(picture@),
{
    let mut r: Vec<String> = Vec::new();
    r.push("identify".to_owned());
    r.push("-ping".to_owned());
    r.push("-format".to_owned());
    r.push("%w %h".to_owned());
    r.push(picture.to_owned());
    r
}

/// Lists the arguments that report the sizes of the frames.
pub fn frame_size_args(input: &str) -> (r: Vec<String>)
    ensures
        texts(r@) == asking_frame_sizes(input@),
{
    let mut r: Vec<String> = Vec::new();
    r.push("identify".to_owned());
    r.push("-ping".to_owned());
    r.push("-format".to_owned());
    r.push("%w %h\n".to_owned());
    r.push(input.to_owned());
    r
}

/// Lists the arguments that resize a picture.
pub fn resize_args(picture: &str, w: u32, h: u32, sharp: bool, resized: &str) -> (r: Vec<String>)
    ensures
        texts(r@) == resizing(picture@, w, h, sharp, resized@),
{
    let mut r: Vec<String> = Vec::new();
    r.push(picture.to_owned());
    r.push("-resize".to_owned());
    r.push(geometry(w, h));
    if sharp {
        r.push("-filter".to_owned());
        r.push("Lanczos".to_owned());
        r.push("-colorspace".to_owned());
        r.push("sRGB".to_owned());
    }
    r.push(resized.to_owned());
    r
}

/// Lists the arguments that write out pixels.
pub fn dump_args(resized: &str, dump: &str) -> (r: Vec<String>)
    ensures
        texts(r@) == dumping(resized@, dump@),
{
    let mut r: Vec<String> = Vec::new();
    r.push(resized.to_owned());
    r.push(dump.to_owned());
    r
}

/// Lists the arguments that draw a text file.
pub fn label_args(text: &str, picture: &str) -> (r: Vec<String>)
    ensures
        texts(r@) == labelling(text@, picture@),
{
    let mut r: Vec<String> = Vec::new();
    r.push("-background".to_owned());
    r.push("white".to_owned());
    r.push("-fill".to_owned());
    r.push("black".to_owned());
    r.push("-font".to_owned());
    r.push("/usr/share/fonts/liberation/LiberationMono-Regular.ttf".to_owned());
    r.push("-pointsize".to_owned());
    r.push("12".to_owned());
    r.push(joined("label:@", text));
    r.push(picture.to_owned());
    r
}

/// Writes out a number.
fn number_text(n: u32) -> (r: String)
    ensures
        r@ == digits_of(n as nat),
{
    let mut r = String::new();
    push_number(&mut r, n);
    assert(r@ == Seq::<char>::empty() + digits_of(n as nat));
    r
}

/// Lists the arguments that make an animation.
pub fn assemble_args(
    dir: &str,
    pictures: &[String],
    delays: &[u32],
    avg_delay: u32,
    size: Option<(u32, u32)>,
    output: &str,
) -> (r: Vec<String>)
    requires
        avg_delay == average(delays@),
    ensures
        texts(r@) == assembling(dir@, texts(pictures@), delays@, size, output@),
{
    let mut r: Vec<String> = Vec::new();
    r.push("-loop".to_owned());
    r.push("0".to_owned());
    let ghost head = seq!["-loop"@, "0"@];
    assert(texts(r@) == head + Seq::<Seq<char>>::empty());
    let mut i: usize = 0;
    while i < pictures.len()
        invariant
            i <= pictures.len(),
            avg_delay == average(delays@),
            texts(r@) == head + timed(dir@, texts(pictures@), delays@, i as int),
        decreases pictures.len() - i,
    {
        let ghost before = texts(r@);
        let delay = number_text(delay_for(delays, i, avg_delay));
        let picture = path_in(dir, pictures[i].as_str());
        assert(texts(pictures@)[i as int] == pictures[i as int]@);
        let ghost next = seq!["-delay"@, delay@, picture@];
        r.push("-delay".to_owned());
        r.push(delay);
        r.push(picture);
        assert(texts(r@) == before + next);
        assert(texts(r@) == head + timed(dir@, texts(pictures@), delays@, i + 1));
        i = i + 1;
    }
    let ghost body = texts(r@);
    match size {
        Some((w, h)) => {
            r.push("-coalesce".to_owned());
            r.push("-resize".to_owned());
            r.push(geometry(w, h));
        },
        None => {},
    }
    assert(texts(r@) == body + finish(size));
    r.push(output.to_owned());
    r
}

} // verus!
