//! What a conversion decides: the grid, the delays, the programs it runs and what it makes of a
//! frame, told from what it is given.

use crate::commands::{asking_frame_sizes, asking_size, assembling, finish, timed};
use crate::dump::{art_of, body, dump_pixels, pixels_in, readable, rows_of, Ramp};
use crate::frames::{average, delay_of, rows_for, total};
use crate::grid::{grid_of, is_best, lemma_gap};
use crate::names::{selected, texts, without, Kind};
use crate::probe::{delays, dimensions, lossy};
use crate::render::{marks, obstacle, rendered, Canvas, Mark, Stamp};
use crate::run::{
    cut_short, failure, leads, made, spoilt, start, wanted, Action, Deed, Failure, Heard, Job, Made,
    Mode, Phase, Position, Product, Reply,
};
use crate::text::digits_of;
use vstd::math::abs;
use vstd::prelude::*;

verus! {

/// No cell covers a picture better than the best: the columns and the rows of a grid of the best
/// cell leave the least uncovered, both taken together.
pub proof fn lemma_least_uncovered(
    cells: Seq<(u32, u32)>,
    w: u32,
    h: u32,
    k: int,
    j: int,
    font_size: u8,
)
    requires
        forall|j: int| 0 <= j < cells.len() ==> (#[trigger] cells[j]).0 > 0 && cells[j].1 > 0,
        is_best(cells, w, h, k),
        0 <= j < cells.len(),
    ensures
        ({
            let g = grid_of(cells[k], w, h, font_size);
            let o = grid_of(cells[j], w, h, font_size);
            let least = abs(w - g.n_cols * cells[k].0) + abs(h - g.n_rows * cells[k].1);
            let other = abs(w - o.n_cols * cells[j].0) + abs(h - o.n_rows * cells[j].1);
            least <= other && (j < k ==> least < other)
        }),
{
    lemma_gap(w, cells[k].0);
    lemma_gap(h, cells[k].1);
    lemma_gap(w, cells[j].0);
    lemma_gap(h, cells[j].1);
}

/// A grid has as many columns and rows as fit, and one where none does.
pub proof fn lemma_grid_counts(cell: (u32, u32), w: u32, h: u32, font_size: u8)
    requires
        cell.0 > 0,
        cell.1 > 0,
    ensures
        ({
            let g = grid_of(cell, w, h, font_size);
            &&& g.n_cols == (if w < cell.0 {
                1
            } else {
                w as int / cell.0 as int
            })
            &&& g.n_rows == (if h < cell.1 {
                1
            } else {
                h as int / cell.1 as int
            })
            &&& (g.char_w, g.char_h) == cell
            &&& g.font_size == font_size
        }),
{
}

/// The sum of delays is that of the first and of the others.
pub proof fn lemma_total_join(a: Seq<u32>, b: Seq<u32>)
    ensures
        total(a + b) == total(a) + total(b),
    decreases b.len(),
{
    if b.len() == 0 {
        assert(a + b == a);
    } else {
        assert((a + b).drop_last() == a + b.drop_last());
        lemma_total_join(a, b.drop_last());
    }
}

/// The sum of one delay is the delay, and that of none is nothing.
pub proof fn lemma_total_one(d: u32)
    ensures
        total(seq![d]) == d,
        total(Seq::empty()) == 0,
{
    assert(seq![d].drop_last() == Seq::<u32>::empty());
    assert(total(Seq::empty()) == 0);
}

/// The average times the number of delays is at most their sum, and with one more it is above.
pub proof fn lemma_average(delays: Seq<u32>)
    requires
        delays.len() > 0,
    ensures
        average(delays) * delays.len() <= total(delays) < (average(delays) + 1) * delays.len(),
{
    let (n, t, a) = (delays.len() as int, total(delays), average(delays));
    vstd::arithmetic::div_mod::lemma_fundamental_div_mod(t, n);
    assert(a * n <= t < (a + 1) * n) by (nonlinear_arith)
        requires
            t == n * a + t % n,
            0 <= t % n < n,
    ;
}

/// A frame that has a delay of its own keeps it, whatever its number; only the frames beyond the
/// known delays get the average.
pub proof fn lemma_own_delay(delays: Seq<u32>, i: int)
    requires
        0 <= i,
    ensures
        i < delays.len() ==> delay_of(delays, i) == delays[i],
        i >= delays.len() ==> delay_of(delays, i) == average(delays),
{
}

/// The arguments for the first pictures of an animation do not depend on how many follow.
proof fn lemma_timed_at(dir: Seq<char>, pictures: Seq<Seq<char>>, delays: Seq<u32>, n: int, i: int)
    requires
        0 <= i < n,
    ensures
        timed(dir, pictures, delays, n).len() == 3 * n,
        timed(dir, pictures, delays, n)[3 * i] == "-delay"@,
        timed(dir, pictures, delays, n)[3 * i + 1] == digits_of(
            if i < delays.len() {
                delays[i] as nat
            } else {
                average(delays) as nat
            },
        ),
        timed(dir, pictures, delays, n)[3 * i + 2] == dir + "/"@ + pictures[i],
    decreases n,
{
    if n > 1 {
        lemma_timed_at(dir, pictures, delays, n - 1, if i < n - 1 { i } else { 0 });
    } else {
        assert(timed(dir, pictures, delays, 0).len() == 0);
    }
}

/// Every picture goes into an animation in its place: after its own delay where it has one, and
/// only else after the average.
pub proof fn lemma_picture_delay(
    dir: Seq<char>,
    pictures: Seq<Seq<char>>,
    delays: Seq<u32>,
    size: Option<(u32, u32)>,
    output: Seq<char>,
    i: int,
)
    requires
        0 <= i < pictures.len(),
    ensures
        ({
            let args = assembling(dir, pictures, delays, size, output);
            &&& args[2 + 3 * i] == "-delay"@
            &&& i < delays.len() ==> args[3 + 3 * i] == digits_of(delays[i] as nat)
            &&& i >= delays.len() ==> args[3 + 3 * i] == digits_of(average(delays) as nat)
            &&& args[4 + 3 * i] == dir + "/"@ + pictures[i]
        }),
{
    let n = pictures.len() as int;
    let (args, middle) = (
        assembling(dir, pictures, delays, size, output),
        timed(dir, pictures, delays, n),
    );
    lemma_timed_at(dir, pictures, delays, n, i);
    assert(args[2 + 3 * i] == middle[3 * i]);
    assert(args[3 + 3 * i] == middle[3 * i + 1]);
    assert(args[4 + 3 * i] == middle[3 * i + 2]);
}

/// An animation is endless, takes three arguments for each picture, is brought to a size where
/// one is given, and goes to the output.
pub proof fn lemma_animation(
    dir: Seq<char>,
    pictures: Seq<Seq<char>>,
    delays: Seq<u32>,
    size: Option<(u32, u32)>,
    output: Seq<char>,
)
    ensures
        ({
            let args = assembling(dir, pictures, delays, size, output);
            let n = 3 * (pictures.len() as int);
            &&& args.take(2) == seq!["-loop"@, "0"@]
            &&& args.skip(2 + n) == (match size {
                Some((w, h)) => seq![
                    "-coalesce"@,
                    "-resize"@,
                    digits_of(w as nat) + "x"@ + digits_of(h as nat) + "!"@,
                    output,
                ],
                None => seq![output],
            })
        }),
{
    let n = pictures.len() as int;
    let (args, middle) = (
        assembling(dir, pictures, delays, size, output),
        timed(dir, pictures, delays, n),
    );
    if n > 0 {
        lemma_timed_at(dir, pictures, delays, n, 0);
    }
    let (head, end) = (seq!["-loop"@, "0"@], finish(size));
    assert(args == head + middle + end + seq![output]);
    assert(args.take(2) == head);
    assert(args.skip(2 + 3 * n) == end + seq![output]);
}

/// In columns mode a dump that can be read becomes a picture of its pixels in the ramp of ten
/// characters, in cells of 7 by 14 pixels and at size 12; as wide as its first row, and as high
/// as it has rows.
pub proof fn lemma_columns_picture(mode: Mode, i: int, bytes: Seq<u8>)
    requires
        mode is Columns,
    ensures
        match dump_pixels(bytes, usize::MAX as u64) {
            None => spoilt(mode, i, bytes) == Some(Failure::Text(i as usize)),
            Some(ps) => {
                let (font, rows) = (mode->Columns_font@, rows_of(ps, Ramp::Coarse));
                if ps.len() == 0 {
                    spoilt(mode, i, bytes) == Some(Failure::Empty(i as usize))
                } else {
                    let (w, h) = (rows[0].len() * 7int, rows.len() * 14int);
                    match obstacle(rows, font, w, h, 7, 14, 12) {
                        Some(e) => spoilt(mode, i, bytes) == Some(Failure::Render(i as usize, e)),
                        None => {
                            &&& spoilt(mode, i, bytes) is None
                            &&& made(mode, bytes) == Made::Picture(
                                w as u32,
                                h as u32,
                                rendered(rows, font, w as u32, h as u32, 7, 14, 12),
                            )
                        },
                    }
                }
            },
        },
        !cut_short(mode, bytes),
{
    match dump_pixels(bytes, usize::MAX as u64) {
        Some(ps) => {
            crate::dump::lemma_rows_filled(ps, Ramp::Coarse);
        },
        None => {},
    }
}

/// In fitted mode a dump that can be read becomes a picture of its pixels in the ramp of 70
/// characters, in the cells and at the size of the grid, and as large as the grid.
pub proof fn lemma_fitted_picture(mode: Mode, i: int, bytes: Seq<u8>)
    requires
        mode is Fitted,
    ensures
        match dump_pixels(bytes, usize::MAX as u64) {
            None => spoilt(mode, i, bytes) == Some(Failure::Text(i as usize)),
            Some(ps) => {
                let (font, rows) = (mode->Fitted_font@, rows_of(ps, Ramp::Fine));
                let g = mode->Fitted_grid;
                if ps.len() == 0 {
                    spoilt(mode, i, bytes) == Some(Failure::Empty(i as usize))
                } else {
                    let (w, h) = (g.n_cols * g.char_w, g.n_rows * g.char_h);
                    match obstacle(rows, font, w, h, g.char_w, g.char_h, g.font_size) {
                        Some(e) => spoilt(mode, i, bytes) == Some(Failure::Render(i as usize, e)),
                        None => {
                            &&& spoilt(mode, i, bytes) is None
                            &&& made(mode, bytes) == Made::Picture(
                                w as u32,
                                h as u32,
                                rendered(
                                    rows,
                                    font,
                                    w as u32,
                                    h as u32,
                                    g.char_w,
                                    g.char_h,
                                    g.font_size,
                                ),
                            )
                        },
                    }
                }
            },
        },
        !cut_short(mode, bytes),
{
    match dump_pixels(bytes, usize::MAX as u64) {
        Some(ps) => {
            crate::dump::lemma_rows_filled(ps, Ramp::Fine);
        },
        None => {},
    }
}

/// In plain mode a dump becomes the text of its pixels in the ramp of ten characters, closed by a
/// line break. One with a line that is not UTF-8 becomes the text of the pixels before that line,
/// which is not closed.
pub proof fn lemma_plain_text(mode: Mode, i: int, bytes: Seq<u8>)
    requires
        mode is Plain,
    ensures
        spoilt(mode, i, bytes) is None,
        match dump_pixels(bytes, u32::MAX as u64) {
            Some(ps) => {
                &&& made(mode, bytes) == Made::Text(art_of(ps, Ramp::Coarse) + seq!['\n'])
                &&& !cut_short(mode, bytes)
            },
            None => {
                let ps = pixels_in(readable(body(bytes)), u32::MAX as u64);
                &&& made(mode, bytes) == Made::Text(art_of(ps, Ramp::Coarse))
                &&& cut_short(mode, bytes)
            },
        },
{
    match dump_pixels(bytes, u32::MAX as u64) {
        Some(ps) => {
            let art = art_of(ps, Ramp::Coarse);
            assert(art.push('\n') == art + seq!['\n']);
        },
        None => {},
    }
}

/// What is to be done for the GIF as a whole: it is taken apart into numbered pictures, its delays
/// are asked for, the files are listed, the pictures put together, the working directory removed.
pub proof fn lemma_wanted_of_all(job: Job, at: Position)
    ensures
        ({
            let deed = wanted(job, at);
            let size = match job.mode {
                Mode::Fitted { orig_w, orig_h, .. } => Some((orig_w, orig_h)),
                _ => None,
            };
            &&& at.phase is Extract ==> deed == Deed::Run(
                "ffmpeg"@,
                seq!["-i"@, job.input@, job.frame_dir@ + "/"@ + "frame%04d.png"@],
            )
            &&& at.phase is Delays ==> deed == Deed::Query(
                "magick"@,
                seq!["identify"@, "-format"@, "%T\n"@, job.input@],
            )
            &&& at.phase is ListFrames ==> deed == Deed::List(job.frame_dir@)
            &&& at.phase is ListTexts ==> deed == Deed::List(job.frame_dir@)
            &&& at.phase is ListImages ==> deed == Deed::List(job.art_dir@)
            &&& at.phase is Assemble ==> deed == Deed::Run(
                "magick"@,
                assembling(job.art_dir@, at.images, at.delays, size, job.output@),
            )
            &&& at.phase is CleanUp ==> deed == Deed::RemoveAll(job.working@)
            &&& at.phase is Done ==> deed == Deed::Stop
        }),
{
}

/// What is to be done for a frame: its size is asked for, it is resized to the grid, its pixels
/// are written out and read, what they are made into is saved, and the files between are removed.
/// The files are named after the frame.
pub proof fn lemma_wanted_of_frame(job: Job, at: Position, base: Seq<char>)
    requires
        at.frames[at.index] == base + ".png"@,
    ensures
        ({
            let deed = wanted(job, at);
            let dir = job.frame_dir@ + "/"@;
            let picture = dir + (base + ".png"@);
            let resized = dir + (base + "-resized.png"@);
            let dump = dir + (base + ".txt"@);
            let size = digits_of(at.columns as nat) + "x"@ + digits_of(at.rows as nat) + "!"@;
            &&& at.phase is Measure ==> deed == Deed::Query(
                "magick"@,
                seq!["identify"@, "-ping"@, "-format"@, "%w %h"@, picture],
            )
            &&& at.phase is Resize && job.mode is Fitted ==> deed == Deed::Run(
                "magick"@,
                seq![
                    picture,
                    "-resize"@,
                    size,
                    "-filter"@,
                    "Lanczos"@,
                    "-colorspace"@,
                    "sRGB"@,
                    resized,
                ],
            )
            &&& at.phase is Resize && !(job.mode is Fitted) ==> deed == Deed::Run(
                "magick"@,
                seq![picture, "-resize"@, size, resized],
            )
            &&& at.phase is Dump ==> deed == Deed::Run("magick"@, seq![resized, dump])
            &&& at.phase is Read ==> deed == Deed::Read(dump)
            &&& at.phase is Save && job.mode is Plain ==> deed == Deed::Save(
                dir + (base + ".ascii.txt"@),
            )
            &&& at.phase is Save && !(job.mode is Plain) ==> deed == Deed::Save(
                job.art_dir@ + "/"@ + (base + ".png"@),
            )
            &&& at.phase is DropResized ==> deed == Deed::Remove(resized)
            &&& at.phase is DropDump ==> deed == Deed::Remove(dump)
        }),
{
    reveal_strlit(".png");
    let frame = at.frames[at.index];
    assert(frame.take(frame.len() - 4) == base);
    if at.phase is Resize {
        let picture = job.frame_dir@ + "/"@ + frame;
        let resized = job.frame_dir@ + "/"@ + (base + "-resized.png"@);
        let size = digits_of(at.columns as nat) + "x"@ + digits_of(at.rows as nat) + "!"@;
        let args = wanted(job, at)->Run_1;
        if job.mode is Fitted {
            assert(args == seq![
                picture,
                "-resize"@,
                size,
                "-filter"@,
                "Lanczos"@,
                "-colorspace"@,
                "sRGB"@,
                resized,
            ]);
        } else {
            assert(args == seq![picture, "-resize"@, size, resized]);
        }
    }
}

/// What is to be done for a text: it is drawn black on white, into a picture that is named after
/// it.
pub proof fn lemma_wanted_of_text(job: Job, at: Position)
    requires
        at.phase is Label,
    ensures
        wanted(job, at) == Deed::Run(
            "magick"@,
            seq![
                "-background"@,
                "white"@,
                "-fill"@,
                "black"@,
                "-font"@,
                "/usr/share/fonts/liberation/LiberationMono-Regular.ttf"@,
                "-pointsize"@,
                "12"@,
                "label:@"@ + (job.frame_dir@ + "/"@ + at.texts[at.index]),
                job.art_dir@ + "/"@ + (without(at.texts[at.index], ".ascii.txt"@) + ".png"@),
            ],
        ),
{
}

/// A program that succeeds lets the conversion go on to the next stage, with nothing else
/// changed; one that fails ends it, with the stage and the frame named.
pub proof fn lemma_program_ends(job: Job, at: Position, next: Position)
    requires
        at.phase is Extract || at.phase is Resize || at.phase is Dump || at.phase is Assemble,
    ensures
        failure(job, at, Heard::Exit(true)) is None,
        failure(job, at, Heard::Exit(false)) == Some(
            match at.phase {
                Phase::Extract => Failure::Extract,
                Phase::Resize => Failure::Resize(at.index as usize),
                Phase::Dump => Failure::Dump(at.index as usize),
                _ => Failure::Assemble,
            },
        ),
        leads(job, at, Heard::Exit(true), next) <==> next == (Position {
            phase: match at.phase {
                Phase::Extract => Phase::Delays,
                Phase::Resize => Phase::Dump,
                Phase::Dump => Phase::Read,
                _ => if job.keep {
                    Phase::Done
                } else {
                    Phase::CleanUp
                },
            },
            ..at
        }),
{
}

/// The delays are taken as they are reported; a conversion ends where there are none, or where
/// their sum does not fit 32 bits.
pub proof fn lemma_delays_heard(job: Job, at: Position, ok: bool, bytes: Seq<u8>, next: Position)
    requires
        at.phase is Delays,
    ensures
        ({
            let (heard, ds) = (Heard::Output(ok, bytes), delays(lossy(bytes)));
            &&& !ok ==> failure(job, at, heard) == Some(Failure::DelayReport)
            &&& ok && ds.len() == 0 ==> failure(job, at, heard) == Some(Failure::NoFrames)
            &&& ok && ds.len() > 0 && total(ds) > 0xffff_ffff ==> failure(job, at, heard) == Some(
                Failure::DelaySum,
            )
            &&& ok && 0 < ds.len() <= 0xffff_ffff && total(ds) <= 0xffff_ffff ==> failure(
                job,
                at,
                heard,
            ) is None
            &&& leads(job, at, heard, next) <==> next == (Position {
                phase: Phase::ListFrames,
                delays: ds,
                ..at
            })
        }),
{
}

/// A frame is resized to the number of rows that its size asks for, where that can be told.
pub proof fn lemma_size_heard(job: Job, at: Position, ok: bool, bytes: Seq<u8>, next: Position)
    requires
        at.phase is Measure,
    ensures
        ({
            let heard = Heard::Output(ok, bytes);
            match dimensions(lossy(bytes)) {
                Ok((w, h)) => {
                    &&& failure(job, at, heard) is None
                    &&& leads(job, at, heard, next) <==> next == (Position {
                        phase: Phase::Resize,
                        rows: rows_for(w, h, at.columns) as u32,
                        ..at
                    })
                },
                Err(e) => failure(job, at, heard) == Some(Failure::Size(at.index as usize, e)),
            }
        }),
{
}

/// What a frame is made into depends on its pixels and on the mode; what has been saved of a text
/// that ends early is kept, and then the conversion ends.
pub proof fn lemma_frame_read(job: Job, at: Position, bytes: Seq<u8>, next: Position)
    ensures
        at.phase is Read ==> failure(job, at, Heard::Bytes(bytes)) == spoilt(
            job.mode,
            at.index,
            bytes,
        ),
        at.phase is Read ==> (leads(job, at, Heard::Bytes(bytes), next) <==> next == (Position {
            phase: Phase::Save,
            product: made(job.mode, bytes),
            interrupted: job.mode is Plain && dump_pixels(bytes, u32::MAX as u64) is None,
            ..at
        })),
        at.phase is Save && !at.interrupted ==> failure(job, at, Heard::Finished) is None,
        at.phase is Save && at.interrupted ==> failure(job, at, Heard::Finished) == Some(
            Failure::Text(at.index as usize),
        ),
        at.phase is Save ==> (leads(job, at, Heard::Finished, next) <==> next == (Position {
            phase: Phase::DropResized,
            product: Made::Nothing,
            ..at
        })),
{
}

/// The files of a frame are removed one after the other, and the next frame follows, however many
/// there are; after the last one the texts are listed in plain mode and else the pictures.
pub proof fn lemma_frame_done(job: Job, at: Position, next: Position)
    ensures
        at.phase is DropResized || at.phase is DropDump ==> failure(
            job,
            at,
            Heard::Finished,
        ) is None,
        at.phase is DropResized ==> (leads(job, at, Heard::Finished, next) <==> next == (Position {
            phase: Phase::DropDump,
            ..at
        })),
        at.phase is DropDump && at.index + 1 < at.frames.len() ==> (leads(
            job,
            at,
            Heard::Finished,
            next,
        ) <==> next == (Position {
            phase: if job.mode is Fitted {
                Phase::Resize
            } else {
                Phase::Measure
            },
            index: at.index + 1,
            ..at
        })),
        at.phase is DropDump && at.index + 1 >= at.frames.len() ==> (leads(
            job,
            at,
            Heard::Finished,
            next,
        ) <==> next == (Position {
            phase: if job.mode is Plain {
                Phase::ListTexts
            } else {
                Phase::ListImages
            },
            index: 0,
            ..at
        })),
{
}

/// The texts are drawn one after the other, however many there are, and then the pictures are
/// listed.
pub proof fn lemma_text_drawn(job: Job, at: Position, next: Position)
    requires
        at.phase is Label,
    ensures
        failure(job, at, Heard::Exit(true)) is None,
        failure(job, at, Heard::Exit(false)) == Some(Failure::Label(at.index as usize)),
        leads(job, at, Heard::Exit(true), next) <==> next == (if at.index + 1 < at.texts.len() {
            Position { index: at.index + 1, ..at }
        } else {
            Position { phase: Phase::ListImages, index: 0, ..at }
        }),
{
}

/// A list of names is never a failure, whatever it holds.
pub proof fn lemma_lists_succeed(job: Job, at: Position, names: Seq<Seq<char>>)
    requires
        at.phase is ListFrames || at.phase is ListTexts || at.phase is ListImages,
    ensures
        failure(job, at, Heard::Names(names)) is None,
{
}

/// The arguments that ask for the sizes of all frames, and for the size of a picture.
pub proof fn lemma_asking(input: Seq<char>)
    ensures
        asking_frame_sizes(input) == seq!["identify"@, "-ping"@, "-format"@, "%w %h\n"@, input],
        asking_size(input) == seq!["identify"@, "-ping"@, "-format"@, "%w %h"@, input],
{
}

/// Of the names in a directory those that the stage looks for are taken, and work on the first of
/// them begins, if there is one.
pub proof fn lemma_names_heard(
    job: Job,
    at: Position,
    names: Seq<Seq<char>>,
    next: Position,
)
    requires
        at.phase is ListFrames || at.phase is ListTexts || at.phase is ListImages,
        leads(job, at, Heard::Names(names), next),
    ensures
        failure(job, at, Heard::Names(names)) is None,
        (next.delays, next.columns, next.rows, next.product, next.interrupted) == (
            at.delays,
            at.columns,
            at.rows,
            at.product,
            at.interrupted,
        ),
        at.phase is ListFrames ==> {
            &&& selected(next.frames, names, Kind::Png)
            &&& (next.texts, next.images, next.index) == (at.texts, at.images, 0int)
            &&& next.phase == (if next.frames.len() > 0 {
                if job.mode is Fitted {
                    Phase::Resize
                } else {
                    Phase::Measure
                }
            } else if job.mode is Plain {
                Phase::ListTexts
            } else {
                Phase::ListImages
            })
        },
        at.phase is ListTexts ==> {
            &&& selected(next.texts, names, Kind::Art)
            &&& (next.frames, next.images, next.index) == (at.frames, at.images, 0int)
            &&& next.phase == (if next.texts.len() > 0 {
                Phase::Label
            } else {
                Phase::ListImages
            })
        },
        at.phase is ListImages ==> {
            &&& selected(next.images, names, Kind::Png)
            &&& (next.frames, next.texts, next.index) == (at.frames, at.texts, at.index)
            &&& next.phase == Phase::Assemble
        },
{
}

/// A conversion begins with taking the GIF apart, for the columns and rows that its mode asks
/// for; it is done when its files have been removed.
pub proof fn lemma_begin_and_end(job: Job, at: Position, next: Position)
    ensures
        ({
            let s = start(job);
            &&& s.phase is Extract && s.index == 0
            &&& s.delays.len() == 0 && s.frames.len() == 0 && s.texts.len() == 0 && s.images.len()
                == 0
            &&& s.product is Nothing && !s.interrupted
            &&& match job.mode {
                Mode::Plain { columns } => s.columns == columns,
                Mode::Columns { columns, .. } => s.columns == columns,
                Mode::Fitted { grid, .. } => s.columns == grid.n_cols && s.rows == grid.n_rows,
            }
        }),
        at.phase is CleanUp ==> failure(job, at, Heard::Finished) is None,
        at.phase is CleanUp ==> (leads(job, at, Heard::Finished, next) <==> next == (Position {
            phase: Phase::Done,
            ..at
        })),
{
}

/// A reply that does not answer the action ends a conversion, and nothing follows the end.
pub proof fn lemma_wrong_reply(job: Job, at: Position, heard: Heard, next: Position)
    requires
        match at.phase {
            Phase::Extract | Phase::Resize | Phase::Dump | Phase::Label | Phase::Assemble => {
                !(heard is Exit)
            },
            Phase::Delays | Phase::Measure => !(heard is Output),
            Phase::ListFrames | Phase::ListTexts | Phase::ListImages => !(heard is Names),
            Phase::Read => !(heard is Bytes),
            Phase::Save | Phase::DropResized | Phase::DropDump | Phase::CleanUp => {
                !(heard is Finished)
            },
            Phase::Done => true,
        },
    ensures
        failure(job, at, heard) == Some(Failure::Unexpected),
        !leads(job, at, heard, next),
{
}

/// What is handed over is what was asked for and what came of it, unchanged.
pub proof fn lemma_handed_over(
    program: String,
    args: Vec<String>,
    path: String,
    bytes: Vec<u8>,
    canvas: Canvas,
    ok: bool,
)
    ensures
        (Action::Run { program, args })@ == Deed::Run(program@, texts(args@)),
        (Action::Query { program, args })@ == Deed::Query(program@, texts(args@)),
        (Action::List { dir: path })@ == Deed::List(path@),
        (Action::Read { path })@ == Deed::Read(path@),
        (Action::Save { path })@ == Deed::Save(path@),
        (Action::Remove { path })@ == Deed::Remove(path@),
        (Action::RemoveAll { path })@ == Deed::RemoveAll(path@),
        Action::Stop@ == Deed::Stop,
        Reply::Exit(ok)@ == Heard::Exit(ok),
        Reply::Output(ok, bytes)@ == Heard::Output(ok, bytes@),
        Reply::Names(args)@ == Heard::Names(texts(args@)),
        Reply::Bytes(bytes)@ == Heard::Bytes(bytes@),
        Reply::Finished@ == Heard::Finished,
        Product::Nothing@ == Made::Nothing,
        Product::Text(path)@ == Made::Text(path@),
        Product::Picture(canvas)@ == Made::Picture(canvas.width, canvas.height, canvas.pixels@),
{
}

/// The characters of a list are marked where they stand in it.
pub proof fn lemma_marks(list: Seq<Stamp>, i: int)
    ensures
        marks(list).len() == list.len(),
        0 <= i < list.len() ==> marks(list)[i] == (Mark {
            glyph: list[i].glyph,
            x: list[i].x as int,
            y: list[i].y as int,
        }),
{
}

} // verus!
