//! The course of a conversion, as a machine: it says what is to be done next, is told what came
//! of it, and moves on.

use crate::commands::{
    asking_delays, asking_size, assemble_args, assembling, delay_args, dump_args, dumping,
    extract_args, extracting, label_args, labelling, path, path_in, resize_args, resizing,
    size_args,
};
use crate::dump::{
    art_of, body, convert_dump_to_ascii, dump_pixels, grid, parse_dump_to_colored, pixels_in,
    readable, rows_of, ColoredChar, Ramp,
};
use crate::frames::{average, average_delay, frame_height, rows_for, total};
use crate::grid::Grid;
use crate::names::{
    art_base, file_stem, is_png, lemma_selected_kind, select_art, select_pngs, selected, stem,
    texts, without, Kind,
};
use crate::probe::{
    delays, dimensions, get_frame_delays, image_dimensions, lossy, SizeError,
};
use crate::render::{
    obstacle, render_colored_ascii, render_fixed_cells, rendered, Canvas, RenderError, CHAR_H,
    CHAR_W, FONT_SIZE,
};
use crate::typeface::Typeface;
use vstd::prelude::*;
use vstd::string::StringExecFns;

verus! {

/// How a GIF is converted.
pub enum Mode {
    /// Black text on white, `columns` wide.
    Plain { columns: u32 },
    /// Coloured text in cells of a fixed size, `columns` wide.
    Columns { columns: u32, font: Typeface },
    /// Coloured text on the grid that covers the picture best.
    Fitted { font: Typeface, grid: Grid, orig_w: u32, orig_h: u32 },
}

/// What is to be converted, how, and where.
pub struct Job {
    pub mode: Mode,
    pub input: String,
    pub output: String,
    /// The directory of all intermediate files.
    pub working: String,
    /// The directory of the frames.
    pub frame_dir: String,
    /// The directory of the frames drawn in characters.
    pub art_dir: String,
    /// Whether the intermediate files are kept.
    pub keep: bool,
}

/// The stages of a conversion, in order. Those from `Measure` to `DropDump` are passed once for
/// each frame, `Label` once for each text.
#[derive(Clone, Copy, Debug, PartialEq, Eq, Structural)]
pub enum Phase {
    Extract,
    Delays,
    ListFrames,
    Measure,
    Resize,
    Dump,
    Read,
    Save,
    DropResized,
    DropDump,
    ListTexts,
    Label,
    ListImages,
    Assemble,
    CleanUp,
    Done,
}

/// What a frame has been made into.
pub enum Product {
    Nothing,
    Text(String),
    Picture(Canvas),
}

/// What a frame has been made into, as values.
pub enum Made {
    Nothing,
    Text(Seq<char>),
    Picture(u32, u32, Seq<u8>),
}

impl View for Product {
    type V = Made;

    open spec fn view(&self) -> Made {
        match self {
            Product::Nothing => Made::Nothing,
            Product::Text(t) => Made::Text(t@),
            Product::Picture(c) => Made::Picture(c.width, c.height, c.pixels@),
        }
    }
}

/// What is to be done next.
pub enum Action {
    /// Run a program; only whether it succeeds matters.
    Run { program: String, args: Vec<String> },
    /// Run a program for what it writes out.
    Query { program: String, args: Vec<String> },
    /// List the names in a directory.
    List { dir: String },
    /// Read a file.
    Read { path: String },
    /// Save what the frame has been made into.
    Save { path: String },
    /// Remove a file.
    Remove { path: String },
    /// Remove a directory and all that is in it.
    RemoveAll { path: String },
    /// Nothing: the conversion is done.
    Stop,
}

/// What is to be done next, as values.
pub enum Deed {
    Run(Seq<char>, Seq<Seq<char>>),
    Query(Seq<char>, Seq<Seq<char>>),
    List(Seq<char>),
    Read(Seq<char>),
    Save(Seq<char>),
    Remove(Seq<char>),
    RemoveAll(Seq<char>),
    Stop,
}

impl View for Action {
    type V = Deed;

    open spec fn view(&self) -> Deed {
        match self {
            Action::Run { program, args } => Deed::Run(program@, texts(args@)),
            Action::Query { program, args } => Deed::Query(program@, texts(args@)),
            Action::List { dir } => Deed::List(dir@),
            Action::Read { path } => Deed::Read(path@),
            Action::Save { path } => Deed::Save(path@),
            Action::Remove { path } => Deed::Remove(path@),
            Action::RemoveAll { path } => Deed::RemoveAll(path@),
            Action::Stop => Deed::Stop,
        }
    }
}

/// What came of an action.
pub enum Reply {
    /// A program has ended, with or without success.
    Exit(bool),
    /// A program has ended, with or without success, and has written something.
    Output(bool, Vec<u8>),
    /// The names in a directory, in any order.
    Names(Vec<String>),
    /// The contents of a file.
    Bytes(Vec<u8>),
    /// A file has been saved or removed.
    Finished,
}

/// What came of an action, as values.
pub enum Heard {
    Exit(bool),
    Output(bool, Seq<u8>),
    Names(Seq<Seq<char>>),
    Bytes(Seq<u8>),
    Finished,
}

impl View for Reply {
    type V = Heard;

    open spec fn view(&self) -> Heard {
        match self {
            Reply::Exit(ok) => Heard::Exit(*ok),
            Reply::Output(ok, bytes) => Heard::Output(*ok, bytes@),
            Reply::Names(names) => Heard::Names(texts(names@)),
            Reply::Bytes(bytes) => Heard::Bytes(bytes@),
            Reply::Finished => Heard::Finished,
        }
    }
}

/// Why a conversion ends early. A number is that of the frame.
#[derive(Clone, Copy, Debug, PartialEq, Eq, Structural)]
pub enum Failure {
    /// The reply is not one to the action.
    Unexpected,
    /// The frames could not be extracted.
    Extract,
    /// The delays could not be asked for.
    DelayReport,
    /// The report holds no delays.
    NoFrames,
    /// The sum of the delays does not fit 32 bits.
    DelaySum,
    /// The size of a frame could not be told.
    Size(usize, SizeError),
    /// A frame could not be resized.
    Resize(usize),
    /// The pixels of a frame could not be written out.
    Dump(usize),
    /// The pixels of a frame are not UTF-8 text.
    Text(usize),
    /// A frame has no pixels.
    Empty(usize),
    /// A frame could not be drawn.
    Render(usize, RenderError),
    /// A text could not be drawn.
    Label(usize),
    /// The animation could not be put together.
    Assemble,
}

/// How far a conversion has come, as values.
pub struct Position {
    pub phase: Phase,
    /// The frame, or the text, that is being worked on.
    pub index: int,
    pub delays: Seq<u32>,
    pub frames: Seq<Seq<char>>,
    pub texts: Seq<Seq<char>>,
    pub images: Seq<Seq<char>>,
    /// The size to which a frame is resized.
    pub columns: u32,
    pub rows: u32,
    pub product: Made,
    /// The pixels of the frame hold a line that is not UTF-8, and the product ends before it.
    pub interrupted: bool,
}

/// How far a conversion has come.
pub struct Progress {
    phase: Phase,
    index: usize,
    delays: Vec<u32>,
    avg_delay: u32,
    frames: Vec<String>,
    texts: Vec<String>,
    images: Vec<String>,
    columns: u32,
    rows: u32,
    product: Product,
    interrupted: bool,
}

/// A stage that is passed once for each frame.
pub open spec fn of_frame(phase: Phase) -> bool {
    match phase {
        Phase::Measure
        | Phase::Resize
        | Phase::Dump
        | Phase::Read
        | Phase::Save
        | Phase::DropResized
        | Phase::DropDump => true,
        _ => false,
    }
}

impl View for Progress {
    type V = Position;

    closed spec fn view(&self) -> Position {
        Position {
            phase: self.phase,
            index: self.index as int,
            delays: self.delays@,
            frames: texts(self.frames@),
            texts: texts(self.texts@),
            images: texts(self.images@),
            columns: self.columns,
            rows: self.rows,
            product: self.product@,
            interrupted: self.interrupted,
        }
    }
}

/// The frame, or the text, that is being worked on is one of the list; frames are PNG files.
pub open spec fn coherent(at: Position) -> bool {
    &&& of_frame(at.phase) ==> 0 <= at.index < at.frames.len()
    &&& at.phase == Phase::Label ==> 0 <= at.index < at.texts.len()
    &&& forall|i: int| 0 <= i < at.frames.len() ==> is_png(#[trigger] at.frames[i])
}

impl Progress {
    /// The position is coherent, and the average belongs to the delays once they are known.
    #[verifier::type_invariant]
    spec fn valid(self) -> bool {
        &&& coherent(self@)
        &&& self.phase == Phase::Extract || self.phase == Phase::Delays || self.avg_delay
            == average(self.delays@)
    }
}

/// The size to which the animation is brought in the end.
pub open spec fn final_size(mode: Mode) -> Option<(u32, u32)> {
    match mode {
        Mode::Fitted { orig_w, orig_h, .. } => Some((orig_w, orig_h)),
        _ => None,
    }
}

/// The path of a frame after it has been resized.
pub open spec fn resized_path(job: Job, frame: Seq<char>) -> Seq<char> {
    path(job.frame_dir@, stem(frame) + "-resized.png"@)
}

/// The path of the pixels of a frame.
pub open spec fn dump_path(job: Job, frame: Seq<char>) -> Seq<char> {
    path(job.frame_dir@, stem(frame) + ".txt"@)
}

/// The path of what a frame has been made into.
pub open spec fn product_path(job: Job, frame: Seq<char>) -> Seq<char> {
    match job.mode {
        Mode::Plain { .. } => path(job.frame_dir@, stem(frame) + ".ascii.txt"@),
        _ => path(job.art_dir@, stem(frame) + ".png"@),
    }
}

/// What is to be done at a position.
pub open spec fn wanted(job: Job, at: Position) -> Deed {
    let frame = at.frames[at.index];
    let text = at.texts[at.index];
    match at.phase {
        Phase::Extract => Deed::Run("ffmpeg"@, extracting(job.input@, job.frame_dir@)),
        Phase::Delays => Deed::Query("magick"@, asking_delays(job.input@)),
        Phase::ListFrames => Deed::List(job.frame_dir@),
        Phase::Measure => Deed::Query("magick"@, asking_size(path(job.frame_dir@, frame))),
        Phase::Resize => Deed::Run(
            "magick"@,
            resizing(
                path(job.frame_dir@, frame),
                at.columns,
                at.rows,
                job.mode is Fitted,
                resized_path(job, frame),
            ),
        ),
        Phase::Dump => Deed::Run(
            "magick"@,
            dumping(resized_path(job, frame), dump_path(job, frame)),
        ),
        Phase::Read => Deed::Read(dump_path(job, frame)),
        Phase::Save => Deed::Save(product_path(job, frame)),
        Phase::DropResized => Deed::Remove(resized_path(job, frame)),
        Phase::DropDump => Deed::Remove(dump_path(job, frame)),
        Phase::ListTexts => Deed::List(job.frame_dir@),
        Phase::Label => Deed::Run(
            "magick"@,
            labelling(
                path(job.frame_dir@, text),
                path(job.art_dir@, without(text, ".ascii.txt"@) + ".png"@),
            ),
        ),
        Phase::ListImages => Deed::List(job.art_dir@),
        Phase::Assemble => Deed::Run(
            "magick"@,
            assembling(job.art_dir@, at.images, at.delays, final_size(job.mode), job.output@),
        ),
        Phase::CleanUp => Deed::RemoveAll(job.working@),
        Phase::Done => Deed::Stop,
    }
}

/// The rows of characters in the pixels of a frame.
pub open spec fn rows_in(mode: Mode, bytes: Seq<u8>) -> Option<Seq<Seq<ColoredChar>>> {
    let ramp = if mode is Fitted {
        Ramp::Fine
    } else {
        Ramp::Coarse
    };
    match dump_pixels(bytes, usize::MAX as u64) {
        Some(ps) => Some(rows_of(ps, ramp)),
        None => None,
    }
}

/// Why frame `i` with these pixels cannot be made into anything. Plain text always can: it ends
/// before the first line that is not UTF-8.
pub open spec fn spoilt(mode: Mode, i: int, bytes: Seq<u8>) -> Option<Failure> {
    match mode {
        Mode::Plain { .. } => None,
        Mode::Columns { font, .. } => match rows_in(mode, bytes) {
            None => Some(Failure::Text(i as usize)),
            Some(rows) => if rows.len() == 0 || rows[0].len() == 0 {
                Some(Failure::Empty(i as usize))
            } else {
                match obstacle(
                    rows,
                    font@,
                    rows[0].len() * CHAR_W,
                    rows.len() * CHAR_H,
                    CHAR_W,
                    CHAR_H,
                    FONT_SIZE,
                ) {
                    Some(e) => Some(Failure::Render(i as usize, e)),
                    None => None,
                }
            },
        },
        Mode::Fitted { font, grid, .. } => match rows_in(mode, bytes) {
            None => Some(Failure::Text(i as usize)),
            Some(rows) => if rows.len() == 0 {
                Some(Failure::Empty(i as usize))
            } else {
                match obstacle(
                    rows,
                    font@,
                    grid.n_cols * grid.char_w,
                    grid.n_rows * grid.char_h,
                    grid.char_w,
                    grid.char_h,
                    grid.font_size,
                ) {
                    Some(e) => Some(Failure::Render(i as usize, e)),
                    None => None,
                }
            },
        },
    }
}

/// What a frame with these pixels is made into.
pub open spec fn made(mode: Mode, bytes: Seq<u8>) -> Made {
    match mode {
        Mode::Plain { .. } => Made::Text(
            match dump_pixels(bytes, u32::MAX as u64) {
                Some(ps) => art_of(ps, Ramp::Coarse).push('\n'),
                None => art_of(pixels_in(readable(body(bytes)), u32::MAX as u64), Ramp::Coarse),
            },
        ),
        Mode::Columns { font, .. } => {
            let rows = rows_in(mode, bytes)->0;
            let w = (rows[0].len() * CHAR_W) as u32;
            let h = (rows.len() * CHAR_H) as u32;
            Made::Picture(w, h, rendered(rows, font@, w, h, CHAR_W, CHAR_H, FONT_SIZE))
        },
        Mode::Fitted { font, grid, .. } => {
            let rows = rows_in(mode, bytes)->0;
            let w = (grid.n_cols * grid.char_w) as u32;
            let h = (grid.n_rows * grid.char_h) as u32;
            Made::Picture(
                w,
                h,
                rendered(rows, font@, w, h, grid.char_w, grid.char_h, grid.font_size),
            )
        },
    }
}

/// The text of a frame ends before a line that is not UTF-8.
pub open spec fn cut_short(mode: Mode, bytes: Seq<u8>) -> bool {
    mode is Plain && dump_pixels(bytes, u32::MAX as u64) is None
}

/// Makes frame `i` into text or a picture, and tells whether that ends before a line that is not
/// UTF-8.
fn make(mode: &Mode, i: usize, bytes: &[u8]) -> (r: Result<(Product, bool), Failure>)
    ensures
        match r {
            Ok((p, interrupted)) => {
                &&& spoilt(*mode, i as int, bytes@) is None
                &&& p@ == made(*mode, bytes@)
                &&& interrupted == cut_short(*mode, bytes@)
            },
            Err(f) => spoilt(*mode, i as int, bytes@) == Some(f),
        },
{
    match mode {
        Mode::Plain { .. } => match convert_dump_to_ascii(bytes) {
            Ok(text) => Ok((Product::Text(text), false)),
            Err(e) => Ok((Product::Text(e.text), true)),
        },
        Mode::Columns { font, .. } => match parse_dump_to_colored(bytes, Ramp::Coarse) {
            Ok((n_rows, n_cols, rows)) => {
                assert(rows@.len() > 0 ==> grid(rows@)[0] == rows@[0]@);
                if n_rows == 0 || n_cols == 0 {
                    return Err(Failure::Empty(i));
                }
                match render_fixed_cells(rows.as_slice(), n_cols, font) {
                    Ok(canvas) => Ok((Product::Picture(canvas), false)),
                    Err(e) => Err(Failure::Render(i, e)),
                }
            },
            Err(_) => Err(Failure::Text(i)),
        },
        Mode::Fitted { font, grid: g, .. } => match parse_dump_to_colored(bytes, Ramp::Fine) {
            Ok((n_rows, _, rows)) => {
                if n_rows == 0 {
                    return Err(Failure::Empty(i));
                }
                assert(0 <= g.n_cols * g.char_w <= 0xffff_ffff * 0xffff_ffff && 0 <= g.n_rows
                    * g.char_h <= 0xffff_ffff * 0xffff_ffff) by (nonlinear_arith)
                    requires
                        0 <= g.n_cols <= 0xffff_ffff,
                        0 <= g.char_w <= 0xffff_ffff,
                        0 <= g.n_rows <= 0xffff_ffff,
                        0 <= g.char_h <= 0xffff_ffff,
                ;
                let w: u64 = g.n_cols as u64 * g.char_w as u64;
                let h: u64 = g.n_rows as u64 * g.char_h as u64;
                if w > u32::MAX as u64 || h > u32::MAX as u64 {
                    return Err(Failure::Render(i, RenderError::TooLarge));
                }
                let drawn = render_colored_ascii(
                    rows.as_slice(),
                    font,
                    w as u32,
                    h as u32,
                    g.char_w,
                    g.char_h,
                    g.font_size,
                );
                match drawn {
                    Ok(canvas) => Ok((Product::Picture(canvas), false)),
                    Err(e) => Err(Failure::Render(i, e)),
                }
            },
            Err(_) => Err(Failure::Text(i)),
        },
    }
}

/// Where a conversion starts.
pub open spec fn start(job: Job) -> Position {
    Position {
        phase: Phase::Extract,
        index: 0,
        delays: Seq::empty(),
        frames: Seq::empty(),
        texts: Seq::empty(),
        images: Seq::empty(),
        columns: match job.mode {
            Mode::Plain { columns } => columns,
            Mode::Columns { columns, .. } => columns,
            Mode::Fitted { grid, .. } => grid.n_cols,
        },
        rows: match job.mode {
            Mode::Fitted { grid, .. } => grid.n_rows,
            _ => 0,
        },
        product: Made::Nothing,
        interrupted: false,
    }
}

/// The position at which work on a frame begins, or on what follows the last one.
pub open spec fn at_frame(mode: Mode, at: Position, index: int) -> Position {
    if index < at.frames.len() {
        let phase = if mode is Fitted {
            Phase::Resize
        } else {
            Phase::Measure
        };
        Position { phase, index, ..at }
    } else {
        let phase = if mode is Plain {
            Phase::ListTexts
        } else {
            Phase::ListImages
        };
        Position { phase, index: 0, ..at }
    }
}

/// The position at which a text is drawn, or at what follows the last one.
pub open spec fn at_text(at: Position, index: int) -> Position {
    if index < at.texts.len() {
        Position { phase: Phase::Label, index, ..at }
    } else {
        Position { phase: Phase::ListImages, index: 0, ..at }
    }
}

/// The failure, if a program did not succeed.
pub open spec fn unless(ok: bool, failure: Failure) -> Option<Failure> {
    if ok {
        None
    } else {
        Some(failure)
    }
}

/// Why a conversion ends with a reply.
pub open spec fn failure(job: Job, at: Position, heard: Heard) -> Option<Failure> {
    let i = at.index as usize;
    match (at.phase, heard) {
        (Phase::Extract, Heard::Exit(ok)) => unless(ok, Failure::Extract),
        (Phase::Delays, Heard::Output(ok, bytes)) => {
            let ds = delays(lossy(bytes));
            if !ok {
                Some(Failure::DelayReport)
            } else if ds.len() == 0 {
                Some(Failure::NoFrames)
            } else if ds.len() > u32::MAX || total(ds) > u32::MAX {
                Some(Failure::DelaySum)
            } else {
                None
            }
        },
        (Phase::ListFrames, Heard::Names(_)) => None,
        (Phase::Measure, Heard::Output(_, bytes)) => match dimensions(lossy(bytes)) {
            Err(e) => Some(Failure::Size(i, e)),
            Ok(_) => None,
        },
        (Phase::Resize, Heard::Exit(ok)) => unless(ok, Failure::Resize(i)),
        (Phase::Dump, Heard::Exit(ok)) => unless(ok, Failure::Dump(i)),
        (Phase::Read, Heard::Bytes(bytes)) => spoilt(job.mode, at.index, bytes),
        (Phase::Save, Heard::Finished) => unless(!at.interrupted, Failure::Text(i)),
        (Phase::DropResized, Heard::Finished) => None,
        (Phase::DropDump, Heard::Finished) => None,
        (Phase::ListTexts, Heard::Names(_)) => None,
        (Phase::Label, Heard::Exit(ok)) => unless(ok, Failure::Label(i)),
        (Phase::ListImages, Heard::Names(_)) => None,
        (Phase::Assemble, Heard::Exit(ok)) => unless(ok, Failure::Assemble),
        (Phase::CleanUp, Heard::Finished) => None,
        _ => Some(Failure::Unexpected),
    }
}

/// A reply that is no failure leads from one position to the next.
pub open spec fn leads(job: Job, at: Position, heard: Heard, next: Position) -> bool {
    match (at.phase, heard) {
        (Phase::Extract, Heard::Exit(_)) => next == (Position { phase: Phase::Delays, ..at }),
        (Phase::Delays, Heard::Output(_, bytes)) => next == (Position {
            phase: Phase::ListFrames,
            delays: delays(lossy(bytes)),
            ..at
        }),
        (Phase::ListFrames, Heard::Names(names)) => {
            &&& selected(next.frames, names, Kind::Png)
            &&& next == at_frame(job.mode, Position { frames: next.frames, ..at }, 0)
        },
        (Phase::Measure, Heard::Output(_, bytes)) => next == (Position {
            phase: Phase::Resize,
            rows: rows_for(
                dimensions(lossy(bytes))->Ok_0.0,
                dimensions(lossy(bytes))->Ok_0.1,
                at.columns,
            ) as u32,
            ..at
        }),
        (Phase::Resize, Heard::Exit(_)) => next == (Position { phase: Phase::Dump, ..at }),
        (Phase::Dump, Heard::Exit(_)) => next == (Position { phase: Phase::Read, ..at }),
        (Phase::Read, Heard::Bytes(bytes)) => next == (Position {
            phase: Phase::Save,
            product: made(job.mode, bytes),
            interrupted: cut_short(job.mode, bytes),
            ..at
        }),
        (Phase::Save, Heard::Finished) => next == (Position {
            phase: Phase::DropResized,
            product: Made::Nothing,
            ..at
        }),
        (Phase::DropResized, Heard::Finished) => next == (Position {
            phase: Phase::DropDump,
            ..at
        }),
        (Phase::DropDump, Heard::Finished) => next == at_frame(job.mode, at, at.index + 1),
        (Phase::ListTexts, Heard::Names(names)) => {
            &&& selected(next.texts, names, Kind::Art)
            &&& next == at_text(Position { texts: next.texts, ..at }, 0)
        },
        (Phase::Label, Heard::Exit(_)) => next == at_text(at, at.index + 1),
        (Phase::ListImages, Heard::Names(names)) => {
            &&& selected(next.images, names, Kind::Png)
            &&& next == (Position { phase: Phase::Assemble, images: next.images, ..at })
        },
        (Phase::Assemble, Heard::Exit(_)) => next == (Position {
            phase: if job.keep {
                Phase::Done
            } else {
                Phase::CleanUp
            },
            ..at
        }),
        (Phase::CleanUp, Heard::Finished) => next == (Position { phase: Phase::Done, ..at }),
        _ => false,
    }
}

/// Makes the path of a file that is named after a frame.
fn path_after(dir: &str, frame: &str, ending: &str) -> (r: String)
    requires
        is_png(frame@),
    ensures
        r@ == path(dir@, stem(frame@) + ending@),
{
    let mut name = file_stem(frame);
    name.append(ending);
    path_in(dir, name.as_str())
}

impl Progress {
    /// Starts a conversion.
    pub fn begin(job: &Job) -> (r: Progress)
        ensures
            r@ == start(*job),
    {
        let (columns, rows) = match &job.mode {
            Mode::Plain { columns } => (*columns, 0),
            Mode::Columns { columns, .. } => (*columns, 0),
            Mode::Fitted { grid, .. } => (grid.n_cols, grid.n_rows),
        };
        let r = Progress {
            phase: Phase::Extract,
            index: 0,
            delays: Vec::new(),
            avg_delay: 0,
            frames: Vec::new(),
            texts: Vec::new(),
            images: Vec::new(),
            columns,
            rows,
            product: Product::Nothing,
            interrupted: false,
        };
        assert(texts(Seq::<String>::empty()) == Seq::<Seq<char>>::empty());
        r
    }

    /// Says what is to be done next.
    pub fn action(&self, job: &Job) -> (r: Action)
        ensures
            r@ == wanted(*job, self@),
    {
        proof {
            use_type_invariant(self);
            if of_frame(self.phase) {
                assert(self@.frames[self.index as int] == self.frames[self.index as int]@);
            }
        }
        let (frame_dir, art_dir) = (job.frame_dir.as_str(), job.art_dir.as_str());
        match self.phase {
            Phase::Extract => Action::Run {
                program: "ffmpeg".to_owned(),
                args: extract_args(job.input.as_str(), frame_dir),
            },
            Phase::Delays => Action::Query {
                program: "magick".to_owned(),
                args: delay_args(job.input.as_str()),
            },
            Phase::ListFrames => Action::List { dir: job.frame_dir.clone() },
            Phase::Measure => {
                let picture = path_in(frame_dir, self.frames[self.index].as_str());
                Action::Query { program: "magick".to_owned(), args: size_args(picture.as_str()) }
            },
            Phase::Resize => {
                let frame = self.frames[self.index].as_str();
                let picture = path_in(frame_dir, frame);
                let resized = path_after(frame_dir, frame, "-resized.png");
                let sharp = match &job.mode {
                    Mode::Fitted { .. } => true,
                    _ => false,
                };
                Action::Run {
                    program: "magick".to_owned(),
                    args: resize_args(
                        picture.as_str(),
                        self.columns,
                        self.rows,
                        sharp,
                        resized.as_str(),
                    ),
                }
            },
            Phase::Dump => {
                let frame = self.frames[self.index].as_str();
                let resized = path_after(frame_dir, frame, "-resized.png");
                let dump = path_after(frame_dir, frame, ".txt");
                Action::Run {
                    program: "magick".to_owned(),
                    args: dump_args(resized.as_str(), dump.as_str()),
                }
            },
            Phase::Read => Action::Read {
                path: path_after(frame_dir, self.frames[self.index].as_str(), ".txt"),
            },
            Phase::Save => {
                let frame = self.frames[self.index].as_str();
                Action::Save {
                    path: match &job.mode {
                        Mode::Plain { .. } => path_after(frame_dir, frame, ".ascii.txt"),
                        _ => path_after(art_dir, frame, ".png"),
                    },
                }
            },
            Phase::DropResized => Action::Remove {
                path: path_after(frame_dir, self.frames[self.index].as_str(), "-resized.png"),
            },
            Phase::DropDump => Action::Remove {
                path: path_after(frame_dir, self.frames[self.index].as_str(), ".txt"),
            },
            Phase::ListTexts => Action::List { dir: job.frame_dir.clone() },
            Phase::Label => {
                assert(self@.texts[self.index as int] == self.texts[self.index as int]@);
                let text = path_in(frame_dir, self.texts[self.index].as_str());
                let mut name = art_base(self.texts[self.index].as_str());
                name.append(".png");
                let picture = path_in(art_dir, name.as_str());
                Action::Run {
                    program: "magick".to_owned(),
                    args: label_args(text.as_str(), picture.as_str()),
                }
            },
            Phase::ListImages => Action::List { dir: job.art_dir.clone() },
            Phase::Assemble => {
                let size = match &job.mode {
                    Mode::Fitted { orig_w, orig_h, .. } => Some((*orig_w, *orig_h)),
                    _ => None,
                };
                Action::Run {
                    program: "magick".to_owned(),
                    args: assemble_args(
                        art_dir,
                        self.images.as_slice(),
                        self.delays.as_slice(),
                        self.avg_delay,
                        size,
                        job.output.as_str(),
                    ),
                }
            },
            Phase::CleanUp => Action::RemoveAll { path: job.working.clone() },
            Phase::Done => Action::Stop,
        }
    }
}

impl Progress {
    /// Goes on to another stage.
    fn to_phase(self, phase: Phase) -> (r: Progress)
        requires
            self@.phase != Phase::Delays,
            phase == Phase::Delays || self@.phase != Phase::Extract,
            of_frame(phase) ==> of_frame(self@.phase),
            phase != Phase::Label,
        ensures
            r@ == (Position { phase, ..self@ }),
    {
        proof {
            use_type_invariant(&self);
            assert(self@.frames == texts(self.frames@));
        }
        Progress { phase, ..self }
    }

    /// Begins work on a frame, or on what follows the last one.
    fn to_frame(self, mode: &Mode, index: usize) -> (r: Progress)
        requires
            self@.phase == Phase::ListFrames || self@.phase == Phase::DropDump,
            index <= self@.frames.len(),
        ensures
            r@ == at_frame(*mode, self@, index as int),
    {
        proof {
            use_type_invariant(&self);
        }
        if index < self.frames.len() {
            let phase = match mode {
                Mode::Fitted { .. } => Phase::Resize,
                _ => Phase::Measure,
            };
            Progress { phase, index, ..self }
        } else {
            let phase = match mode {
                Mode::Plain { .. } => Phase::ListTexts,
                _ => Phase::ListImages,
            };
            Progress { phase, index: 0, ..self }
        }
    }

    /// Begins work on a text, or on what follows the last one.
    fn to_text(self, index: usize) -> (r: Progress)
        requires
            self@.phase == Phase::ListTexts || self@.phase == Phase::Label,
            index <= self@.texts.len(),
        ensures
            r@ == at_text(self@, index as int),
    {
        proof {
            use_type_invariant(&self);
        }
        if index < self.texts.len() {
            Progress { phase: Phase::Label, index, ..self }
        } else {
            Progress { phase: Phase::ListImages, index: 0, ..self }
        }
    }

    /// Moves on after an action, given what came of it, or says why the conversion ends.
    pub fn advance(self, job: &Job, reply: Reply) -> (r: Result<Progress, Failure>)
        ensures
            match r {
                Ok(next) => failure(*job, self@, reply@) is None && leads(
                    *job,
                    self@,
                    reply@,
                    next@,
                ),
                Err(f) => failure(*job, self@, reply@) == Some(f),
            },
    {
        proof {
            use_type_invariant(&self);
            assert(self@.frames == texts(self.frames@));
            assert(of_frame(self.phase) ==> self.index < self.frames.len());
            assert(self.phase == Phase::Label ==> self.index < self.texts.len());
        }
        let i: usize = self.index;
        match (self.phase, reply) {
            (Phase::Extract, Reply::Exit(ok)) => if ok {
                Ok(self.to_phase(Phase::Delays))
            } else {
                Err(Failure::Extract)
            },
            (Phase::Delays, Reply::Output(ok, bytes)) => {
                if !ok {
                    return Err(Failure::DelayReport);
                }
                match get_frame_delays(bytes.as_slice()) {
                    Err(_) => Err(Failure::NoFrames),
                    Ok(ds) => match average_delay(ds.as_slice()) {
                        None => Err(Failure::DelaySum),
                        Some(avg_delay) => Ok(
                            Progress { phase: Phase::ListFrames, delays: ds, avg_delay, ..self },
                        ),
                    },
                }
            },
            (Phase::ListFrames, Reply::Names(names)) => {
                let frames = select_pngs(names.as_slice());
                proof {
                    lemma_selected_kind(texts(frames@), texts(names@), Kind::Png);
                }
                Ok(Progress { frames, ..self }.to_frame(&job.mode, 0))
            },
            (Phase::Measure, Reply::Output(_, bytes)) => match image_dimensions(
                bytes.as_slice(),
            ) {
                Err(e) => Err(Failure::Size(i, e)),
                Ok((w, h)) => {
                    let rows = frame_height(w, h, self.columns);
                    Ok(Progress { phase: Phase::Resize, rows, ..self })
                },
            },
            (Phase::Resize, Reply::Exit(ok)) => if ok {
                Ok(self.to_phase(Phase::Dump))
            } else {
                Err(Failure::Resize(i))
            },
            (Phase::Dump, Reply::Exit(ok)) => if ok {
                Ok(self.to_phase(Phase::Read))
            } else {
                Err(Failure::Dump(i))
            },
            (Phase::Read, Reply::Bytes(bytes)) => match make(&job.mode, i, bytes.as_slice()) {
                Err(f) => Err(f),
                Ok((product, interrupted)) => Ok(
                    Progress { phase: Phase::Save, product, interrupted, ..self },
                ),
            },
            (Phase::Save, Reply::Finished) => if self.interrupted {
                Err(Failure::Text(i))
            } else {
                Ok(Progress { phase: Phase::DropResized, product: Product::Nothing, ..self })
            },
            (Phase::DropResized, Reply::Finished) => Ok(
                self.to_phase(Phase::DropDump),
            ),
            (Phase::DropDump, Reply::Finished) => Ok(self.to_frame(&job.mode, i + 1)),
            (Phase::ListTexts, Reply::Names(names)) => {
                let found = select_art(names.as_slice());
                Ok(Progress { texts: found, ..self }.to_text(0))
            },
            (Phase::Label, Reply::Exit(ok)) => if ok {
                Ok(self.to_text(i + 1))
            } else {
                Err(Failure::Label(i))
            },
            (Phase::ListImages, Reply::Names(names)) => {
                let images = select_pngs(names.as_slice());
                Ok(Progress { phase: Phase::Assemble, images, ..self })
            },
            (Phase::Assemble, Reply::Exit(ok)) => if ok {
                let phase = if job.keep {
                    Phase::Done
                } else {
                    Phase::CleanUp
                };
                Ok(self.to_phase(phase))
            } else {
                Err(Failure::Assemble)
            },
            (Phase::CleanUp, Reply::Finished) => Ok(self.to_phase(Phase::Done)),
            _ => Err(Failure::Unexpected),
        }
    }

    /// The stage that the conversion has come to.
    pub fn phase(&self) -> (r: Phase)
        ensures
            r == self@.phase,
    {
        self.phase
    }

    /// The number of the frame, or of the text, that is being worked on.
    pub fn index(&self) -> (r: usize)
        ensures
            r == self@.index,
    {
        self.index
    }

    /// The number of frames.
    pub fn frame_count(&self) -> (r: usize)
        ensures
            r == self@.frames.len(),
    {
        self.frames.len()
    }

    /// The number of pictures that go into the animation.
    pub fn image_count(&self) -> (r: usize)
        ensures
            r == self@.images.len(),
    {
        self.images.len()
    }

    /// The delays of the frames.
    pub fn delays(&self) -> (r: &[u32])
        ensures
            r@ == self@.delays,
    {
        self.delays.as_slice()
    }

    /// What the frame has been made into.
    pub fn product(&self) -> (r: &Product)
        ensures
            r@ == self@.product,
    {
        &self.product
    }
}

} // verus!
