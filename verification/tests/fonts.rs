use gif_to_ascii::dump::ColoredChar;
use gif_to_ascii::grid::{choose_grid, compute_grid, Grid};
use gif_to_ascii::run::{Action, Failure, Job, Mode, Phase, Product, Progress, Reply};
use gif_to_ascii::render::{
    list_stamps, render_colored_ascii, render_fixed_cells, RenderError, Stamp,
};
use gif_to_ascii::typeface::{measure_font_cell, round_cell, FontError, Typeface};

fn u16s(out: &mut Vec<u8>, values: &[u16]) {
    for v in values {
        out.extend_from_slice(&v.to_be_bytes());
    }
}

fn i16s(out: &mut Vec<u8>, values: &[i16]) {
    for v in values {
        out.extend_from_slice(&v.to_be_bytes());
    }
}

/// The outline of a glyph, given by its points and whether each lies on the outline.
fn shape(points: &[(i16, i16, bool)]) -> Vec<u8> {
    let xs: Vec<i16> = points.iter().map(|p| p.0).collect();
    let ys: Vec<i16> = points.iter().map(|p| p.1).collect();
    let (left, right) = (xs.iter().min().unwrap(), xs.iter().max().unwrap());
    let (bottom, top) = (ys.iter().min().unwrap(), ys.iter().max().unwrap());
    let mut out: Vec<u8> = Vec::new();
    i16s(&mut out, &[1, *left, *bottom, *right, *top]);
    u16s(&mut out, &[points.len() as u16 - 1, 0]);
    for p in points {
        out.push(p.2 as u8);
    }
    for values in [xs, ys] {
        let mut last = 0;
        for v in values {
            i16s(&mut out, &[v - last]);
            last = v;
        }
    }
    if out.len() % 2 != 0 {
        out.push(0);
    }
    out
}

/// A glyph that shows glyph 2 at half its size.
fn half() -> Vec<u8> {
    let mut out: Vec<u8> = Vec::new();
    i16s(&mut out, &[-1, 0, 0, 0, 0]);
    u16s(&mut out, &[0xb, 2, 0, 0, 0x2000]);
    out
}

/// A font in which every printable character is a box that fills its cell.
fn font_data(ascender: i16, descender: i16, advance: u16) -> Vec<u8> {
    let corners = [(0, -256, true), (512, -256, true), (512, 768, true), (0, 768, true)];
    font_file(ascender, descender, advance, &[shape(&corners)])
}

/// A font in which every printable character has the first of the glyphs, numbered from 1.
fn font_file(ascender: i16, descender: i16, advance: u16, glyphs: &[Vec<u8>]) -> Vec<u8> {
    let mut cmap: Vec<u8> = Vec::new();
    u16s(&mut cmap, &[0, 1, 0, 3, 0, 12, 0, 262, 0]);
    for code in 0..256u32 {
        cmap.push(if (0x21..0x7f).contains(&code) { 1 } else { 0 });
    }
    let mut glyf: Vec<u8> = Vec::new();
    let mut loca: Vec<u8> = Vec::new();
    u16s(&mut loca, &[0, 0]);
    for glyph in glyphs {
        glyf.extend_from_slice(glyph);
        u16s(&mut loca, &[glyf.len() as u16 / 2]);
    }
    let mut head: Vec<u8> = Vec::new();
    u16s(&mut head, &[1, 0, 1, 0, 0, 0, 0x5f0f, 0x3cf5, 0, 1024]);
    u16s(&mut head, &[0, 0, 0, 0, 0, 0, 0, 0]);
    i16s(&mut head, &[0, -256, 512, 768, 0, 8, 2, 0, 0]);
    let mut hhea: Vec<u8> = Vec::new();
    u16s(&mut hhea, &[1, 0]);
    i16s(&mut hhea, &[ascender, descender, 0]);
    u16s(&mut hhea, &[advance, 0, 0, 0, 1, 0, 0, 0, 0, 0, 0, 0, 2]);
    let mut hmtx: Vec<u8> = Vec::new();
    u16s(&mut hmtx, &[advance, 0, advance, 0, 0]);
    let mut maxp: Vec<u8> = Vec::new();
    u16s(&mut maxp, &[0, 0x5000, glyphs.len() as u16 + 1]);

    let tables: Vec<(&[u8; 4], Vec<u8>)> = vec![
        (b"cmap", cmap),
        (b"glyf", glyf),
        (b"head", head),
        (b"hhea", hhea),
        (b"hmtx", hmtx),
        (b"loca", loca),
        (b"maxp", maxp),
    ];
    let mut out: Vec<u8> = Vec::new();
    u16s(&mut out, &[1, 0, tables.len() as u16, 64, 2, 48]);
    let mut offset = 12 + 16 * tables.len();
    for (tag, data) in &tables {
        out.extend_from_slice(*tag);
        out.extend_from_slice(&0u32.to_be_bytes());
        out.extend_from_slice(&(offset as u32).to_be_bytes());
        out.extend_from_slice(&(data.len() as u32).to_be_bytes());
        offset += (data.len() + 3) / 4 * 4;
    }
    for (_, data) in &tables {
        out.extend_from_slice(data);
        while out.len() % 4 != 0 {
            out.push(0);
        }
    }
    out
}

fn boxes() -> Typeface {
    Typeface::try_from_vec(font_data(768, -256, 512)).ok().unwrap()
}

fn cell(ch: char, r: u8, g: u8, b: u8) -> ColoredChar {
    ColoredChar { ch, r, g, b }
}

#[test]
fn data_that_is_no_font_is_refused() {
    assert_eq!(Typeface::try_from_vec(vec![1, 2, 3]).err(), Some(FontError::Invalid));
    assert_eq!(Typeface::try_from_vec(Vec::new()).err(), Some(FontError::Invalid));
    assert!(Typeface::try_from_vec(font_data(768, -256, 512)).is_ok());
}

#[test]
fn the_height_of_a_font_is_from_descent_to_ascent() {
    assert_eq!(boxes().height(), 1024);
    assert_eq!(Typeface::try_from_vec(font_data(100, -20, 1)).ok().unwrap().height(), 120);
    assert_eq!(Typeface::try_from_vec(font_data(-30, 0, 1)).ok().unwrap().height(), -30);
}

#[test]
fn cells_are_measured_from_the_font() {
    let font = boxes();
    for (size, width) in [(8, 4), (9, 5), (10, 5), (11, 6), (12, 6), (13, 7), (16, 8), (255, 128)] {
        assert_eq!(measure_font_cell(&font, size), (width, size as u32));
    }
    let wide = Typeface::try_from_vec(font_data(768, -256, 700)).ok().unwrap();
    assert_eq!(measure_font_cell(&wide, 16), (11, 16));
    assert_eq!(measure_font_cell(&wide, 0), (1, 1));
}

#[test]
fn cells_of_odd_fonts() {
    let flat = Typeface::try_from_vec(font_data(0, 0, 512)).ok().unwrap();
    assert_eq!(measure_font_cell(&flat, 8), (u32::MAX, 8));
    let nothing = Typeface::try_from_vec(font_data(0, 0, 0)).ok().unwrap();
    assert_eq!(measure_font_cell(&nothing, 8), (1, 8));
    let upside_down = Typeface::try_from_vec(font_data(-256, 768, 512)).ok().unwrap();
    assert_eq!(measure_font_cell(&upside_down, 8), (1, 8));
}

#[test]
fn cells_are_rounded_up() {
    assert_eq!(round_cell(7.2f32.to_bits(), 14), (8, 14));
    assert_eq!(round_cell(0.0f32.to_bits(), 0), (1, 1));
}

#[test]
fn the_grid_with_the_least_deviation_is_chosen() {
    let grid = compute_grid(&boxes(), 100, 100);
    let expected = Grid { n_cols: 20, n_rows: 10, char_w: 5, char_h: 10, font_size: 10 };
    assert_eq!(grid, expected);
}

#[test]
fn of_equal_deviations_the_first_is_chosen() {
    let grid = compute_grid(&boxes(), 720, 5040);
    assert_eq!((grid.font_size, grid.char_w, grid.char_h), (8, 4, 8));
    assert_eq!((grid.n_cols, grid.n_rows), (180, 630));
}

#[test]
fn a_tiny_picture_is_one_cell() {
    let grid = compute_grid(&boxes(), 1, 1);
    assert_eq!((grid.n_cols, grid.n_rows, grid.font_size), (1, 1, 8));
    let grid = compute_grid(&boxes(), 0, 0);
    assert_eq!((grid.n_cols, grid.n_rows, grid.font_size), (1, 1, 8));
}

#[test]
fn grids_of_given_cells() {
    let cells = [(7, 12), (6, 11), (5, 10)];
    let grid = choose_grid(&cells, 20, 61, 100);
    assert_eq!(grid, Grid { n_cols: 12, n_rows: 10, char_w: 5, char_h: 10, font_size: 22 });
    let huge = [(u32::MAX, u32::MAX)];
    assert_eq!(choose_grid(&huge, 8, 0, 0).n_cols, 1);
}

#[test]
fn grids_stay_within_the_picture() {
    let font = boxes();
    for (w, h) in [(33, 47), (640, 480), (1, 4000), (4000, 1), (u32::MAX, u32::MAX)] {
        let g = compute_grid(&font, w, h);
        assert!(g.char_h >= 8 && g.char_h <= 16);
        if w >= g.char_w {
            assert!(g.n_cols * g.char_w <= w && w - g.n_cols * g.char_w < g.char_w);
        }
        if h >= g.char_h {
            assert!(g.n_rows * g.char_h <= h && h - g.n_rows * g.char_h < g.char_h);
        }
    }
}

#[test]
fn blanks_are_not_stamped() {
    let rows = vec![
        vec![cell('a', 1, 2, 3), cell(' ', 4, 5, 6), cell('b', 7, 8, 9)],
        vec![cell(' ', 0, 0, 0)],
        vec![cell('c', 1, 1, 1)],
    ];
    assert_eq!(
        list_stamps(&rows, 7, 14).unwrap(),
        vec![
            Stamp { glyph: rows[0][0], x: 0, y: 0 },
            Stamp { glyph: rows[0][2], x: 14, y: 0 },
            Stamp { glyph: rows[2][0], x: 0, y: 28 },
        ]
    );
}

#[test]
fn characters_are_drawn_in_their_colours() {
    let rows = vec![vec![cell('M', 200, 100, 50), cell(' ', 9, 9, 9)]];
    let canvas = render_colored_ascii(&rows, &boxes(), 16, 16, 8, 16, 16).ok().unwrap();
    assert_eq!((canvas.width, canvas.height), (16, 16));
    assert_eq!(canvas.pixels.len(), 16 * 16 * 3);
    for y in 0..16 {
        for x in 0..16 {
            let at = (y * 16 + x) * 3;
            let expected: [u8; 3] = if x < 8 { [200, 100, 50] } else { [0, 0, 0] };
            assert_eq!(canvas.pixels[at..at + 3], expected, "{} {}", x, y);
        }
    }
}

#[test]
fn fixed_cells_are_seven_by_fourteen() {
    let rows = vec![
        vec![cell(' ', 0, 0, 0), cell('@', 255, 255, 255)],
        vec![cell('.', 10, 20, 30), cell(' ', 0, 0, 0)],
    ];
    let canvas = render_fixed_cells(&rows, 2, &boxes()).ok().unwrap();
    assert_eq!((canvas.width, canvas.height), (14, 28));
    for y in 0..28 {
        for x in 0..14 {
            let at = (y * 14 + x) * 3;
            let expected: [u8; 3] = if x >= 7 && x < 13 && y < 12 {
                [255, 255, 255]
            } else if x < 6 && y >= 14 && y < 26 {
                [10, 20, 30]
            } else {
                [0, 0, 0]
            };
            assert_eq!(canvas.pixels[at..at + 3], expected, "{} {}", x, y);
        }
    }
}

#[test]
fn characters_beyond_the_canvas_are_cut_off() {
    let rows = vec![vec![cell('M', 1, 2, 3), cell('M', 4, 5, 6)]];
    let canvas = render_colored_ascii(&rows, &boxes(), 9, 2, 8, 16, 16).ok().unwrap();
    assert_eq!(canvas.pixels[..27], canvas.pixels[27..]);
    assert_eq!(canvas.pixels[21..27], [1, 2, 3, 4, 5, 6]);
}

#[test]
fn a_grid_of_blanks_is_black() {
    let flat = Typeface::try_from_vec(font_data(0, 0, 512)).ok().unwrap();
    let rows = vec![vec![cell(' ', 1, 2, 3)]];
    let canvas = render_fixed_cells(&rows, 1, &flat).ok().unwrap();
    assert_eq!(canvas.pixels, vec![0; 7 * 14 * 3]);
    assert_eq!(render_fixed_cells(&[], 0, &flat).ok().unwrap().pixels, vec![]);
}

#[test]
fn blanks_do_not_matter() {
    let font = boxes();
    let first = vec![vec![cell('M', 9, 8, 7), cell(' ', 1, 2, 3), cell('x', 1, 1, 1)], vec![]];
    let mut second = first.clone();
    second[0][1] = cell(' ', 200, 100, 0);
    second[0].push(cell(' ', 5, 5, 5));
    second[1].push(cell(' ', 5, 5, 5));
    let (a, b) = (render_fixed_cells(&first, 3, &font), render_fixed_cells(&second, 3, &font));
    assert_eq!(a.ok().unwrap().pixels, b.ok().unwrap().pixels);
    let far = 1_500_000_000;
    for blanks in 0..3 {
        let rows = vec![vec![cell(' ', 0, 0, 0); blanks]];
        let canvas = render_colored_ascii(&rows, &font, 1, 1, far, 2_100_000_000, 8);
        assert_eq!(canvas.ok().unwrap().pixels, vec![0, 0, 0]);
    }
}

#[test]
fn fonts_without_height_draw_nothing() {
    let rows = vec![vec![cell('M', 1, 2, 3), cell('M', 1, 2, 3)]];
    for ascender in [0, 5, -5] {
        let flat = Typeface::try_from_vec(font_data(ascender, ascender, 512)).ok().unwrap();
        let canvas = render_fixed_cells(&rows, 2, &flat).ok().unwrap();
        assert_eq!(canvas.pixels, vec![0; 14 * 14 * 3]);
        let canvas = render_colored_ascii(&rows, &flat, 4, 4, 2, 2, 0).ok().unwrap();
        assert_eq!(canvas.pixels, vec![0; 48]);
    }
    let canvas = render_colored_ascii(&rows, &boxes(), 4, 4, 2, 2, 0).ok().unwrap();
    assert_eq!(canvas.pixels, vec![0; 48]);
}

/// A font one unit high. Its characters reach half a unit out of their box, to the left.
fn leaning(middle: bool) -> Typeface {
    let triangle = shape(&[(-1, 0, true), (20, 1, middle), (0, 40, true)]);
    Typeface::try_from_vec(font_file(1, 0, 1, &[half(), triangle])).ok().unwrap()
}

#[test]
fn outlines_may_leave_their_box_by_less_than_two_pixels() {
    let rows = vec![vec![cell('M', 1, 2, 3)]];
    for middle in [true, false] {
        let font = leaning(middle);
        assert!(font.can_draw(0, 'M') && font.can_draw(1, 'M') && font.can_draw(3, 'M'));
        assert!(!font.can_draw(4, 'M') && !font.can_draw(12, 'M') && !font.can_draw(255, 'M'));
        assert!(font.can_draw(255, ' '));
        assert!(render_colored_ascii(&rows, &font, 8, 8, 8, 8, 3).is_ok());
        assert_eq!(
            render_colored_ascii(&rows, &font, 8, 8, 8, 8, 12).err(),
            Some(RenderError::Font)
        );
        assert_eq!(render_fixed_cells(&rows, 1, &font).err(), Some(RenderError::Font));
    }
}

#[test]
fn slanted_lines_may_not_be_too_long() {
    let triangle = shape(&[(0, 0, true), (32000, 1000, true), (0, 32000, true)]);
    let font = Typeface::try_from_vec(font_file(80, 20, 1, &[triangle])).ok().unwrap();
    assert_eq!(font.height(), 60);
    assert!(font.can_draw(10, 'M') && !font.can_draw(11, 'M'));
    let bow = shape(&[(0, 0, true), (32000, 1000, false), (0, 32000, true)]);
    let font = Typeface::try_from_vec(font_file(60, 0, 1, &[bow])).ok().unwrap();
    assert!(font.can_draw(10, 'M') && !font.can_draw(11, 'M'));
}

#[test]
fn slanted_lines_far_from_the_left_edge_may_be_long() {
    let side = [(0, 0, true), (32000, 0, true), (30000, 32000, true), (0, 32000, true)];
    let font = Typeface::try_from_vec(font_file(60, 0, 1, &[shape(&side)])).ok().unwrap();
    assert!(font.can_draw(11, 'M') && font.can_draw(255, 'M'));
}

#[test]
fn upright_boxes_may_be_large() {
    let corners = [(0, 0, true), (5000, 0, true), (5000, 5000, true), (0, 5000, true)];
    let font = Typeface::try_from_vec(font_file(16, 0, 1, &[shape(&corners)])).ok().unwrap();
    assert!(font.can_draw(16, 'M') && font.can_draw(255, 'M'));
    let rows = vec![vec![cell('M', 1, 2, 3)]];
    let canvas = render_colored_ascii(&rows, &font, 4, 20, 8, 8, 16).ok().unwrap();
    assert_eq!(canvas.pixels[..4 * 16 * 3], [1, 2, 3].repeat(64));
    assert_eq!(canvas.pixels[4 * 16 * 3..], [0; 48]);
    let beam = [(0, 0, true), (32767, 0, true), (32767, 1, true), (0, 1, true)];
    let font = Typeface::try_from_vec(font_file(1, 0, 1, &[shape(&beam)])).ok().unwrap();
    assert!(font.can_draw(255, 'M'));
    let canvas = render_fixed_cells(&rows, 1, &font).ok().unwrap();
    assert_eq!(canvas.pixels[..7 * 12 * 3], [1, 2, 3].repeat(84));
}

#[test]
fn characters_may_be_larger_than_their_cells() {
    let low = Typeface::try_from_vec(font_data(10, 0, 512)).ok().unwrap();
    let rows = vec![vec![cell('M', 1, 2, 3)]];
    for size in [10, 11] {
        assert!(low.can_draw(size, 'M'));
        let canvas = render_colored_ascii(&rows, &low, 8, 8, 8, 8, size).ok().unwrap();
        assert_eq!(canvas.pixels, [1, 2, 3].repeat(64));
    }
    let lower = Typeface::try_from_vec(font_data(5, 0, 512)).ok().unwrap();
    let canvas = render_fixed_cells(&rows, 1, &lower).ok().unwrap();
    assert_eq!(canvas.pixels, [1, 2, 3].repeat(7 * 14));
}

#[test]
fn fonts_upside_down_draw_nothing() {
    let font = Typeface::try_from_vec(font_data(-256, 768, 512)).ok().unwrap();
    let rows = vec![vec![cell('M', 1, 2, 3)]];
    let canvas = render_fixed_cells(&rows, 1, &font).ok().unwrap();
    assert_eq!(canvas.pixels, vec![0; 7 * 14 * 3]);
}

#[test]
fn pictures_that_are_too_large() {
    let font = boxes();
    let rows = vec![vec![cell('M', 1, 2, 3), cell('M', 1, 2, 3)]];
    let render = |w: u32, h: u32, char_w: u32| {
        render_colored_ascii(&rows, &font, w, h, char_w, 8, 8).err()
    };
    assert_eq!(render(8, 8, u32::MAX), Some(RenderError::TooLarge));
    assert_eq!(render(8, 8, i32::MAX as u32 + 1), Some(RenderError::TooLarge));
    assert_eq!(render(8, 8, i32::MAX as u32 - 2), Some(RenderError::TooLarge));
    assert_eq!(render(8, 8, i32::MAX as u32 - 3), None);
    assert_eq!(render(u32::MAX, u32::MAX, 8), Some(RenderError::TooLarge));
    assert!(font.has_room(8, 'M', i32::MAX as u32 - 3, i32::MAX as u32 - 7));
    assert!(!font.has_room(8, 'M', 0, i32::MAX as u32 - 6));
    assert!(font.has_room(8, ' ', i32::MAX as u32, i32::MAX as u32));
    assert_eq!(
        render_fixed_cells(&rows, usize::MAX, &font).err(),
        Some(RenderError::TooLarge)
    );
    assert_eq!(list_stamps(&rows, u32::MAX, 1), None);
}

fn job(mode: Mode) -> Job {
    Job {
        mode,
        input: "in.gif".to_string(),
        output: "out.gif".to_string(),
        working: "w".to_string(),
        frame_dir: "w/f".to_string(),
        art_dir: "w/a".to_string(),
        keep: true,
    }
}

/// Goes on until a frame is to be read.
fn at_reading(job: &Job) -> Progress {
    let mut at = Progress::begin(job);
    while at.phase() != Phase::Read {
        let reply = match at.action(job) {
            Action::Run { .. } => Reply::Exit(true),
            Action::Query { args, .. } => {
                let text = if args[1] == "-ping" { "10 20" } else { "4" };
                Reply::Output(true, text.as_bytes().to_vec())
            }
            _ => Reply::Names(vec!["x.png".to_string()]),
        };
        at = at.advance(job, reply).ok().unwrap();
    }
    at
}

const WHITE: &[u8] = b"\n0,0: srgb(255,255,255)\n";

#[test]
fn coloured_frames_in_fixed_cells() {
    let job = job(Mode::Columns { columns: 80, font: boxes() });
    let at = at_reading(&job).advance(&job, Reply::Bytes(WHITE.to_vec())).ok().unwrap();
    match at.product() {
        Product::Picture(canvas) => {
            assert_eq!((canvas.width, canvas.height), (7, 14));
            assert_eq!(canvas.pixels.iter().filter(|&&v| v == 255).count(), 6 * 12 * 3);
        }
        _ => panic!("no picture"),
    }
    match at.action(&job) {
        Action::Save { path } => assert_eq!(path, "w/a/x.png"),
        _ => panic!("nothing is saved"),
    }
}

#[test]
fn coloured_frames_on_a_fitted_grid() {
    let font = boxes();
    let grid = compute_grid(&font, 16, 32);
    assert_eq!((grid.n_cols, grid.n_rows, grid.char_w, grid.char_h), (4, 4, 4, 8));
    let job = job(Mode::Fitted { font, grid, orig_w: 16, orig_h: 32 });
    let mut at = Progress::begin(&job);
    for reply in [
        Reply::Exit(true),
        Reply::Output(true, b"4\n".to_vec()),
        Reply::Names(vec!["x.png".to_string()]),
    ] {
        at = at.advance(&job, reply).ok().unwrap();
    }
    match at.action(&job) {
        Action::Run { args, .. } => assert_eq!(
            args.join(" "),
            "w/f/x.png -resize 4x4! -filter Lanczos -colorspace sRGB w/f/x-resized.png"
        ),
        _ => panic!("nothing is run"),
    }
    for reply in [Reply::Exit(true), Reply::Exit(true), Reply::Bytes(WHITE.to_vec())] {
        at = at.advance(&job, reply).ok().unwrap();
    }
    match at.product() {
        Product::Picture(canvas) => {
            assert_eq!((canvas.width, canvas.height), (16, 32));
            assert_eq!(canvas.pixels.iter().filter(|&&v| v == 255).count(), 4 * 8 * 3);
        }
        _ => panic!("no picture"),
    }
    for reply in [Reply::Finished, Reply::Finished, Reply::Finished] {
        at = at.advance(&job, reply).ok().unwrap();
    }
    at = at.advance(&job, Reply::Names(vec!["x.png".to_string()])).ok().unwrap();
    match at.action(&job) {
        Action::Run { args, .. } => assert_eq!(
            args.join(" "),
            "-loop 0 -delay 4 w/a/x.png -coalesce -resize 16x32! out.gif"
        ),
        _ => panic!("nothing is run"),
    }
    assert_eq!(at.advance(&job, Reply::Exit(true)).ok().unwrap().phase(), Phase::Done);
}

#[test]
fn coloured_frames_that_cannot_be_made() {
    let columns = job(Mode::Columns { columns: 80, font: leaning(true) });
    let failure = |bytes: &[u8]| {
        at_reading(&columns).advance(&columns, Reply::Bytes(bytes.to_vec())).err()
    };
    assert_eq!(failure(b"\n"), Some(Failure::Empty(0)));
    assert_eq!(failure(b"\n\xff"), Some(Failure::Text(0)));
    assert_eq!(failure(WHITE), Some(Failure::Render(0, RenderError::Font)));
    let grid = Grid { n_cols: u32::MAX, n_rows: 1, char_w: 2, char_h: 8, font_size: 8 };
    let fitted = job(Mode::Fitted { font: boxes(), grid, orig_w: 1, orig_h: 1 });
    let failure = |bytes: &[u8]| {
        at_reading(&fitted).advance(&fitted, Reply::Bytes(bytes.to_vec())).err()
    };
    assert_eq!(failure(b"\n"), Some(Failure::Empty(0)));
    assert_eq!(failure(WHITE), Some(Failure::Render(0, RenderError::TooLarge)));
}
