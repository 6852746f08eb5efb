use gif_to_ascii::dump::{
    convert_dump_to_ascii, parse_dump_to_colored, read_dump, ColoredChar, DumpError, Pixel, Ramp,
};

const HEADER: &str = "# ImageMagick pixel enumeration: 2,2,0,255,srgb\n";

fn dump(lines: &[&str]) -> Vec<u8> {
    let mut text = HEADER.to_string();
    for line in lines {
        text.push_str(line);
        text.push('\n');
    }
    text.into_bytes()
}

fn cell(ch: char, r: u8, g: u8, b: u8) -> ColoredChar {
    ColoredChar { ch, r, g, b }
}

#[test]
fn a_picture_of_two_rows() {
    let d = dump(&[
        "0,0: (255,255,255)  #FFFFFF  srgb(255,255,255)",
        "1,0: (0,0,0)  #000000  srgb(0,0,0)",
        "0,1: (255,0,0)  #FF0000  srgb(255,0,0)",
        "1,1: (128,128,128)  #808080  srgb(128,128,128)",
    ]);
    let (rows, cols, grid) = parse_dump_to_colored(&d, Ramp::Coarse).unwrap();
    assert_eq!((rows, cols), (2, 2));
    assert_eq!(grid[0], vec![cell('@', 255, 255, 255), cell(' ', 0, 0, 0)]);
    assert_eq!(grid[1], vec![cell('.', 255, 0, 0), cell('=', 128, 128, 128)]);
    assert_eq!(convert_dump_to_ascii(&d).ok().unwrap(), "@ \n.=\n");
}

#[test]
fn the_fine_ramp_is_used_where_asked_for() {
    let d = dump(&["0,0: srgb(255,255,255)"]);
    let (_, _, grid) = parse_dump_to_colored(&d, Ramp::Fine).unwrap();
    assert_eq!(grid[0], vec![cell('.', 255, 255, 255)]);
}

#[test]
fn colours_in_each_form() {
    let d = dump(&[
        "0,0: (1,2,3)\tsrgb(1,2,3)",
        "1,0: srgb(1,2,3)",
        "2,0: srgba(1,2,3,0.5)",
        "3,0: (1,2,3,0)  #010203  srgba(1.2,2.4,2.6,0)",
        "4,0: srgb(100%,0%,50%)",
        "5,0: (7,8,9)",
        "6,0: srgb(1,2,3) srgb(4,5,6)",
        "7,0: srgb(1, 2, 3)",
        "8,0: red (4,5,6)",
        "9,0: srgb(srgb(7,8,9))",
    ]);
    let ps = read_dump(&d, 10).unwrap();
    let colors: Vec<(u8, u8, u8)> = ps.iter().map(|p| (p.r, p.g, p.b)).collect();
    assert_eq!(
        colors,
        vec![(1, 2, 3), (1, 2, 3), (1, 2, 3), (1, 2, 3), (255, 0, 128), (1, 2, 3), (7, 8, 9)]
    );
}

#[test]
fn lines_that_are_no_pixels_are_passed_over() {
    let d = dump(&[
        "",
        "   ",
        "# a comment",
        "no colon",
        "0 0: srgb(1,2,3)",
        "0,x: srgb(1,2,3)",
        "0,-1: srgb(1,2,3)",
        "0,11: srgb(1,2,3)",
        "0,0: black",
        "0,0: srgb(1,2)",
        "0,0: srgb(1,x,3)",
        "0, +7 : srgb(1,2,3)",
    ]);
    assert_eq!(read_dump(&d, 10), Ok(vec![Pixel { y: 7, r: 1, g: 2, b: 3 }]));
}

#[test]
fn the_header_is_passed_over_whatever_it_holds() {
    let line = b"0,0: srgb(9,9,9)";
    let mut d: Vec<u8> = vec![0xff, 0xfe, b'0', b'\n'];
    d.extend_from_slice(line);
    assert_eq!(read_dump(&d, 9).unwrap().len(), 1);
    assert_eq!(read_dump(line, 9).unwrap().len(), 0);
    assert_eq!(read_dump(b"", 9).unwrap().len(), 0);
    assert_eq!(convert_dump_to_ascii(b"").ok().unwrap(), "\n");
    assert_eq!(parse_dump_to_colored(b"", Ramp::Fine).unwrap(), (0, 0, vec![]));
}

#[test]
fn text_that_is_not_utf8_is_refused() {
    let mut d = dump(&["0,0: srgb(9,9,9)"]);
    d.push(0xff);
    assert_eq!(read_dump(&d, 9), Err(DumpError::NotUtf8));
    assert_eq!(convert_dump_to_ascii(&d).err().unwrap().text, " ");
    assert_eq!(parse_dump_to_colored(&d, Ramp::Coarse), Err(DumpError::NotUtf8));
}

#[test]
fn text_beyond_ascii_is_read() {
    let d = dump(&["0\u{3000},\u{a0}1\u{2003}: \u{e9} srgb(9,9,9)\u{85}"]);
    assert_eq!(read_dump(&d, 9), Ok(vec![Pixel { y: 1, r: 9, g: 9, b: 9 }]));
}

#[test]
fn line_ends_of_either_kind() {
    let d = b"header\r\n0,0: srgb(255,255,255)\r\n0,1: srgb(255,255,255)\r\n";
    assert_eq!(convert_dump_to_ascii(d).ok().unwrap(), "@\n@\n");
}

#[test]
fn a_row_is_a_run_of_equal_numbers() {
    let d = dump(&[
        "0,5: srgb(255,255,255)",
        "1,5: srgb(255,255,255)",
        "0,2: srgb(255,255,255)",
        "0,5: srgb(255,255,255)",
    ]);
    let (rows, cols, grid) = parse_dump_to_colored(&d, Ramp::Coarse).unwrap();
    assert_eq!((rows, cols), (3, 2));
    assert_eq!(grid.iter().map(|r| r.len()).collect::<Vec<_>>(), vec![2, 1, 1]);
    assert_eq!(convert_dump_to_ascii(&d).ok().unwrap(), "@@\n@\n@\n");
}

#[test]
fn rows_of_text_end_at_32_bits() {
    let d = dump(&["0,4294967296: srgb(255,255,255)", "0,4294967295: srgb(255,255,255)"]);
    assert_eq!(convert_dump_to_ascii(&d).ok().unwrap(), "@\n");
    let (rows, _, _) = parse_dump_to_colored(&d, Ramp::Coarse).unwrap();
    assert_eq!(rows, if usize::BITS == 64 { 2 } else { 1 });
}

#[test]
fn the_text_is_the_rows_of_the_grid() {
    let mut lines: Vec<String> = Vec::new();
    for y in 0..12u32 {
        for x in 0..17u32 {
            let (r, g, b) = (x * 15, y * 21, (x * y) % 256);
            lines.push(format!("{},{}: ({},{},{})  srgb({},{},{})", x, y, r, g, b, r, g, b));
        }
    }
    let lines: Vec<&str> = lines.iter().map(|l| l.as_str()).collect();
    let d = dump(&lines);
    let (rows, cols, grid) = parse_dump_to_colored(&d, Ramp::Coarse).unwrap();
    assert_eq!((rows, cols), (12, 17));
    let mut text = String::new();
    for row in &grid {
        for c in row {
            text.push(c.ch);
        }
        text.push('\n');
    }
    assert_eq!(convert_dump_to_ascii(&d).ok().unwrap(), text);
    for (y, row) in grid.iter().enumerate() {
        for (x, c) in row.iter().enumerate() {
            let (x, y) = (x as u32, y as u32);
            assert_eq!((c.r as u32, c.g as u32, c.b as u32), (x * 15, y * 21, (x * y) % 256));
        }
    }
}

#[test]
fn the_text_before_an_unreadable_line_is_handed_back() {
    let text = |d: &[u8]| convert_dump_to_ascii(d).err().unwrap().text;
    let mut d = dump(&["0,0: srgb(255,255,255)", "1,0: srgb(255,255,255)", "0,1: srgb(0,0,0)"]);
    d.extend_from_slice(b"1,1: srgb(255,255,255) \xff\n0,2: srgb(255,255,255)\n");
    assert_eq!(text(&d), "@@\n ");
    assert_eq!(text(b"h\n\xff\n0,0: srgb(255,255,255)\n"), "");
    assert_eq!(text(b"h\n0,0: srgb(255,255,255)\n\n0,0: \xe2\x82"), "@");
    assert_eq!(text(b"h\n0,0: srgb(255,255,255) \xe2\x82\xac\n\x80"), "@");
}
