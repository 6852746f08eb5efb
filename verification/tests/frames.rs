use gif_to_ascii::commands::{
    assemble_args, delay_args, dump_args, extract_args, frame_size_args, geometry, label_args,
    path_in, resize_args, size_args,
};
use gif_to_ascii::frames::{average_delay, delay_for, frame_height, reports_progress};
use gif_to_ascii::names::{art_base, art_name, file_stem, png_name, select_art, select_pngs};
use gif_to_ascii::probe::{
    first_image_dimensions, get_frame_delays, image_dimensions, read_delays, read_first_size,
    read_size, DelayError, SizeError,
};

fn strings(v: &[&str]) -> Vec<String> {
    v.iter().map(|s| s.to_string()).collect()
}

#[test]
fn delays_are_read_line_by_line() {
    assert_eq!(read_delays("10\n20\n 30 \r\n\nx\n-1\n4294967296\n+5\n"), Ok(vec![10, 20, 30, 5]));
    assert_eq!(read_delays("7"), Ok(vec![7]));
    assert_eq!(read_delays(""), Err(DelayError::NoFrames));
    assert_eq!(read_delays("none\n1 2\n"), Err(DelayError::NoFrames));
}

#[test]
fn reported_delays_are_read_back() {
    let delays: Vec<u32> = vec![0, 1, 9, 10, 4294967295, 100];
    let report: String = delays.iter().map(|d| format!("{}\n", d)).collect();
    assert_eq!(read_delays(&report), Ok(delays));
}

#[test]
fn sizes_are_the_first_two_words() {
    assert_eq!(read_size("640 480"), Ok((640, 480)));
    assert_eq!(read_size("  640\n480 x\n"), Ok((640, 480)));
    assert_eq!(read_size(" "), Err(SizeError::MissingWidth));
    assert_eq!(read_size("a"), Err(SizeError::InvalidWidth));
    assert_eq!(read_size("4294967296 1"), Err(SizeError::InvalidWidth));
    assert_eq!(read_size("5"), Err(SizeError::MissingHeight));
    assert_eq!(read_size("5 -5"), Err(SizeError::InvalidHeight));
}

#[test]
fn the_size_of_the_first_image_is_on_the_first_line() {
    assert_eq!(read_first_size("640 480\n1 2\n"), Ok((640, 480)));
    assert_eq!(read_first_size("640\n480\n"), Err(SizeError::MissingHeight));
    assert_eq!(read_first_size("\n640 480\n"), Err(SizeError::MissingWidth));
    assert_eq!(read_first_size(""), Err(SizeError::MissingWidth));
}

#[test]
fn the_average_is_rounded_down() {
    assert_eq!(average_delay(&[10, 20, 31]), Some(20));
    assert_eq!(average_delay(&[0]), Some(0));
    assert_eq!(average_delay(&[]), None);
    assert_eq!(average_delay(&[u32::MAX]), Some(u32::MAX));
    assert_eq!(average_delay(&[u32::MAX, 1]), None);
}

#[test]
fn frames_beyond_the_delays_use_the_average() {
    let delays = [10, 20, 31];
    assert_eq!(delay_for(&delays, 1, 20), 20);
    assert_eq!(delay_for(&delays, 2, 20), 31);
    assert_eq!(delay_for(&delays, 3, 20), 20);
    assert_eq!(delay_for(&delays, 300, 20), 20);
}

#[test]
fn heights_keep_the_shape() {
    assert_eq!(frame_height(100, 100, 80), 40);
    assert_eq!(frame_height(640, 480, 80), 30);
    assert_eq!(frame_height(1000, 1, 80), 1);
    assert_eq!(frame_height(100, 0, 80), 1);
    assert_eq!(frame_height(3, 1, 0), 1);
    assert_eq!(frame_height(0, 0, 80), 1);
    assert_eq!(frame_height(0, 5, 0), 1);
    assert_eq!(frame_height(0, 5, 80), u32::MAX);
    assert_eq!(frame_height(1, u32::MAX, u32::MAX), u32::MAX);
}

#[test]
fn heights_agree_with_double_precision() {
    for w in 0..60u32 {
        for h in 0..60u32 {
            for columns in [0, 1, 7, 80, 121, 4000000000] {
                let exact = ((h as f64 / w as f64) * columns as f64 * 0.5).round().max(1.0) as u32;
                assert_eq!(frame_height(w, h, columns), exact, "{} {} {}", w, h, columns);
            }
        }
    }
}

#[test]
fn progress_is_reported_every_five_frames_and_at_the_end() {
    let reported: Vec<usize> = (0..12).filter(|&i| reports_progress(i, 12)).collect();
    assert_eq!(reported, vec![4, 9, 11]);
}

#[test]
fn pictures_are_told_by_their_names() {
    for name in ["a.png", "..png", "frame0001.png", "a.b.png", "\u{e9}.png"] {
        assert!(png_name(name), "{}", name);
    }
    for name in [".png", "png", "a.PNG", "a.png.txt", "", "apng"] {
        assert!(!png_name(name), "{}", name);
    }
    assert_eq!(file_stem("frame0001.png"), "frame0001");
    assert_eq!(file_stem("a.b.png"), "a.b");
}

#[test]
fn texts_are_told_by_their_names() {
    assert!(art_name("frame0001.ascii.txt"));
    assert!(art_name(".ascii.txt"));
    assert!(!art_name("frame0001.txt"));
    assert_eq!(art_base("frame0001.ascii.txt"), "frame0001");
    assert_eq!(art_base("a.ascii.txt.ascii.txtb.ascii.tx"), "ab.ascii.tx");
    assert_eq!(art_base(""), "");
}

#[test]
fn files_are_selected_in_order() {
    let names = strings(&["b.png", "a.txt", "frame0010.png", "a.png", "frame0002.png", "b.png", "B.png"]);
    assert_eq!(
        select_pngs(&names),
        strings(&["B.png", "a.png", "b.png", "b.png", "frame0002.png", "frame0010.png"])
    );
    let texts = strings(&["2.ascii.txt", "10.ascii.txt", "1.txt", "1.ascii.txt"]);
    assert_eq!(select_art(&texts), strings(&["1.ascii.txt", "10.ascii.txt", "2.ascii.txt"]));
    assert_eq!(select_pngs(&[]), strings(&[]));
}

#[test]
fn the_order_is_that_of_the_bytes() {
    let mut names = strings(&["\u{ffff}.png", "\u{10000}.png", "a.png", "\u{e9}.png", "aa.png", "z.png"]);
    let selected = select_pngs(&names);
    names.sort();
    assert_eq!(selected, names);
}

#[test]
fn the_order_of_the_listing_does_not_matter() {
    let mut names: Vec<String> = (1..200).map(|i| format!("frame{:04}.png", i * 37 % 200)).collect();
    let selected = select_pngs(&names);
    names.reverse();
    assert_eq!(select_pngs(&names), selected);
    let ordered: Vec<String> = (1..200).map(|i| format!("frame{:04}.png", i)).collect();
    assert_eq!(selected, ordered);
}

#[test]
fn arguments_of_the_programs() {
    assert_eq!(path_in("a/b", "c"), "a/b/c");
    assert_eq!(geometry(80, 4294967295), "80x4294967295!");
    assert_eq!(geometry(0, 105), "0x105!");
    assert_eq!(extract_args("x.gif", "w/f"), strings(&["-i", "x.gif", "w/f/frame%04d.png"]));
    assert_eq!(delay_args("x.gif"), strings(&["identify", "-format", "%T\n", "x.gif"]));
    assert_eq!(size_args("p"), strings(&["identify", "-ping", "-format", "%w %h", "p"]));
    assert_eq!(frame_size_args("p"), strings(&["identify", "-ping", "-format", "%w %h\n", "p"]));
    assert_eq!(resize_args("p", 80, 30, false, "q"), strings(&["p", "-resize", "80x30!", "q"]));
    assert_eq!(
        resize_args("p", 80, 30, true, "q"),
        strings(&["p", "-resize", "80x30!", "-filter", "Lanczos", "-colorspace", "sRGB", "q"])
    );
    assert_eq!(dump_args("q", "t"), strings(&["q", "t"]));
    assert_eq!(
        label_args("t", "p"),
        strings(&[
            "-background",
            "white",
            "-fill",
            "black",
            "-font",
            "/usr/share/fonts/liberation/LiberationMono-Regular.ttf",
            "-pointsize",
            "12",
            "label:@t",
            "p",
        ])
    );
}

#[test]
fn the_animation_is_assembled_with_delays() {
    let pictures = strings(&["1.png", "2.png", "3.png"]);
    assert_eq!(
        assemble_args("d", &pictures, &[5, 10], 7, None, "o.gif"),
        strings(&[
            "-loop", "0", "-delay", "5", "d/1.png", "-delay", "10", "d/2.png", "-delay", "7",
            "d/3.png", "o.gif",
        ])
    );
    assert_eq!(
        assemble_args("d", &pictures[..1], &[5], 5, Some((12, 34)), "o.gif"),
        strings(&[
            "-loop", "0", "-delay", "5", "d/1.png", "-coalesce", "-resize", "12x34!", "o.gif",
        ])
    );
}

#[test]
fn reports_are_read_from_bytes() {
    assert_eq!(get_frame_delays(b"10\n\xff\n20\n"), Ok(vec![10, 20]));
    assert_eq!(get_frame_delays(b"\xff10\n"), Err(DelayError::NoFrames));
    assert_eq!(image_dimensions(b"640 480"), Ok((640, 480)));
    assert_eq!(image_dimensions(b"640\xff480"), Err(SizeError::InvalidWidth));
    assert_eq!(image_dimensions("640\u{3000}480".as_bytes()), Ok((640, 480)));
    assert_eq!(first_image_dimensions(b"640 480\n\xff\n"), Ok((640, 480)));
    assert_eq!(first_image_dimensions(b"\n640 480"), Err(SizeError::MissingWidth));
}

#[test]
fn averages_lie_between_the_delays() {
    for delays in [vec![3, 9, 4], vec![7], vec![0, u32::MAX], vec![100, 101, 101]] {
        let (lo, hi) = (*delays.iter().min().unwrap(), *delays.iter().max().unwrap());
        let average = average_delay(&delays).unwrap();
        assert!(lo <= average && average <= hi);
        for i in 0..6 {
            let d = delay_for(&delays, i, average);
            assert!(lo <= d && d <= hi);
        }
    }
}

#[test]
fn taller_pictures_have_at_least_as_many_rows() {
    for h in 0..500u32 {
        assert!(frame_height(37, h, 80) <= frame_height(37, h + 1, 80));
    }
    let rows = frame_height(641, 479, 123) as f64;
    assert!((rows - 479.0 * 123.0 / (2.0 * 641.0)).abs() <= 0.51);
}
