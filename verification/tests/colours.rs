use gif_to_ascii::binary32::ceil_to_u32;
use gif_to_ascii::binary64::round_quotient;
use gif_to_ascii::channel::{parse_channel, ChannelError};
use gif_to_ascii::text::blank;
use gif_to_ascii::{coarse, fine};

const COARSE: &[u8] = b" .:-=+*#%@";
const FINE: &[u8] = b"$@B%8&WM#*oahkbdpqwmZO0QLCJUYXzcvunxrjft/\\|()1{}[]?-_+~<>i!lI;:,\"^`'. ";

fn luminance(r: u8, g: u8, b: u8) -> f64 {
    0.2126 * r as f64 + 0.7152 * g as f64 + 0.0722 * b as f64
}

fn coarse_char(r: u8, g: u8, b: u8) -> char {
    let lum = luminance(r, g, b);
    if lum <= 16.0 {
        return ' ';
    }
    let scale = (lum - 16.0) / (255.0 - 16.0);
    COARSE[(scale * 9.0).round() as usize] as char
}

fn fine_char(r: u8, g: u8, b: u8) -> char {
    let lum = luminance(r, g, b);
    if lum <= 12.0 {
        return ' ';
    }
    let scale = (lum - 12.0) / (255.0 - 12.0);
    FINE[((scale * 68.0).round() as usize).min(68)] as char
}

#[test]
fn black_is_blank_and_white_is_bright() {
    assert_eq!(coarse::pixel_for(0, 0, 0), ' ');
    assert_eq!(coarse::pixel_for(255, 255, 255), '@');
    assert_eq!(fine::pixel_for(0, 0, 0), ' ');
    assert_eq!(fine::pixel_for(255, 255, 255), '.');
}

#[test]
fn exact_characters() {
    assert_eq!(coarse::pixel_for(128, 128, 128), '=');
    assert_eq!(coarse::pixel_for(255, 0, 0), '.');
    assert_eq!(coarse::pixel_for(0, 255, 0), '*');
    assert_eq!(coarse::pixel_for(0, 0, 255), ' ');
    assert_eq!(fine::pixel_for(13, 13, 13), '$');
    assert_eq!(fine::pixel_for(12, 12, 12), ' ');
}

#[test]
fn rounding_is_that_of_double_precision() {
    assert_eq!(coarse::pixel_for(134, 147, 26), coarse_char(134, 147, 26));
    assert_eq!(coarse::pixel_for(134, 147, 26), '=');
    assert_eq!(fine::pixel_for(2, 179, 70), fine_char(2, 179, 70));
}

#[test]
fn ramps_agree_with_double_precision() {
    for r in (0..=255u8).step_by(7) {
        for g in (0..=255u8).step_by(5) {
            for b in (0..=255u8).step_by(9) {
                assert_eq!(coarse::pixel_for(r, g, b), coarse_char(r, g, b));
                assert_eq!(fine::pixel_for(r, g, b), fine_char(r, g, b));
            }
        }
    }
}

#[test]
fn fine_ramp_is_blank_for_dark_colours_only() {
    for r in (0..=255u8).step_by(3) {
        for g in (0..=60u8).step_by(1) {
            let dark = luminance(r, g, 0) <= 12.0;
            assert_eq!(fine::pixel_for(r, g, 0) == ' ', dark);
        }
    }
}

#[test]
fn brighter_colours_come_later() {
    let place = |c: char| COARSE.iter().position(|&x| x as char == c);
    for v in 0..255u8 {
        assert!(place(coarse::pixel_for(v, v, v)) <= place(coarse::pixel_for(v + 1, v, v)));
        assert!(place(coarse::pixel_for(v, v, v)) <= place(coarse::pixel_for(v, v + 1, v)));
        assert!(place(coarse::pixel_for(v, v, v)) <= place(coarse::pixel_for(v, v, v + 1)));
    }
}

#[test]
fn channels_of_each_form() {
    assert_eq!(parse_channel("255"), Ok(255));
    assert_eq!(parse_channel("255.0"), Ok(255));
    assert_eq!(parse_channel("254.7"), Ok(255));
    assert_eq!(parse_channel("254.4"), Ok(254));
    assert_eq!(parse_channel("100%"), Ok(255));
    assert_eq!(parse_channel("50.2%"), Ok(128));
    assert_eq!(parse_channel(" 12 "), Ok(12));
    assert_eq!(parse_channel(" 20 % "), Ok(51));
    assert_eq!(parse_channel("0.5"), Ok(1));
    assert_eq!(parse_channel("1e2"), Ok(100));
    assert_eq!(parse_channel("2.5E+1"), Ok(25));
    assert_eq!(parse_channel(".5e1"), Ok(5));
    assert_eq!(parse_channel("7."), Ok(7));
}

#[test]
fn channels_beyond_the_range() {
    assert_eq!(parse_channel("-3"), Ok(0));
    assert_eq!(parse_channel("-0.2"), Ok(0));
    assert_eq!(parse_channel("300"), Ok(255));
    assert_eq!(parse_channel("250%"), Ok(255));
    assert_eq!(parse_channel("1e400"), Ok(255));
    assert_eq!(parse_channel("1e-400"), Ok(0));
    assert_eq!(parse_channel("1e99999999999999999999999"), Ok(255));
    assert_eq!(parse_channel("0e99999999999999999999999"), Ok(0));
    assert_eq!(parse_channel("1e-99999999999999999999999"), Ok(0));
    assert_eq!(parse_channel("inf"), Ok(255));
    assert_eq!(parse_channel("-Infinity"), Ok(0));
    assert_eq!(parse_channel("+INF%"), Ok(255));
    assert_eq!(parse_channel("NaN"), Ok(0));
}

#[test]
fn channels_that_cannot_be_read() {
    for s in ["", " ", "x", "1x", "--1", "+-1", "1e", "1e+", ".", "e5", "1 2", "0x10", "infi"] {
        assert_eq!(parse_channel(s), Err(ChannelError::Plain));
    }
    for s in ["%", " % ", "x%", "1%%", "1e%"] {
        assert_eq!(parse_channel(s), Err(ChannelError::Percent));
    }
}

fn level(s: &str) -> Option<u8> {
    let s = s.trim();
    if let Some(p) = s.strip_suffix('%') {
        let f: f64 = p.trim().parse().ok()?;
        Some((f / 100.0 * 255.0).round().clamp(0.0, 255.0) as u8)
    } else {
        let f: f64 = s.parse().ok()?;
        Some(f.round().clamp(0.0, 255.0) as u8)
    }
}

#[test]
fn channels_agree_with_double_precision() {
    let mut texts: Vec<String> = Vec::new();
    for i in 0..=3000 {
        texts.push(format!("{}.{:03}", i / 11, i % 1000));
        texts.push(format!("{}.{}%", i / 27, i % 100));
        texts.push(format!("{}e-2", i * 9));
        texts.push(format!("{}.5", i / 10));
        texts.push(format!("{}.4999999999999999{}", i / 10, i));
        texts.push(format!("{}.50000000000000000000000000000000000001%", i / 30));
        texts.push(format!("0.{}{}e3", "0".repeat(i % 6), i));
    }
    texts.push("0.49999999999999997".to_string());
    texts.push("0.49999999999999994".to_string());
    texts.push("9007199254740993e-14".to_string());
    texts.push(format!("{}1e-{}", "0".repeat(50), 2));
    texts.push(format!("1{}e-{}", "0".repeat(400), 398));
    texts.push(format!("0.{}1e{}", "0".repeat(400), 403));
    texts.push("9".repeat(40));
    for t in &texts {
        assert_eq!(parse_channel(t).ok(), level(t), "{}", t);
    }
}

#[test]
fn levels_in_digits_are_read_back() {
    for n in 0..=255u8 {
        assert_eq!(parse_channel(&n.to_string()), Ok(n));
    }
    assert_eq!(parse_channel("256"), Ok(255));
}

#[test]
fn blanks_are_those_of_unicode() {
    for c in '\0'..=char::MAX {
        assert_eq!(blank(c), c.is_whitespace());
    }
}

#[test]
fn quotients_are_rounded_to_even() {
    let r = round_quotient(1, 3, 0);
    assert_eq!(r.significand as f64 * (r.exponent as f64).exp2(), 1.0 / 3.0);
    let r = round_quotient(2126, 10000, 0);
    assert_eq!(r.significand as f64 * (r.exponent as f64).exp2(), 0.2126);
}

#[test]
fn ceilings_of_single_precision() {
    let values = [
        0.0f32, 0.1, 0.5, 1.0, 1.5, 6.0, 6.000001, 7.2, 255.99, 1e6, 16777215.5, 16777216.0, 4e9,
        5e9, 1e30, 1e-40, -1.5, -0.0, f32::INFINITY, f32::NEG_INFINITY, f32::NAN, f32::MIN_POSITIVE,
    ];
    for v in values {
        assert_eq!(ceil_to_u32(v.to_bits()), v.ceil() as u32, "{}", v);
    }
    let mut bits: u32 = 0;
    while bits < 0xffff_0000 {
        let v = f32::from_bits(bits);
        assert_eq!(ceil_to_u32(bits), v.ceil() as u32, "{}", v);
        bits += 0x9e37;
    }
}

#[test]
fn larger_numbers_never_give_smaller_levels() {
    for i in 0..4000u32 {
        let (x, y) = (format!("{}e-1", i), format!("{}e-1", i + 1));
        assert!(parse_channel(&x).unwrap() <= parse_channel(&y).unwrap());
        let (x, y) = (format!("{}e-1%", i), format!("{}e-1%", i + 1));
        assert!(parse_channel(&x).unwrap() <= parse_channel(&y).unwrap());
    }
}

#[test]
fn the_fine_ramp_has_seventy_levels() {
    assert_eq!(FINE.len(), 70);
    let mut seen: Vec<char> = (0..=255u8).map(|v| fine::pixel_for(v, v, v)).collect();
    seen.sort();
    seen.dedup();
    let mut all: Vec<char> = FINE.iter().map(|&b| b as char).collect();
    all.sort();
    assert_eq!(seen, all);
    assert_eq!(fine::pixel_for(174, 174, 174), '1');
}

#[test]
fn colours_are_ordered_by_brightness() {
    let place = |c: char| FINE.iter().position(|&x| x as char == c).unwrap();
    let mut colours: Vec<(u8, u8, u8)> = Vec::new();
    for r in (0..=255u8).step_by(15) {
        for g in (0..=255u8).step_by(17) {
            for b in (0..=255u8).step_by(51) {
                if luminance(r, g, b) > 12.0 {
                    colours.push((r, g, b));
                }
            }
        }
    }
    colours.sort_by(|a, b| {
        luminance(a.0, a.1, a.2).partial_cmp(&luminance(b.0, b.1, b.2)).unwrap()
    });
    let steps: Vec<usize> =
        colours.iter().map(|c| place(fine::pixel_for(c.0, c.1, c.2))).collect();
    assert!(steps.windows(2).all(|w| w[0] <= w[1]));
}

#[test]
fn numbers_below_zero_give_level_zero() {
    for s in ["-0", "-1", " -300.5 ", "-1e9%", "-inf", "-1e-400", "-NaN", "-7 %"] {
        assert_eq!(parse_channel(s), Ok(0), "{}", s);
    }
    assert_eq!(parse_channel("99999999999999999999999999"), Ok(255));
}
