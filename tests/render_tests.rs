use asciic::builder::{AsciiBuilder, AsciiError, FilterType};
use asciic::charset::Charset;
use asciic::color::{brightness, max_colour_diff, max_sub, Pixel};
use asciic::render::{render_pixels, RenderSettings};
use asciic::style::Style;

fn px(r: u8, g: u8, b: u8) -> Pixel {
    Pixel { r, g, b }
}

fn png_bytes(w: u32, h: u32, f: impl Fn(u32, u32) -> [u8; 3]) -> Vec<u8> {
    let img = image::RgbImage::from_fn(w, h, |x, y| image::Rgb(f(x, y)));
    let mut out = std::io::Cursor::new(Vec::new());
    img.write_to(&mut out, image::ImageFormat::Png).unwrap();
    out.into_inner()
}

fn settings(spec: &str, style: Style, colour: bool, threshold: u8) -> RenderSettings {
    RenderSettings { charset: Charset::mkcharset(spec), style, colour, threshold, dim_percent: 20 }
}

#[test]
fn default_charset_thresholds() {
    let cs = Charset::mkcharset(".:-+=#@");
    assert_eq!(cs.match_char(0), ' ');
    assert_eq!(cs.match_char(36), '.');
    assert_eq!(cs.match_char(37), ':');
    assert_eq!(cs.match_char(71), ':');
    assert_eq!(cs.match_char(72), '-');
    assert_eq!(cs.match_char(214), '#');
    assert_eq!(cs.match_char(215), '@');
    assert_eq!(cs.match_char(250), '@');
    assert_eq!(cs.match_char(255), '@');
}

#[test]
fn match_char_stays_in_glyph_set() {
    for spec in ["", "#", " .#", ".:-+=#@", "abcdefghijklmnopqrstuvwxyz0123456789"] {
        let cs = Charset::mkcharset(spec);
        let glyphs: Vec<char> = std::iter::once(' ').chain(spec.chars()).collect();
        for b in 0..=255u8 {
            assert!(glyphs.contains(&cs.match_char(b)));
        }
    }
}

#[test]
fn thresholds_non_decreasing_and_span() {
    let cs = Charset::mkcharset(" .#");
    // glyphs ' ', ' ', '.', '#' at thresholds 0, 83, 167, 250
    assert_eq!(cs.match_char(0), ' ');
    assert_eq!(cs.match_char(83), ' ');
    assert_eq!(cs.match_char(84), '.');
    assert_eq!(cs.match_char(167), '.');
    assert_eq!(cs.match_char(168), '#');
    assert_eq!(cs.match_char(250), '#');
    let rank = |c: char| match c {
        ' ' => 0,
        '.' => 1,
        _ => 2,
    };
    for b in 0..255u8 {
        assert!(rank(cs.match_char(b)) <= rank(cs.match_char(b + 1)));
    }
}

#[test]
fn empty_spec_is_one_level_charset() {
    let cs = Charset::mkcharset("");
    assert_eq!(cs.match_char(0), ' ');
    assert_eq!(cs.match_char(200), ' ');
}

#[test]
fn pixel_helpers() {
    assert_eq!(max_sub(3, 10), 7);
    assert_eq!(max_sub(10, 3), 7);
    assert_eq!(max_colour_diff(px(10, 200, 30), px(20, 190, 70)), 40);
    assert_eq!(brightness(px(10, 200, 30)), 200);
}

#[test]
fn colour_sequences() {
    assert_eq!(Style::rgb_to_string(px(1, 22, 255)), "1;22;255m");
    assert_eq!(Style::FgPaint.colorize('x', px(1, 2, 3), 20), "\x1b[38;2;1;2;3mx");
    assert_eq!(Style::BgPaint.colorize('x', px(1, 2, 3), 20), "\x1b[48;2;1;2;3mx");
    assert_eq!(Style::BgOnly.colorize(' ', px(0, 0, 0), 20), "\x1b[48;2;0;0;0m ");
    assert_eq!(
        Style::Mixed.colorize('#', px(255, 100, 5), 20),
        "\x1b[38;2;255;100;5m\x1b[48;2;51;20;1m#"
    );
    assert_eq!(Style::Mixed.colorize('#', px(200, 10, 0), 250), "\x1b[38;2;200;10;0m\x1b[48;2;200;10;0m#");
}

#[test]
fn plain_render_is_glyph_grid() {
    let pixels = vec![px(0, 0, 0), px(255, 255, 255), px(100, 0, 0), px(0, 0, 200)];
    let out = render_pixels(&pixels, 2, 2, &settings(" .#", Style::FgPaint, false, 0));
    assert_eq!(out, " #\n.#");
}

#[test]
fn threshold_zero_emits_on_every_change() {
    let row = vec![px(0, 0, 0), px(1, 0, 0), px(2, 0, 0)];
    let out = render_pixels(&row, 3, 1, &settings("", Style::BgOnly, true, 0));
    assert_eq!(out, "\x1b[48;2;0;0;0m \x1b[48;2;1;0;0m \x1b[48;2;2;0;0m \x1b[0m");
}

#[test]
fn threshold_max_emits_first_cell_only() {
    let pixels = vec![px(0, 0, 0), px(255, 255, 255), px(255, 0, 0), px(0, 255, 0)];
    let out = render_pixels(&pixels, 2, 2, &settings("", Style::BgOnly, true, 255));
    assert_eq!(out, "\x1b[48;2;0;0;0m  \x1b[0m\n\x1b[48;2;255;0;0m  \x1b[0m");
}

#[test]
fn close_neighbour_reuses_colour() {
    let row = vec![px(0, 0, 0), px(8, 0, 0), px(16, 0, 0), px(20, 0, 0)];
    let out = render_pixels(&row, 4, 1, &settings("", Style::BgOnly, true, 10));
    // 8 is within 10 of 0; 16 is not, so it emits; 20 is within 10 of 16
    assert_eq!(out, "\x1b[48;2;0;0;0m  \x1b[48;2;16;0;0m  \x1b[0m");
}

#[test]
fn foreground_render_keeps_glyphs() {
    let pixels = vec![px(250, 0, 0), px(250, 0, 0)];
    let out = render_pixels(&pixels, 2, 1, &settings(" .#", Style::FgPaint, true, 5));
    assert_eq!(out, "\x1b[38;2;250;0;0m##\x1b[0m");
}

#[test]
fn make_ascii_needs_dimensions() {
    let png = png_bytes(2, 2, |_, _| [0, 0, 0]);
    let r = AsciiBuilder::new(png.clone()).make_ascii();
    assert!(matches!(r, Err(AsciiError::DimensionsNotSet)));
    let r = AsciiBuilder::new(png).dimensions(3, 0).make_ascii();
    assert!(matches!(r, Err(AsciiError::DimensionsNotSet)));
}

#[test]
fn make_ascii_rejects_non_image() {
    let r = AsciiBuilder::new(b"not an image".to_vec()).dimensions(2, 2).make_ascii();
    assert!(matches!(r, Err(AsciiError::ImageFormat(_))));
}

#[test]
fn make_ascii_decodes_and_resizes() {
    let png = png_bytes(4, 4, |x, _| if x < 2 { [0, 0, 0] } else { [255, 255, 255] });
    let out = AsciiBuilder::new(png)
        .dimensions(2, 2)
        .charset(" .#")
        .filter_type(FilterType::Nearest)
        .make_ascii()
        .unwrap();
    assert_eq!(out, " #\n #");
}

#[test]
fn make_ascii_colour_background_only() {
    let png = png_bytes(2, 2, |_, _| [128, 128, 128]);
    let out = AsciiBuilder::new(png)
        .dimensions(2, 2)
        .colorize(true)
        .style(Style::BgOnly)
        .threshold(10)
        .make_ascii()
        .unwrap();
    assert_eq!(out, "\x1b[48;2;128;128;128m  \x1b[0m\n\x1b[48;2;128;128;128m  \x1b[0m");
}

#[test]
fn mixed_style_with_background_brightness() {
    let png = png_bytes(1, 1, |_, _| [200, 100, 50]);
    let out = AsciiBuilder::new(png)
        .dimensions(1, 1)
        .colorize(true)
        .style(Style::Mixed)
        .background_brightness(50)
        .make_ascii()
        .unwrap();
    assert_eq!(out, "\x1b[38;2;200;100;50m\x1b[48;2;100;50;25m#\x1b[0m");
}

#[test]
fn make_ascii_rejects_grid_too_large() {
    let png = png_bytes(1, 1, |_, _| [0, 0, 0]);
    let r = AsciiBuilder::new(png).dimensions(u32::MAX, u32::MAX).make_ascii();
    assert!(matches!(r, Err(AsciiError::TooLarge)));
}

#[test]
fn sketch_of_image() {
    let png = png_bytes(95, 100, |_, _| [255, 0, 0]);
    let out = asciic::sketch::process_image(&png).unwrap();
    let row = format!("{}{}\n", " ".repeat(12), "@".repeat(19));
    assert_eq!(out, row.repeat(5));
    let png = png_bytes(40, 38, |_, _| [30, 250, 250]);
    let out = asciic::sketch::process_image(&png).unwrap();
    assert_eq!(out, format!("{}{}\n{}{}\n", " ".repeat(12), ".".repeat(7), " ".repeat(12), ".".repeat(7)));
}

#[test]
fn sketch_of_tiny_image_is_empty() {
    let png = png_bytes(4, 4, |_, _| [255, 255, 255]);
    assert_eq!(asciic::sketch::process_image(&png).unwrap(), "");
    assert!(asciic::sketch::process_image(b"junk").is_err());
}
