use asciic::builder::FilterType;
use asciic::container::{
    assemble_container, entry_kind, file_stem, frame_entry_path, read_container, ContainerError,
    EntryKind,
};
use asciic::encode::{encode_frame, CompilerError, FrameOptions};
use asciic::frames::{order_frames, parse_frame_number, FrameEntry};
use asciic::style::Style;

fn png_solid(w: u32, h: u32, v: u8) -> Vec<u8> {
    let img = image::RgbImage::from_pixel(w, h, image::Rgb([v, v, v]));
    let mut out = std::io::Cursor::new(Vec::new());
    img.write_to(&mut out, image::ImageFormat::Png).unwrap();
    out.into_inner()
}

fn frame(n: u64, data: &[u8]) -> FrameEntry {
    FrameEntry { number: n, data: data.to_vec() }
}

fn tar_of(entries: &[(&str, &[u8])]) -> Vec<u8> {
    let mut b = tar::Builder::new(Vec::new());
    for (path, data) in entries {
        let mut h = tar::Header::new_gnu();
        h.set_size(data.len() as u64);
        h.set_cksum();
        b.append_data(&mut h, path, *data).unwrap();
    }
    b.into_inner().unwrap()
}

fn zst(data: &[u8]) -> Vec<u8> {
    zstd::encode_all(data, 1).unwrap()
}

const META: &[u8] = b"(frametime:33333,fps:30,format_version:\"0.1.0\")";

#[test]
fn frame_numbers_parse() {
    assert_eq!(parse_frame_number("001"), Some(1));
    assert_eq!(parse_frame_number("+5"), Some(5));
    assert_eq!(parse_frame_number("18446744073709551615"), Some(u64::MAX));
    assert_eq!(parse_frame_number("18446744073709551616"), None);
    assert_eq!(parse_frame_number(""), None);
    assert_eq!(parse_frame_number("+"), None);
    assert_eq!(parse_frame_number("12a"), None);
    assert_eq!(parse_frame_number("-3"), None);
}

#[test]
fn frames_sorted_by_number() {
    let r = order_frames(vec![frame(3, b"c"), frame(1, b"a"), frame(10, b"j"), frame(2, b"b")]).unwrap();
    let numbers: Vec<u64> = r.iter().map(|f| f.number).collect();
    assert_eq!(numbers, vec![1, 2, 3, 10]);
    assert_eq!(r[3].data, b"j".to_vec());
    assert!(order_frames(vec![]).unwrap().is_empty());
}

#[test]
fn duplicate_frame_numbers_rejected() {
    let r = order_frames(vec![frame(4, b"x"), frame(7, b"y"), frame(4, b"z")]);
    assert_eq!(r, Err(4));
}

#[test]
fn entry_names() {
    assert_eq!(frame_entry_path(42), "42.zst");
    assert_eq!(frame_entry_path(0), "0.zst");
    assert_eq!(file_stem("./12.zst"), "12");
    assert_eq!(file_stem("dir/.hidden"), ".hidden");
    assert_eq!(file_stem("a.b.c"), "a.b");
    assert_eq!(entry_kind("./12.zst"), EntryKind::Frame(12));
    assert_eq!(entry_kind("audio.mp3"), EntryKind::Audio);
    assert_eq!(entry_kind("metadata.ron"), EntryKind::Metadata);
    assert_eq!(entry_kind("notes.txt"), EntryKind::Invalid);
}

#[test]
fn container_entry_order_out_of_order_input() {
    let frames = vec![frame(3, &zst(b"three")), frame(1, &zst(b"one")), frame(2, &zst(b"two"))];
    let bytes = assemble_container(frames, Some(b"mp3".to_vec()), META).unwrap();
    let mut archive = tar::Archive::new(bytes.as_slice());
    let names: Vec<String> = archive
        .entries()
        .unwrap()
        .map(|e| e.unwrap().path().unwrap().to_string_lossy().into_owned())
        .collect();
    assert_eq!(names, vec!["1.zst", "2.zst", "3.zst", "audio.mp3", "metadata.ron"]);
    let c = read_container(&bytes).unwrap();
    let texts: Vec<Vec<u8>> = c.frames.iter().map(|f| f.data.clone()).collect();
    assert_eq!(texts, vec![b"one".to_vec(), b"two".to_vec(), b"three".to_vec()]);
    assert_eq!(c.audio, Some(b"mp3".to_vec()));
    assert_eq!(c.metadata, META.to_vec());
}

#[test]
fn assemble_rejects_duplicate_frames() {
    let r = assemble_container(vec![frame(1, b"a"), frame(1, b"b")], None, META);
    assert!(matches!(r, Err(ContainerError::DuplicateFrame(1))));
}

#[test]
fn reader_sorts_on_disk_order() {
    let one = zst(b"1");
    let two = zst(b"2");
    let ten = zst(b"10");
    let bytes = tar_of(&[("10.zst", &ten), ("metadata.ron", META), ("2.zst", &two), ("1.zst", &one)]);
    let c = read_container(&bytes).unwrap();
    let numbers: Vec<u64> = c.frames.iter().map(|f| f.number).collect();
    assert_eq!(numbers, vec![1, 2, 10]);
    assert_eq!(c.frames[2].data, b"10".to_vec());
    assert_eq!(c.audio, None);
}

#[test]
fn reader_needs_metadata() {
    let bytes = tar_of(&[("1.zst", &zst(b"x"))]);
    assert!(matches!(read_container(&bytes), Err(ContainerError::MissingMetadata)));
}

#[test]
fn reader_rejects_bad_names() {
    let bytes = tar_of(&[("1.zst", &zst(b"x")), ("junk.bin", b"?"), ("metadata.ron", META)]);
    assert!(matches!(read_container(&bytes), Err(ContainerError::BadEntryName(n)) if n == "junk.bin"));
}

#[test]
fn reader_rejects_corrupt_frame() {
    let bytes = tar_of(&[("1.zst", b"not zstd"), ("metadata.ron", META)]);
    assert!(matches!(read_container(&bytes), Err(ContainerError::Codec(1, _))));
}

#[test]
fn reader_rejects_duplicate_numbers() {
    let bytes = tar_of(&[("1.zst", &zst(b"a")), ("01.zst", &zst(b"b")), ("metadata.ron", META)]);
    assert!(matches!(read_container(&bytes), Err(ContainerError::DuplicateFrame(1))));
}

#[test]
fn reader_rejects_garbage() {
    let r = read_container(&[1u8; 700]);
    assert!(matches!(r, Err(ContainerError::Archive(_))));
}

fn options() -> FrameOptions {
    FrameOptions {
        width: 2,
        height: 2,
        charset: " .#".to_string(),
        style: Style::BgOnly,
        colorize: true,
        filter_type: FilterType::Nearest,
        threshold: 10,
    }
}

#[test]
fn encode_frame_stops_and_checks_stem() {
    let png = png_solid(2, 2, 0);
    assert!(matches!(encode_frame(true, "1", png.clone(), &options()), Err(CompilerError::Stopped)));
    assert!(matches!(encode_frame(false, "one", png, &options()), Err(CompilerError::FileStemNan)));
}

#[test]
fn encode_frame_fails_on_undecodable_image() {
    let r = encode_frame(false, "1", b"junk".to_vec(), &options());
    assert!(matches!(r, Err(CompilerError::Ascii(asciic::builder::AsciiError::ImageFormat(_)))));
}

#[test]
fn encode_frame_compresses_rendered_text() {
    let f = encode_frame(false, "007", png_solid(2, 2, 255), &options()).unwrap();
    assert_eq!(f.number, 7);
    let text = zstd::decode_all(f.data.as_slice()).unwrap();
    assert_ne!(f.data, text);
    assert_eq!(
        String::from_utf8(text).unwrap(),
        "\x1b[48;2;255;255;255m  \x1b[0m\n\x1b[48;2;255;255;255m  \x1b[0m"
    );
}

#[test]
fn end_to_end_three_solid_frames() {
    let o = options();
    let sources = [("3", 255u8), ("1", 0u8), ("2", 128u8)];
    let frames: Vec<FrameEntry> = sources
        .iter()
        .map(|(stem, v)| encode_frame(false, stem, png_solid(2, 2, *v), &o).unwrap())
        .collect();
    let bytes = assemble_container(frames, None, META).unwrap();
    let c = read_container(&bytes).unwrap();
    assert_eq!(c.frames.len(), 3);
    for (f, v) in c.frames.iter().zip([0u8, 128, 255]) {
        let row = format!("\x1b[48;2;{v};{v};{v}m  \x1b[0m");
        assert_eq!(String::from_utf8(f.data.clone()).unwrap(), format!("{row}\n{row}"));
    }
    assert_eq!(c.metadata, META.to_vec());
    assert_eq!(c.audio, None);
}

#[test]
fn round_trip_keeps_glyph_grid() {
    let mut o = options();
    o.style = Style::FgPaint;
    o.colorize = false;
    let png = png_solid(2, 2, 200);
    let direct = asciic::encode::make_frame(png.clone(), &o).unwrap();
    let f = encode_frame(false, "1", png, &o).unwrap();
    let bytes = assemble_container(vec![f], None, META).unwrap();
    let c = read_container(&bytes).unwrap();
    assert_eq!(String::from_utf8(c.frames[0].data.clone()).unwrap(), direct);
    assert_eq!(direct, "##\n##");
}
