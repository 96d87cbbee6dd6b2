use asciic::builder::FilterType;
use asciic::encode::{with_extension, Args, Input};
use asciic::style::Style;

fn args() -> Args {
    Args {
        colorize: false,
        no_audio: false,
        use_system_binaries: false,
        video: None,
        image: None,
        youtube: None,
        output: None,
        style: Style::BgOnly,
        temp: ".".to_string(),
        threshold: 3,
        charset: ".:-+=#@".to_string(),
        filter_type: FilterType::Nearest,
    }
}

#[test]
fn extension_is_replaced_or_added() {
    assert_eq!(with_extension("video.mp4", "bapple"), "video.bapple");
    assert_eq!(with_extension("dir/file", "txt"), "dir/file.txt");
    assert_eq!(with_extension("a.b/.hidden", "txt"), "a.b/.hidden.txt");
    assert_eq!(with_extension("x.tar.gz", "zst"), "x.tar.zst");
    assert_eq!(with_extension("name.ext", ""), "name");
    assert_eq!(with_extension("dir/", "txt"), "dir/");
}

#[test]
fn video_output_defaults_to_input_path() {
    let mut a = args();
    a.video = Some("clips/bad_apple.mp4".to_string());
    let (input, output) = a.handle_io();
    assert_eq!(input, Input::Video("clips/bad_apple.mp4".to_string()));
    assert_eq!(output, "clips/bad_apple.bapple");
}

#[test]
fn image_output_gets_txt() {
    let mut a = args();
    a.image = Some("pic.png".to_string());
    a.output = Some("out/art.bin".to_string());
    let (input, output) = a.handle_io();
    assert_eq!(input, Input::Image("pic.png".to_string()));
    assert_eq!(output, "out/art.txt");
}

#[test]
fn link_needs_output() {
    let mut a = args();
    a.youtube = Some("https://example.com/v".to_string());
    a.output = Some("clip".to_string());
    let (input, output) = a.handle_io();
    assert_eq!(input, Input::YoutubeLink("https://example.com/v".to_string()));
    assert_eq!(output, "clip.bapple");
}

#[test]
fn video_wins_over_image() {
    let mut a = args();
    a.video = Some("v.mkv".to_string());
    a.image = Some("i.png".to_string());
    assert_eq!(a.handle_input(), Input::Video("v.mkv".to_string()));
}
