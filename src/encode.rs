use vstd::prelude::*;
use vstd::string::{StrSliceExecFns, StringExecFns};

use crate::builder::{
    decoded_rgba, fits_in_memory, image_decodes, rgba_pixels, AsciiBuilder, AsciiError, FilterType,
};
use crate::charset::{lemma_built_from_same_glyphs, Charset};
use crate::container::{
    compress_frame, file_name_of, file_stem, file_stem_of, last_index, last_index_of,
    lemma_last_index_bounds, zstd_compressed, zstd_encodes,
    ContainerError, FRAME_LEVEL,
};
use crate::frames::{digits_value, is_frame_number, number_digits, parse_frame_number, FrameEntry};
use crate::render::{frame_text, lemma_frame_text_charset, RenderSettings};
use crate::style::Style;

verus! {

/// What the encoder was asked to convert.
#[derive(Debug, Clone, PartialEq, Eq)]
pub enum Input {
    Video(String),
    Image(String),
    YoutubeLink(String),
}

/// The encoder's configuration, as given on its command line.
#[derive(Debug, Clone)]
pub struct Args {
    pub colorize: bool,
    pub no_audio: bool,
    pub use_system_binaries: bool,
    pub video: Option<String>,
    pub image: Option<String>,
    pub youtube: Option<String>,
    pub output: Option<String>,
    pub style: Style,
    pub temp: String,
    pub threshold: u8,
    pub charset: String,
    pub filter_type: FilterType,
}

/// Paths of the external programs the encoder runs.
#[derive(Debug, Clone)]
pub struct Dependencies {
    pub ffmpeg: String,
    pub ffprobe: String,
    pub ytdlp: String,
}

/// `path` with the extension of its file name set to `ext` (removed when
/// `ext` is empty); a path without a file name is left as it is.
pub open spec fn with_extension_spec(path: Seq<char>, ext: Seq<char>) -> Seq<char> {
    let start = last_index_of(path, '/') + 1;
    if file_name_of(path).len() == 0 {
        path
    } else {
        path.subrange(0, start + file_stem_of(path).len()) + if ext.len() == 0 {
            Seq::empty()
        } else {
            seq!['.'] + ext
        }
    }
}

/// Sets the extension of the file name of `path` (see `with_extension_spec`).
pub fn with_extension(path: &str, ext: &str) -> (r: String)
    ensures
        r@ == with_extension_spec(path@, ext@),
{
    let len = path.unicode_len();
    let stem = file_stem(path);
    proof {
        lemma_last_index_bounds(path@, '/');
        lemma_last_index_bounds(file_name_of(path@), '.');
    }
    let start: usize = match last_index(path, '/') {
        Some(i) => i + 1,
        None => 0,
    };
    assert(start as int == last_index_of(path@, '/') + 1);
    if start == len {
        return path.to_owned();
    }
    let keep = path.substring_char(0, start + stem.unicode_len());
    let mut out = String::from_str(keep);
    if ext.unicode_len() > 0 {
        let dot = ".";
        proof {
            reveal_strlit(".");
        }
        out.append(dot);
        out.append(ext);
    }
    assert(out@ =~= with_extension_spec(path@, ext@));
    out
}

/// The input an `Args` names: its video, else its image, else its link.
pub open spec fn input_spec(a: Args) -> Input {
    if a.video is Some {
        Input::Video(a.video->Some_0)
    } else if a.image is Some {
        Input::Image(a.image->Some_0)
    } else {
        Input::YoutubeLink(a.youtube->Some_0)
    }
}

/// The extension of the output for an input: `txt` for an image, `bapple` otherwise.
pub open spec fn output_extension(i: Input) -> Seq<char> {
    match i {
        Input::Image(_) => seq!['t', 'x', 't'],
        _ => seq!['b', 'a', 'p', 'p', 'l', 'e'],
    }
}

/// The path the output is derived from: the given output, else the input's path.
pub open spec fn output_base(a: Args) -> Seq<char> {
    match a.output {
        Some(o) => o@,
        None => match input_spec(a) {
            Input::Video(p) => p@,
            Input::Image(p) => p@,
            Input::YoutubeLink(l) => l@,
        },
    }
}

impl Args {
    /// Whether the arguments name an input, and an output where the input is a link.
    pub open spec fn has_input(&self) -> bool {
        &&& self.video is Some || self.image is Some || self.youtube is Some
        &&& input_spec(*self) is YoutubeLink ==> self.output is Some
    }

    /// The input and the output path: the output is the given output path,
    /// or else the input's path, with the extension `txt` for an image and
    /// `bapple` otherwise.
    pub fn handle_io(&self) -> (r: (Input, String))
        requires
            self.has_input(),
        ensures
            r.0 == input_spec(*self),
            r.1@ == with_extension_spec(output_base(*self), output_extension(r.0)),
    {
        let input = self.handle_input();
        let txt = "txt";
        let bapple = "bapple";
        proof {
            reveal_strlit("txt");
            reveal_strlit("bapple");
            assert(txt@ =~= seq!['t', 'x', 't']);
            assert(bapple@ =~= seq!['b', 'a', 'p', 'p', 'l', 'e']);
        }
        let ext = match &input {
            Input::Image(_) => txt,
            _ => bapple,
        };
        let output = match &self.output {
            Some(o) => with_extension(o.as_str(), ext),
            None => match &input {
                Input::Video(p) => with_extension(p.as_str(), ext),
                Input::Image(p) => with_extension(p.as_str(), ext),
                Input::YoutubeLink(l) => with_extension(l.as_str(), ext),
            },
        };
        (input, output)
    }

    /// The input: the video if given, else the image, else the link.
    pub fn handle_input(&self) -> (r: Input)
        requires
            self.video is Some || self.image is Some || self.youtube is Some,
        ensures
            r == input_spec(*self),
    {
        match &self.video {
            Some(v) => Input::Video(v.clone()),
            None => match &self.image {
                Some(i) => Input::Image(i.clone()),
                None => match &self.youtube {
                    Some(l) => Input::YoutubeLink(l.clone()),
                    None => Input::YoutubeLink(String::new()),
                },
            },
        }
    }
}

/// How each frame is rendered.
#[derive(Debug, Clone)]
pub struct FrameOptions {
    pub width: u32,
    pub height: u32,
    pub charset: String,
    pub style: Style,
    pub colorize: bool,
    pub filter_type: FilterType,
    pub threshold: u8,
}

/// The default background brightness of the mixed style, in percent.
pub const DEFAULT_DIM_PERCENT: u8 = 20;

/// The text a frame renders to under `o` with compression threshold `t`,
/// with the charset built from `o.charset`.
pub open spec fn frame_text_with(image: Seq<u8>, o: FrameOptions, t: u8, c: Charset) -> Seq<char> {
    frame_text(
        rgba_pixels(decoded_rgba(image, o.width, o.height, o.filter_type)),
        o.width as nat,
        o.height as nat,
        RenderSettings {
            charset: c,
            style: o.style,
            colour: o.colorize,
            threshold: t,
            dim_percent: DEFAULT_DIM_PERCENT,
        },
    )
}

/// The charset built from `spec` (see `Charset::built_from`).
pub open spec fn charset_from(spec: Seq<char>) -> Charset {
    choose|c: Charset| c.built_from(spec)
}

/// The text `image` renders to under `o` with compression threshold `t`.
pub open spec fn frame_text_of(image: Seq<u8>, o: FrameOptions, t: u8) -> Seq<char> {
    frame_text_with(image, o, t, charset_from(o.charset@))
}

/// The bytes stored for a frame: its rendered text, UTF-8 encoded.
pub open spec fn frame_bytes(image: Seq<u8>, o: FrameOptions) -> Seq<u8> {
    vstd::utf8::encode_utf8(frame_text_of(image, o, o.threshold))
}

/// Whether rendering `image` under `o` succeeds: a grid of nonzero size
/// that fits in memory, and an image that decodes.
pub open spec fn renders(image: Seq<u8>, o: FrameOptions) -> bool {
    o.width != 0 && o.height != 0 && fits_in_memory(o.width, o.height) && image_decodes(image)
}

/// Errors of the encoder.
#[derive(Debug)]
pub enum CompilerError {
    Ascii(AsciiError),
    Container(ContainerError),
    /// A source frame's file stem is not a number.
    FileStemNan,
    /// Encoding was cancelled.
    Stopped,
}

/// Renders the encoded image `image` under `o`, with compression threshold `threshold`.
pub fn render_with(image: Vec<u8>, o: &FrameOptions, threshold: u8) -> (r: Result<
    String,
    AsciiError,
>)
    ensures
        r matches Err(AsciiError::DimensionsNotSet) <==> (o.width == 0 || o.height == 0),
        r matches Err(AsciiError::TooLarge) <==> (o.width != 0 && o.height != 0 && !fits_in_memory(
            o.width,
            o.height,
        )),
        r is Ok <==> renders(image@, *o),
        r matches Ok(s) ==> s@ == frame_text_of(image@, *o, threshold),
{
    let b = AsciiBuilder::new(image).dimensions(o.width, o.height).charset(o.charset.as_str()).style(
        o.style,
    ).colorize(o.colorize).filter_type(o.filter_type).threshold(threshold);
    let ghost st = b.settings_spec();
    let r = b.make_ascii();
    proof {
        let c = charset_from(o.charset@);
        assert(st.charset.built_from(o.charset@));
        lemma_built_from_same_glyphs(st.charset, c, o.charset@);
        let o2 = RenderSettings {
            charset: c,
            style: o.style,
            colour: o.colorize,
            threshold: threshold,
            dim_percent: DEFAULT_DIM_PERCENT,
        };
        lemma_frame_text_charset(
            rgba_pixels(decoded_rgba(image@, o.width, o.height, o.filter_type)),
            o.width as nat,
            o.height as nat,
            st,
            o2,
        );
    }
    r
}

/// Renders one frame with the configured options.
pub fn make_frame(image: Vec<u8>, o: &FrameOptions) -> (r: Result<String, AsciiError>)
    ensures
        r matches Err(AsciiError::DimensionsNotSet) <==> (o.width == 0 || o.height == 0),
        r matches Err(AsciiError::TooLarge) <==> (o.width != 0 && o.height != 0 && !fits_in_memory(
            o.width,
            o.height,
        )),
        r is Ok <==> renders(image@, *o),
        r matches Ok(s) ==> s@ == frame_text_of(image@, *o, o.threshold),
{
    render_with(image, o, o.threshold)
}

/// Renders a single still image: like a frame, but with no colour
/// compression (threshold 0).
pub fn make_image(image: Vec<u8>, o: &FrameOptions) -> (r: Result<String, AsciiError>)
    ensures
        r matches Err(AsciiError::DimensionsNotSet) <==> (o.width == 0 || o.height == 0),
        r matches Err(AsciiError::TooLarge) <==> (o.width != 0 && o.height != 0 && !fits_in_memory(
            o.width,
            o.height,
        )),
        r is Ok <==> renders(image@, *o),
        r matches Ok(s) ==> s@ == frame_text_of(image@, *o, 0),
{
    render_with(image, o, 0)
}

/// Encodes one source frame: stops when cancellation was requested, then
/// reads the frame number from the file stem, renders the image and
/// compresses the text.
pub fn encode_frame(stop: bool, stem: &str, image: Vec<u8>, o: &FrameOptions) -> (r: Result<
    FrameEntry,
    CompilerError,
>)
    ensures
        r matches Err(CompilerError::Stopped) <==> stop,
        r matches Err(CompilerError::FileStemNan) <==> !stop && !is_frame_number(stem@),
        r matches Err(CompilerError::Ascii(AsciiError::DimensionsNotSet)) <==> !stop
            && is_frame_number(stem@) && (o.width == 0 || o.height == 0),
        r matches Err(CompilerError::Ascii(AsciiError::TooLarge)) <==> !stop && is_frame_number(
            stem@,
        ) && o.width != 0 && o.height != 0 && !fits_in_memory(o.width, o.height),
        r matches Err(CompilerError::Ascii(AsciiError::ImageFormat(_))) <==> !stop
            && is_frame_number(stem@) && o.width != 0 && o.height != 0 && fits_in_memory(
            o.width,
            o.height,
        ) && !image_decodes(image@),
        r matches Err(CompilerError::Container(_)) <==> !stop && is_frame_number(stem@) && renders(
            image@,
            *o,
        ) && !zstd_encodes(frame_bytes(image@, *o), FRAME_LEVEL),
        r is Ok <==> !stop && is_frame_number(stem@) && renders(image@, *o) && zstd_encodes(
            frame_bytes(image@, *o),
            FRAME_LEVEL,
        ),
        r matches Ok(f) ==> f.number as nat == digits_value(number_digits(stem@)) && f.data@
            == zstd_compressed(frame_bytes(image@, *o), FRAME_LEVEL),
{
    if stop {
        return Err(CompilerError::Stopped);
    }
    let number = match parse_frame_number(stem) {
        Some(n) => n,
        None => return Err(CompilerError::FileStemNan),
    };
    let text = match make_frame(image, o) {
        Ok(t) => t,
        Err(e) => return Err(CompilerError::Ascii(e)),
    };
    match compress_frame(number, text.as_str()) {
        Ok(f) => Ok(f),
        Err(e) => Err(CompilerError::Container(e)),
    }
}

} // verus!
