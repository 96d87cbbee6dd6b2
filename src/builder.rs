use vstd::prelude::*;

use crate::charset::Charset;
use crate::color::Pixel;
use crate::render::{frame_text, render_pixels, RenderSettings};
use crate::style::Style;

verus! {

#[verifier::external_type_specification]
#[verifier::external_body]
pub struct ExImageError(image::ImageError);

/// The resampling filter used to resize a source image to the character grid.
#[derive(Debug, Clone, Copy, PartialEq, Eq)]
pub enum FilterType {
    Nearest,
    Triangle,
    CatmullRom,
    Gaussian,
    Lanczos3,
}

/// Errors of rendering an image.
#[derive(Debug)]
pub enum AsciiError {
    /// The image format could not be recognised, or decoding failed.
    ImageFormat(image::ImageError),
    /// A target dimension is zero.
    DimensionsNotSet,
    /// The target grid holds more pixels than memory can address.
    TooLarge,
}

/// Whether a `width` x `height` RGBA buffer fits in memory.
pub open spec fn fits_in_memory(width: u32, height: u32) -> bool {
    4 * width * height <= usize::MAX
}

/// The pixels, as 8-bit RGBA bytes in row-major order, of the image encoded
/// in `bytes` once resized to exactly `width` x `height` with `filter`.
pub uninterp spec fn decoded_rgba(bytes: Seq<u8>, width: u32, height: u32, filter: FilterType) -> Seq<
    u8,
>;

/// Whether a `width` x `height` RGBA buffer fits in memory.
pub fn grid_fits(width: u32, height: u32) -> (r: bool)
    ensures
        r == fits_in_memory(width, height),
{
    let w = width as u128;
    let h = height as u128;
    proof {
        assert(w * h <= 0xffff_ffffu128 * 0xffff_ffffu128) by (nonlinear_arith)
            requires w <= 0xffff_ffffu128, h <= 0xffff_ffffu128;
        assert(4 * w * h == 4 * (w * h)) by (nonlinear_arith);
    }
    4 * (w * h) <= usize::MAX as u128
}

/// Whether `bytes` hold an image that `image::load_from_memory` recognises and decodes.
pub uninterp spec fn image_decodes(bytes: Seq<u8>) -> bool;

/// Relies on `image::load_from_memory` (the format is guessed from the bytes,
/// then decoded), `DynamicImage::resize_exact` (the result has exactly the
/// requested size) and `DynamicImage::into_rgba8` / `ImageBuffer::into_raw`
/// (four bytes per pixel, row-major). Only the decoding can fail; resizing
/// and conversion always succeed.
#[verifier::external_body]
pub(crate) fn decode_resized(bytes: &[u8], width: u32, height: u32, filter: FilterType) -> (r: Result<
    Vec<u8>,
    image::ImageError,
>)
    requires
        4 * width * height <= usize::MAX,
    ensures
        r is Ok <==> image_decodes(bytes@),
        r matches Ok(v) ==> v@ == decoded_rgba(bytes@, width, height, filter) && v@.len() == 4
            * width * height,
{
    let f = match filter {
        FilterType::Nearest => image::imageops::FilterType::Nearest,
        FilterType::Triangle => image::imageops::FilterType::Triangle,
        FilterType::CatmullRom => image::imageops::FilterType::CatmullRom,
        FilterType::Gaussian => image::imageops::FilterType::Gaussian,
        FilterType::Lanczos3 => image::imageops::FilterType::Lanczos3,
    };
    let img = image::load_from_memory(bytes)?;
    Ok(img.resize_exact(width, height, f).into_rgba8().into_raw())
}

/// The pixels of RGBA bytes: four bytes each, alpha dropped.
pub open spec fn rgba_pixels(raw: Seq<u8>) -> Seq<Pixel> {
    Seq::new(
        raw.len() / 4,
        |i: int| Pixel { r: raw[4 * i], g: raw[4 * i + 1], b: raw[4 * i + 2] },
    )
}

/// Groups RGBA bytes into pixels, dropping alpha.
pub fn pixels_from_rgba(raw: &Vec<u8>) -> (r: Vec<Pixel>)
    ensures
        r@ == rgba_pixels(raw@),
{
    let len = raw.len();
    let n = len / 4;
    let mut out: Vec<Pixel> = Vec::new();
    let mut i: usize = 0;
    while i < n
        invariant
            len == raw@.len(),
            n == len / 4,
            i <= n,
            out@ =~= rgba_pixels(raw@).subrange(0, i as int),
        decreases n - i,
    {
        let k = 4 * i;
        out.push(Pixel { r: raw[k], g: raw[k + 1], b: raw[k + 2] });
        i = i + 1;
        assert(out@ =~= rgba_pixels(raw@).subrange(0, i as int));
    }
    out
}

/// The default charset specification.
pub open spec fn default_charset_spec() -> Seq<char> {
    seq!['.', ':', '-', '+', '=', '#', '@']
}

/// Renders one encoded image as text, configured step by step.
pub struct AsciiBuilder {
    image: Vec<u8>,
    dimensions: (u32, u32),
    compression_threshold: u8,
    charset: Charset,
    style: Style,
    colour: bool,
    filter_type: FilterType,
    background_percent: u8,
}

impl AsciiBuilder {
    /// The encoded source image.
    pub closed spec fn image_spec(&self) -> Seq<u8> {
        self.image@
    }

    /// Target columns and rows.
    pub closed spec fn dimensions_spec(&self) -> (u32, u32) {
        self.dimensions
    }

    pub closed spec fn filter_spec(&self) -> FilterType {
        self.filter_type
    }

    /// What the frame is rendered with.
    pub closed spec fn settings_spec(&self) -> RenderSettings {
        RenderSettings {
            charset: self.charset,
            style: self.style,
            colour: self.colour,
            threshold: self.compression_threshold,
            dim_percent: self.background_percent,
        }
    }

    pub open spec fn wf(&self) -> bool {
        self.settings_spec().wf()
    }

    /// A builder for the encoded image `image`, with no dimensions yet, the
    /// charset `.:-+=#@`, no colour, foreground style, nearest-neighbour
    /// resizing, threshold 0 and a background at 20% for the mixed style.
    pub fn new(image: Vec<u8>) -> (r: Self)
        ensures
            r.wf(),
            r.image_spec() == image@,
            r.dimensions_spec() == (0u32, 0u32),
            r.filter_spec() == FilterType::Nearest,
            r.settings_spec().charset.built_from(default_charset_spec()),
            r.settings_spec().style == Style::FgPaint,
            !r.settings_spec().colour,
            r.settings_spec().threshold == 0,
            r.settings_spec().dim_percent == 20,
    {
        let spec = ".:-+=#@";
        proof {
            reveal_strlit(".:-+=#@");
            assert(spec@ =~= default_charset_spec());
        }
        AsciiBuilder {
            image,
            dimensions: (0, 0),
            compression_threshold: 0,
            charset: Charset::mkcharset(spec),
            style: Style::FgPaint,
            colour: false,
            filter_type: FilterType::Nearest,
            background_percent: 20,
        }
    }

    /// Decodes the image, resizes it to the configured dimensions and renders
    /// it as text. Fails with `DimensionsNotSet` exactly when a dimension is
    /// zero, with `TooLarge` exactly when the grid cannot be held in memory,
    /// and otherwise with `ImageFormat` exactly when the image cannot be decoded.
    pub fn make_ascii(self) -> (r: Result<String, AsciiError>)
        requires
            self.wf(),
        ensures
            r matches Err(AsciiError::DimensionsNotSet) <==> (self.dimensions_spec().0 == 0
                || self.dimensions_spec().1 == 0),
            r matches Err(AsciiError::TooLarge) <==> (self.dimensions_spec().0 != 0
                && self.dimensions_spec().1 != 0 && !fits_in_memory(
                self.dimensions_spec().0,
                self.dimensions_spec().1,
            )),
            r is Ok <==> (self.dimensions_spec().0 != 0 && self.dimensions_spec().1 != 0
                && fits_in_memory(self.dimensions_spec().0, self.dimensions_spec().1)
                && image_decodes(self.image_spec())),
            r matches Ok(s) ==> s@ == frame_text(
                rgba_pixels(
                    decoded_rgba(
                        self.image_spec(),
                        self.dimensions_spec().0,
                        self.dimensions_spec().1,
                        self.filter_spec(),
                    ),
                ),
                self.dimensions_spec().0 as nat,
                self.dimensions_spec().1 as nat,
                self.settings_spec(),
            ),
    {
        let (w, h) = self.dimensions;
        if w == 0 || h == 0 {
            return Err(AsciiError::DimensionsNotSet);
        }
        if !grid_fits(w, h) {
            return Err(AsciiError::TooLarge);
        }
        let raw = match decode_resized(self.image.as_slice(), w, h, self.filter_type) {
            Ok(v) => v,
            Err(e) => return Err(AsciiError::ImageFormat(e)),
        };
        let pixels = pixels_from_rgba(&raw);
        proof {
            assert(4 * (w as nat * h as nat) == 4 * w * h) by (nonlinear_arith);
        }
        let settings = RenderSettings {
            charset: self.charset,
            style: self.style,
            colour: self.colour,
            threshold: self.compression_threshold,
            dim_percent: self.background_percent,
        };
        Ok(render_pixels(&pixels, w as usize, h as usize, &settings))
    }

    /// Turns colour output on or off.
    pub fn colorize(self, colorize: bool) -> (r: Self)
        ensures
            r.image_spec() == self.image_spec(),
            r.dimensions_spec() == self.dimensions_spec(),
            r.filter_spec() == self.filter_spec(),
            r.settings_spec() == (RenderSettings { colour: colorize, ..self.settings_spec() }),
    {
        let mut s = self;
        s.colour = colorize;
        s
    }

    /// Sets the number of columns and rows of the output.
    pub fn dimensions(self, width: u32, height: u32) -> (r: Self)
        ensures
            r.image_spec() == self.image_spec(),
            r.dimensions_spec() == (width, height),
            r.filter_spec() == self.filter_spec(),
            r.settings_spec() == self.settings_spec(),
    {
        let mut s = self;
        s.dimensions = (width, height);
        s
    }

    /// Sets the colour compression threshold.
    pub fn threshold(self, threshold: u8) -> (r: Self)
        ensures
            r.image_spec() == self.image_spec(),
            r.dimensions_spec() == self.dimensions_spec(),
            r.filter_spec() == self.filter_spec(),
            r.settings_spec() == (RenderSettings { threshold: threshold, ..self.settings_spec() }),
    {
        let mut s = self;
        s.compression_threshold = threshold;
        s
    }

    /// Replaces the charset by one built from `charset` (see `Charset::mkcharset`).
    pub fn charset(self, charset: &str) -> (r: Self)
        requires
            self.wf(),
        ensures
            r.wf(),
            r.image_spec() == self.image_spec(),
            r.dimensions_spec() == self.dimensions_spec(),
            r.filter_spec() == self.filter_spec(),
            r.settings_spec().charset.built_from(charset@),
            r.settings_spec().style == self.settings_spec().style,
            r.settings_spec().colour == self.settings_spec().colour,
            r.settings_spec().threshold == self.settings_spec().threshold,
            r.settings_spec().dim_percent == self.settings_spec().dim_percent,
    {
        let mut s = self;
        s.charset = Charset::mkcharset(charset);
        s
    }

    /// Sets the colour style.
    pub fn style(self, style: Style) -> (r: Self)
        ensures
            r.image_spec() == self.image_spec(),
            r.dimensions_spec() == self.dimensions_spec(),
            r.filter_spec() == self.filter_spec(),
            r.settings_spec() == (RenderSettings { style: style, ..self.settings_spec() }),
    {
        let mut s = self;
        s.style = style;
        s
    }

    /// Sets the resampling filter.
    pub fn filter_type(self, filter_type: FilterType) -> (r: Self)
        ensures
            r.image_spec() == self.image_spec(),
            r.dimensions_spec() == self.dimensions_spec(),
            r.filter_spec() == filter_type,
            r.settings_spec() == self.settings_spec(),
    {
        let mut s = self;
        s.filter_type = filter_type;
        s
    }

    /// Sets the background brightness of the mixed style, in percent of the
    /// pixel's colour; values above 100 count as 100.
    pub fn background_brightness(self, percent: u8) -> (r: Self)
        ensures
            r.image_spec() == self.image_spec(),
            r.dimensions_spec() == self.dimensions_spec(),
            r.filter_spec() == self.filter_spec(),
            r.settings_spec() == (RenderSettings {
                dim_percent: if percent > 100 { 100 } else { percent },
                ..self.settings_spec()
            }),
    {
        let mut s = self;
        s.background_percent = if percent > 100 { 100 } else { percent };
        s
    }
}

} // verus!
