use vstd::prelude::*;

use crate::builder::{
    decode_resized, decoded_rgba, fits_in_memory, grid_fits, image_decodes, pixels_from_rgba, rgba_pixels, AsciiError, FilterType,
};
use crate::color::Pixel;
use crate::render::{lemma_row_step, row_of};
use crate::style::string_from_chars;

verus! {

/// The width and height of the image encoded in `bytes`.
pub uninterp spec fn image_size(bytes: Seq<u8>) -> (u32, u32);

/// Relies on `image::load_from_memory` and `DynamicImage::width` / `height`:
/// the size of the decoded image; it fails exactly when decoding does.
#[verifier::external_body]
fn decoded_size(bytes: &[u8]) -> (r: Result<(u32, u32), image::ImageError>)
    ensures
        r is Ok <==> image_decodes(bytes@),
        r matches Ok(d) ==> d == image_size(bytes@),
{
    let img = image::load_from_memory(bytes)?;
    Ok((img.width(), img.height()))
}

/// The glyph of the monochrome sketch for a red-channel value.
pub open spec fn sketch_glyph(v: u8) -> char {
    if v <= 20 {
        ' '
    } else if v <= 40 {
        '.'
    } else if v <= 80 {
        ':'
    } else if v <= 100 {
        '-'
    } else if v <= 130 {
        '='
    } else if v <= 200 {
        '+'
    } else if v <= 250 {
        '#'
    } else {
        '@'
    }
}

/// The margin put before each sketch row: twelve spaces.
pub open spec fn sketch_margin() -> Seq<char> {
    Seq::new(12, |i: int| ' ')
}

/// The text of one sketch row: the margin, a glyph per pixel, a newline.
pub open spec fn sketch_row(row: Seq<Pixel>) -> Seq<char> {
    sketch_margin() + row.map_values(|p: Pixel| sketch_glyph(p.r)) + seq!['\n']
}

/// The first `k` rows of a sketch of a grid `width` pixels wide.
pub open spec fn sketch_rows(px: Seq<Pixel>, width: nat, k: nat) -> Seq<char>
    decreases k,
{
    if k == 0 {
        Seq::empty()
    } else {
        sketch_rows(px, width, (k - 1) as nat) + sketch_row(row_of(px, width, (k - 1) as nat))
    }
}

/// The grid size of a sketch of an image of size `(w, h)`: the smaller side
/// divided by 5 across and by 19 down.
pub open spec fn sketch_size(size: (u32, u32)) -> (u32, u32) {
    let s = if size.0 <= size.1 { size.0 } else { size.1 };
    ((s / 5) as u32, (s / 19) as u32)
}

fn sketch_char(v: u8) -> (c: char)
    ensures
        c == sketch_glyph(v),
{
    if v <= 20 {
        ' '
    } else if v <= 40 {
        '.'
    } else if v <= 80 {
        ':'
    } else if v <= 100 {
        '-'
    } else if v <= 130 {
        '='
    } else if v <= 200 {
        '+'
    } else if v <= 250 {
        '#'
    } else {
        '@'
    }
}

/// Sketches a row-major grid of `width` x `height` pixels by the red channel.
pub fn sketch_pixels(pixels: &Vec<Pixel>, width: usize, height: usize) -> (r: String)
    requires
        pixels@.len() == width * height,
    ensures
        r@ == sketch_rows(pixels@, width as nat, height as nat),
{
    let ghost px = pixels@;
    let ghost w = width as nat;
    let n = pixels.len();
    let mut out: Vec<char> = Vec::new();
    let mut y: usize = 0;
    let mut base: usize = 0;
    while y < height
        invariant
            px == pixels@,
            w == width as nat,
            px.len() == width * height,
            n == px.len(),
            y <= height,
            base == y * width,
            out@ == sketch_rows(px, w, y as nat),
        decreases height - y,
    {
        proof {
            lemma_row_step(y as nat, w, height as nat);
        }
        let ghost row = row_of(px, w, y as nat);
        let ghost before = out@ + sketch_margin();
        let mut m: usize = 0;
        while m < 12
            invariant
                m <= 12,
                out@ == before.subrange(0, before.len() - 12 + m),
                before == sketch_rows(px, w, y as nat) + sketch_margin(),
            decreases 12 - m,
        {
            out.push(' ');
            m = m + 1;
            assert(out@ =~= before.subrange(0, before.len() - 12 + m));
        }
        assert(before.subrange(0, before.len() as int) =~= before);
        let mut x: usize = 0;
        while x < width
            invariant
                px == pixels@,
                w == width as nat,
                px.len() == width * height,
                n == px.len(),
                y < height,
                base == y * width,
                base + width <= px.len(),
                row == row_of(px, w, y as nat),
                x <= width,
                out@ == before + row.subrange(0, x as int).map_values(|p: Pixel| sketch_glyph(p.r)),
            decreases width - x,
        {
            let p = pixels[base + x];
            assert(p == row[x as int]);
            out.push(sketch_char(p.r));
            x = x + 1;
            assert(out@ =~= before + row.subrange(0, x as int).map_values(|p: Pixel| sketch_glyph(p.r)));
        }
        out.push('\n');
        assert(row.subrange(0, width as int) =~= row);
        assert(out@ =~= sketch_rows(px, w, (y + 1) as nat));
        y = y + 1;
        base = base + width;
    }
    string_from_chars(&out)
}

/// Sketches an encoded image in monochrome: resized by nearest neighbour to
/// (smaller side / 5) x (smaller side / 19), each row indented by twelve
/// spaces, each pixel a glyph chosen by its red channel.
pub fn process_image(bytes: &[u8]) -> (r: Result<String, AsciiError>)
    ensures
        r matches Err(e) ==> e is ImageFormat || e is TooLarge,
        r is Ok <==> image_decodes(bytes@) && fits_in_memory(
            sketch_size(image_size(bytes@)).0,
            sketch_size(image_size(bytes@)).1,
        ),
        r matches Ok(s) ==> {
            let (w, h) = sketch_size(image_size(bytes@));
            s@ == sketch_rows(
                rgba_pixels(decoded_rgba(bytes@, w, h, FilterType::Nearest)),
                w as nat,
                h as nat,
            )
        },
{
    let size = match decoded_size(bytes) {
        Ok(d) => d,
        Err(e) => return Err(AsciiError::ImageFormat(e)),
    };
    let side = if size.0 <= size.1 { size.0 } else { size.1 };
    let w = side / 5;
    let h = side / 19;
    if !grid_fits(w, h) {
        return Err(AsciiError::TooLarge);
    }
    let raw = match decode_resized(bytes, w, h, FilterType::Nearest) {
        Ok(v) => v,
        Err(e) => return Err(AsciiError::ImageFormat(e)),
    };
    let pixels = pixels_from_rgba(&raw);
    proof {
        assert(4 * (w as nat * h as nat) == 4 * w * h) by (nonlinear_arith);
    }
    Ok(sketch_pixels(&pixels, w as usize, h as usize))
}

} // verus!
