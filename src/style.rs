use vstd::prelude::*;

use crate::color::Pixel;

verus! {

/// How colour is applied to a rendered cell.
#[derive(Debug, Clone, Copy, PartialEq, Eq)]
pub enum Style {
    /// The glyph itself is painted; glyphs vary with brightness.
    FgPaint,
    /// The cell background is painted; glyphs vary with brightness.
    BgPaint,
    /// Only the background is painted and every glyph is a space.
    BgOnly,
    /// The glyph is painted with the pixel and the background with the pixel
    /// dimmed by a factor, which doubles the escape sequences per cell.
    Mixed,
}

/// The decimal digit for `d < 10`.
pub open spec fn digit_char(d: nat) -> char {
    if d == 0 { '0' }
    else if d == 1 { '1' }
    else if d == 2 { '2' }
    else if d == 3 { '3' }
    else if d == 4 { '4' }
    else if d == 5 { '5' }
    else if d == 6 { '6' }
    else if d == 7 { '7' }
    else if d == 8 { '8' }
    else { '9' }
}

/// The decimal text of `n`, without leading zeros.
pub open spec fn decimal(n: nat) -> Seq<char>
    decreases n,
{
    if n < 10 {
        seq![digit_char(n)]
    } else {
        decimal(n / 10).push(digit_char(n % 10))
    }
}

/// `r;g;bm`: the colour part of a truecolour escape sequence.
pub open spec fn rgb_text(p: Pixel) -> Seq<char> {
    decimal(p.r as nat) + seq![';'] + decimal(p.g as nat) + seq![';'] + decimal(p.b as nat)
        + seq!['m']
}

/// A channel scaled by `percent / 100`, rounded down.
pub open spec fn dim_channel(c: u8, percent: u8) -> u8 {
    (c as nat * percent as nat / 100) as u8
}

/// A pixel with each channel scaled by `percent / 100`.
pub open spec fn dim_pixel(p: Pixel, percent: u8) -> Pixel {
    Pixel { r: dim_channel(p.r, percent), g: dim_channel(p.g, percent), b: dim_channel(p.b, percent) }
}

/// The digit that selects foreground (3) or background (4) in `ESC [ x 8 ; 2 ;`.
pub open spec fn ansi_spec(s: Style) -> char {
    match s {
        Style::FgPaint => '3',
        _ => '4',
    }
}

/// `ESC [ x 8 ; 2 ;` for selector digit `x`.
pub open spec fn truecolour_prefix(x: char) -> Seq<char> {
    seq!['\x1b', '[', x, '8', ';', '2', ';']
}

/// The escape sequence that resets all attributes: `ESC [ 0 m`.
pub open spec fn reset_text() -> Seq<char> {
    seq!['\x1b', '[', '0', 'm']
}

/// The text of a cell that sets a new colour: the escape sequence(s) of the
/// style for pixel `p`, then the glyph `c`.
pub open spec fn colorize_spec(s: Style, c: char, p: Pixel, percent: u8) -> Seq<char> {
    match s {
        Style::Mixed => truecolour_prefix('3') + rgb_text(p) + truecolour_prefix('4') + rgb_text(
            dim_pixel(p, percent),
        ) + seq![c],
        _ => truecolour_prefix(ansi_spec(s)) + rgb_text(p) + seq![c],
    }
}

fn digit(d: u8) -> (c: char)
    requires
        d < 10,
    ensures
        c == digit_char(d as nat),
{
    if d == 0 { '0' }
    else if d == 1 { '1' }
    else if d == 2 { '2' }
    else if d == 3 { '3' }
    else if d == 4 { '4' }
    else if d == 5 { '5' }
    else if d == 6 { '6' }
    else if d == 7 { '7' }
    else if d == 8 { '8' }
    else { '9' }
}

/// Appends the decimal text of `n`.
pub fn push_decimal(out: &mut Vec<char>, n: u64)
    ensures
        final(out)@ == old(out)@ + decimal(n as nat),
    decreases n,
{
    if n >= 10 {
        push_decimal(out, n / 10);
    }
    out.push(digit((n % 10) as u8));
    proof {
        if n < 10 {
            assert(n % 10 == n);
        }
        assert(final(out)@ =~= old(out)@ + decimal(n as nat));
    }
}

/// Appends every character of `s`.
pub fn push_chars(out: &mut Vec<char>, s: &[char])
    ensures
        final(out)@ == old(out)@ + s@,
{
    let mut i: usize = 0;
    while i < s.len()
        invariant
            i <= s@.len(),
            out@ == old(out)@ + s@.subrange(0, i as int),
        decreases s@.len() - i,
    {
        out.push(s[i]);
        i = i + 1;
        assert(out@ =~= old(out)@ + s@.subrange(0, i as int));
    }
    assert(s@.subrange(0, s@.len() as int) =~= s@);
}

fn push_truecolour_prefix(out: &mut Vec<char>, x: char)
    ensures
        final(out)@ == old(out)@ + truecolour_prefix(x),
{
    let s: [char; 7] = ['\x1b', '[', x, '8', ';', '2', ';'];
    push_chars(out, &s);
    assert(s@ =~= truecolour_prefix(x));
}

/// Appends `ESC [ 0 m`.
pub fn push_reset(out: &mut Vec<char>)
    ensures
        final(out)@ == old(out)@ + reset_text(),
{
    let s: [char; 4] = ['\x1b', '[', '0', 'm'];
    push_chars(out, &s);
    assert(s@ =~= reset_text());
}

fn push_rgb(out: &mut Vec<char>, p: Pixel)
    ensures
        final(out)@ == old(out)@ + rgb_text(p),
{
    push_decimal(out, p.r as u64);
    out.push(';');
    push_decimal(out, p.g as u64);
    out.push(';');
    push_decimal(out, p.b as u64);
    out.push('m');
    assert(out@ =~= old(out)@ + rgb_text(p));
}

/// Scales each channel of `p` by `percent / 100`, rounding down.
pub fn reduce_brightness(p: Pixel, percent: u8) -> (r: Pixel)
    requires
        percent <= 100,
    ensures
        r == dim_pixel(p, percent),
{
    proof {
        assert(p.r as nat * percent as nat / 100 <= 255) by (nonlinear_arith)
            requires p.r <= 255, percent <= 100;
        assert(p.g as nat * percent as nat / 100 <= 255) by (nonlinear_arith)
            requires p.g <= 255, percent <= 100;
        assert(p.b as nat * percent as nat / 100 <= 255) by (nonlinear_arith)
            requires p.b <= 255, percent <= 100;
    }
    Pixel {
        r: ((p.r as u32) * (percent as u32) / 100) as u8,
        g: ((p.g as u32) * (percent as u32) / 100) as u8,
        b: ((p.b as u32) * (percent as u32) / 100) as u8,
    }
}

/// Appends the colour-setting text of a cell.
pub fn push_colorized(out: &mut Vec<char>, style: Style, c: char, p: Pixel, percent: u8)
    requires
        percent <= 100,
    ensures
        final(out)@ == old(out)@ + colorize_spec(style, c, p, percent),
{
    match style {
        Style::Mixed => {
            push_truecolour_prefix(out, '3');
            push_rgb(out, p);
            push_truecolour_prefix(out, '4');
            push_rgb(out, reduce_brightness(p, percent));
        },
        _ => {
            push_truecolour_prefix(out, style.ansi());
            push_rgb(out, p);
        },
    }
    out.push(c);
    assert(out@ =~= old(out)@ + colorize_spec(style, c, p, percent));
}

/// Builds a string holding exactly the given characters.
pub(crate) fn string_from_chars(v: &Vec<char>) -> (s: String)
    ensures
        s@ == v@,
{
    let mut s = String::new();
    let mut i: usize = 0;
    while i < v.len()
        invariant
            i <= v@.len(),
            s@ == v@.subrange(0, i as int),
        decreases v@.len() - i,
    {
        append_char(&mut s, v[i]);
        i = i + 1;
        assert(s@ =~= v@.subrange(0, i as int));
    }
    assert(v@.subrange(0, v@.len() as int) =~= v@);
    s
}

/// Relies on `String::push`: the character is appended at the end.
#[verifier::external_body]
fn append_char(s: &mut String, c: char)
    ensures
        final(s)@ == old(s)@.push(c),
{
    s.push(c)
}

impl Style {
    /// The selector digit of a single-colour style: 3 for foreground, 4 for background.
    pub fn ansi(self) -> (r: char)
        ensures
            r == ansi_spec(self),
    {
        match self {
            Style::FgPaint => '3',
            _ => '4',
        }
    }

    /// `r;g;bm` for a pixel.
    pub fn rgb_to_string(p: Pixel) -> (r: String)
        ensures
            r@ == rgb_text(p),
    {
        let mut out: Vec<char> = Vec::new();
        push_rgb(&mut out, p);
        assert(out@ =~= rgb_text(p));
        string_from_chars(&out)
    }

    /// The escape sequence(s) that paint a cell in this style with pixel `p`,
    /// followed by the glyph `c`. For `Mixed` the background is the pixel
    /// scaled by `percent / 100` (clamped to 100).
    pub fn colorize(&self, c: char, p: Pixel, percent: u8) -> (r: String)
        ensures
            r@ == colorize_spec(*self, c, p, if percent > 100 { 100 } else { percent }),
    {
        let pct = if percent > 100 { 100 } else { percent };
        let mut out: Vec<char> = Vec::new();
        push_colorized(&mut out, *self, c, p, pct);
        assert(out@ =~= colorize_spec(*self, c, p, pct));
        string_from_chars(&out)
    }
}

} // verus!
