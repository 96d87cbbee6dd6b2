use vstd::prelude::*;

use crate::charset::Charset;
use crate::color::{brightness, brightness_of, colour_diff, max_colour_diff, Pixel};
use crate::style::{
    colorize_spec, push_colorized, push_reset, reset_text, string_from_chars, Style,
};

verus! {

/// What a frame is rendered with, besides its pixels.
#[derive(Debug, Clone)]
pub struct RenderSettings {
    pub charset: Charset,
    pub style: Style,
    /// Whether colour escape sequences are emitted at all.
    pub colour: bool,
    /// A new colour is emitted only when some channel moved by more than this.
    pub threshold: u8,
    /// Background brightness of `Style::Mixed`, in percent of the pixel.
    pub dim_percent: u8,
}

impl RenderSettings {
    pub open spec fn wf(&self) -> bool {
        self.charset.wf() && self.dim_percent <= 100
    }
}

/// The glyph shown in a cell: a space in background-only colour mode, else
/// the charset's glyph for the pixel's brightness.
pub open spec fn cell_glyph(o: RenderSettings, p: Pixel) -> char {
    if o.colour && o.style == Style::BgOnly {
        ' '
    } else {
        o.charset.glyph_spec(brightness_of(p))
    }
}

/// The colour last emitted before cell `k` of a row. Each row starts afresh,
/// so for `k == 0` the value plays no part.
pub open spec fn last_before(row: Seq<Pixel>, k: nat, t: u8) -> Pixel
    decreases k,
{
    if k == 0 {
        row[0]
    } else {
        let prev = last_before(row, (k - 1) as nat, t);
        if k - 1 == 0 || colour_diff(row[k - 1], prev) > t {
            row[k - 1]
        } else {
            prev
        }
    }
}

/// Whether cell `k` of a row emits a colour sequence: it is the first cell of
/// the row, or its colour is more than `t` away from the last emitted colour
/// in some channel.
pub open spec fn emits(row: Seq<Pixel>, k: nat, t: u8) -> bool {
    k == 0 || colour_diff(row[k as int], last_before(row, k, t)) > t
}

/// The text of cell `k` of a row.
pub open spec fn cell_text(row: Seq<Pixel>, k: nat, o: RenderSettings) -> Seq<char> {
    let c = cell_glyph(o, row[k as int]);
    if o.colour && emits(row, k, o.threshold) {
        colorize_spec(o.style, c, row[k as int], o.dim_percent)
    } else {
        seq![c]
    }
}

/// The text of the first `k` cells of a row.
pub open spec fn row_cells(row: Seq<Pixel>, k: nat, o: RenderSettings) -> Seq<char>
    decreases k,
{
    if k == 0 {
        Seq::empty()
    } else {
        row_cells(row, (k - 1) as nat, o) + cell_text(row, (k - 1) as nat, o)
    }
}

/// The text of a whole row: its cells, then a reset sequence in colour mode.
pub open spec fn row_text(row: Seq<Pixel>, o: RenderSettings) -> Seq<char> {
    row_cells(row, row.len(), o) + if o.colour {
        reset_text()
    } else {
        Seq::empty()
    }
}

/// Row `y` of a row-major pixel grid `width` cells wide.
pub open spec fn row_of(px: Seq<Pixel>, width: nat, y: nat) -> Seq<Pixel> {
    px.subrange((y * width) as int, (y * width + width) as int)
}

/// The separator put before row `y`: none before the first row, a newline before the others.
pub open spec fn row_separator(y: nat) -> Seq<char> {
    if y == 0 {
        Seq::empty()
    } else {
        seq!['\n']
    }
}

/// The text of the first `k` rows of a frame.
pub open spec fn frame_rows(px: Seq<Pixel>, width: nat, k: nat, o: RenderSettings) -> Seq<char>
    decreases k,
{
    if k == 0 {
        Seq::empty()
    } else {
        frame_rows(px, width, (k - 1) as nat, o) + row_separator((k - 1) as nat) + row_text(
            row_of(px, width, (k - 1) as nat),
            o,
        )
    }
}

/// The rendered text of a `width` x `height` frame.
pub open spec fn frame_text(px: Seq<Pixel>, width: nat, height: nat, o: RenderSettings) -> Seq<
    char,
> {
    frame_rows(px, width, height, o)
}

proof fn lemma_diff_zero(p: Pixel, q: Pixel)
    ensures
        colour_diff(p, q) == 0 <==> p == q,
        colour_diff(p, q) <= 255,
{
}

proof fn lemma_last_before_zero(row: Seq<Pixel>, k: nat)
    requires
        1 <= k <= row.len(),
    ensures
        last_before(row, k, 0) == row[k - 1],
    decreases k,
{
    if k > 1 {
        lemma_last_before_zero(row, (k - 1) as nat);
        lemma_diff_zero(row[k - 1], row[k - 2]);
    }
}

/// With threshold 0 there is no compression: a cell emits a colour sequence
/// exactly when it starts its row or its colour differs from its left
/// neighbour (an identical colour is already the active one).
pub proof fn lemma_threshold_zero_emits_every_change(row: Seq<Pixel>, k: nat)
    requires
        k < row.len(),
    ensures
        emits(row, k, 0) <==> (k == 0 || row[k as int] != row[k - 1]),
{
    if k > 0 {
        lemma_last_before_zero(row, k);
        lemma_diff_zero(row[k as int], row[k - 1]);
    }
}

/// With threshold 255 only the first cell of each row emits a colour
/// sequence, since no two 8-bit channels differ by more than 255.
pub proof fn lemma_threshold_max_emits_first_only(row: Seq<Pixel>, k: nat)
    requires
        k < row.len(),
    ensures
        emits(row, k, 255) <==> k == 0,
{
    lemma_diff_zero(row[k as int], last_before(row, k, 255));
}

/// When a cell has just emitted its colour, a right neighbour within `t` of
/// it in every channel emits no new sequence.
pub proof fn lemma_close_neighbour_reuses_colour(row: Seq<Pixel>, k: nat, t: u8)
    requires
        1 <= k < row.len(),
        emits(row, (k - 1) as nat, t),
        colour_diff(row[k as int], row[k - 1]) <= t,
    ensures
        !emits(row, k, t),
{
}

/// Colour compression never changes what a cell shows: the text of a cell
/// is either its glyph alone or a colour sequence followed by that glyph,
/// and the glyph is the same whatever the threshold.
pub proof fn lemma_threshold_keeps_glyphs(row: Seq<Pixel>, k: nat, o: RenderSettings, t: u8)
    requires
        k < row.len(),
    ensures
        cell_text(row, k, o).last() == cell_glyph(o, row[k as int]),
        cell_text(row, k, RenderSettings { threshold: t, ..o }).last() == cell_glyph(
            o,
            row[k as int],
        ),
        cell_text(row, k, o) == seq![cell_glyph(o, row[k as int])] || cell_text(row, k, o)
            == colorize_spec(o.style, cell_glyph(o, row[k as int]), row[k as int], o.dim_percent),
{
    let c = cell_glyph(o, row[k as int]);
    let p = row[k as int];
    let o2 = RenderSettings { threshold: t, ..o };
    assert(cell_glyph(o2, p) == c);
    assert(colorize_spec(o.style, c, p, o.dim_percent).last() == c);
    assert(colorize_spec(o2.style, c, p, o2.dim_percent).last() == c);
}

/// Settings that differ at most in their charset, whose glyphs agree on every brightness.
pub open spec fn same_but_charset(o1: RenderSettings, o2: RenderSettings) -> bool {
    &&& o1.style == o2.style
    &&& o1.colour == o2.colour
    &&& o1.threshold == o2.threshold
    &&& o1.dim_percent == o2.dim_percent
    &&& forall|b: u8| o1.charset.glyph_spec(b) == o2.charset.glyph_spec(b)
}

proof fn lemma_row_cells_charset(row: Seq<Pixel>, k: nat, o1: RenderSettings, o2: RenderSettings)
    requires
        same_but_charset(o1, o2),
        k <= row.len(),
    ensures
        row_cells(row, k, o1) == row_cells(row, k, o2),
    decreases k,
{
    if k > 0 {
        lemma_row_cells_charset(row, (k - 1) as nat, o1, o2);
        let p = row[k - 1];
        assert(cell_glyph(o1, p) == cell_glyph(o2, p));
        assert(cell_text(row, (k - 1) as nat, o1) == cell_text(row, (k - 1) as nat, o2));
    }
}

/// The rendered text depends on the charset only through its glyphs.
pub proof fn lemma_frame_text_charset(
    px: Seq<Pixel>,
    width: nat,
    k: nat,
    o1: RenderSettings,
    o2: RenderSettings,
)
    requires
        same_but_charset(o1, o2),
    ensures
        frame_rows(px, width, k, o1) == frame_rows(px, width, k, o2),
    decreases k,
{
    if k > 0 {
        lemma_frame_text_charset(px, width, (k - 1) as nat, o1, o2);
        let row = row_of(px, width, (k - 1) as nat);
        lemma_row_cells_charset(row, row.len(), o1, o2);
    }
}

pub(crate) proof fn lemma_row_step(y: nat, w: nat, h: nat)
    requires
        y < h,
    ensures
        (y + 1) * w == y * w + w,
        y * w + w <= h * w,
        h * w == w * h,
{
    assert(h * w == w * h) by (nonlinear_arith);
    assert((y + 1) * w == y * w + w) by (nonlinear_arith);
    assert(y * w + w <= h * w) by (nonlinear_arith)
        requires y < h;
}

/// Renders a row-major grid of `width` x `height` pixels as text: rows are
/// separated by newlines, each cell shows the charset's glyph for its
/// brightness, and in colour mode a cell emits a colour sequence when it is
/// first in its row or its colour moved by more than the threshold from the
/// last emitted one; each row then ends with a reset sequence.
pub fn render_pixels(pixels: &Vec<Pixel>, width: usize, height: usize, o: &RenderSettings) -> (r:
    String)
    requires
        o.wf(),
        pixels@.len() == width * height,
    ensures
        r@ == frame_text(pixels@, width as nat, height as nat, *o),
{
    let ghost px = pixels@;
    let ghost w = width as nat;
    let n = pixels.len();
    let mut out: Vec<char> = Vec::new();
    let mut y: usize = 0;
    let mut base: usize = 0;
    while y < height
        invariant
            o.wf(),
            px == pixels@,
            w == width as nat,
            px.len() == width * height,
            n == px.len(),
            y <= height,
            base == y * width,
            out@ == frame_rows(px, w, y as nat, *o),
        decreases height - y,
    {
        proof {
            lemma_row_step(y as nat, w, height as nat);
        }
        let ghost row = row_of(px, w, y as nat);
        let ghost before = out@ + row_separator(y as nat);
        if y > 0 {
            out.push('\n');
        }
        assert(out@ =~= before + row_cells(row, 0, *o));
        let mut last: Pixel = if width > 0 { pixels[base] } else { Pixel { r: 0, g: 0, b: 0 } };
        let mut x: usize = 0;
        while x < width
            invariant
                o.wf(),
                px == pixels@,
                w == width as nat,
                px.len() == width * height,
                n == px.len(),
                y < height,
                base == y * width,
                base + width <= px.len(),
                row == row_of(px, w, y as nat),
                x <= width,
                out@ == before + row_cells(row, x as nat, *o),
                o.colour && x > 0 ==> last == last_before(row, x as nat, o.threshold),
            decreases width - x,
        {
            let p = pixels[base + x];
            assert(p == row[x as int]);
            let glyph = o.charset.match_char(brightness(p));
            if !o.colour {
                out.push(glyph);
            } else {
                let c = match o.style {
                    Style::BgOnly => ' ',
                    _ => glyph,
                };
                if x == 0 || max_colour_diff(p, last) > o.threshold {
                    push_colorized(&mut out, o.style, c, p, o.dim_percent);
                    last = p;
                } else {
                    out.push(c);
                }
            }
            assert(o.colour ==> last == last_before(row, (x + 1) as nat, o.threshold));
            assert(out@ =~= before + row_cells(row, (x + 1) as nat, *o));
            x = x + 1;
        }
        if o.colour {
            push_reset(&mut out);
        }
        assert(row.len() == w);
        assert(out@ =~= frame_rows(px, w, (y + 1) as nat, *o));
        y = y + 1;
        base = base + width;
    }
    string_from_chars(&out)
}

} // verus!
