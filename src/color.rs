use vstd::prelude::*;

verus! {

/// One pixel sample; only red, green and blue take part in rendering.
#[derive(Debug, Clone, Copy, PartialEq, Eq)]
pub struct Pixel {
    pub r: u8,
    pub g: u8,
    pub b: u8,
}

/// `|a - b|`.
pub open spec fn abs_diff(a: u8, b: u8) -> nat {
    if a >= b { (a - b) as nat } else { (b - a) as nat }
}

/// The largest of three channel values.
pub open spec fn max3(a: nat, b: nat, c: nat) -> nat {
    if a >= b && a >= c { a } else if b >= c { b } else { c }
}

/// The largest per-channel distance between two pixels.
pub open spec fn colour_diff(p: Pixel, q: Pixel) -> nat {
    max3(abs_diff(p.r, q.r), abs_diff(p.g, q.g), abs_diff(p.b, q.b))
}

/// Brightness of a pixel: its largest channel.
pub open spec fn brightness_of(p: Pixel) -> u8 {
    max3(p.r as nat, p.g as nat, p.b as nat) as u8
}

/// The distance between two channel values.
pub fn max_sub(a: u8, b: u8) -> (r: u8)
    ensures
        r as nat == abs_diff(a, b),
{
    if a >= b { a - b } else { b - a }
}

fn max_u8(a: u8, b: u8) -> (r: u8)
    ensures
        r == if a >= b { a } else { b },
{
    if a >= b { a } else { b }
}

/// The largest per-channel distance between two pixels.
pub fn max_colour_diff(p: Pixel, q: Pixel) -> (r: u8)
    ensures
        r as nat == colour_diff(p, q),
{
    max_u8(max_u8(max_sub(p.r, q.r), max_sub(p.g, q.g)), max_sub(p.b, q.b))
}

/// Brightness of a pixel: the largest of its red, green and blue values.
pub fn brightness(p: Pixel) -> (r: u8)
    ensures
        r == brightness_of(p),
{
    max_u8(max_u8(p.r, p.g), p.b)
}

} // verus!
