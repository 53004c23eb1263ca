//! The colour pattern that fills the display before the first generation is
//! drawn.

use vstd::prelude::*;

verus! {

/// The colour of pixel (x, y) of the pattern, as red, green and blue packed
/// into 16 bits: red in the low bits, green from bit 6 and blue from bit 11.
/// Each channel mixes the low five bits of the two coordinates with their
/// coarse position and with `modifier`.
pub open spec fn pattern_color(x: u16, y: u16, modifier: u16) -> u16 {
    let fine = (x & 0x1F) ^ (y & 0x1F);
    let red = fine ^ (x >> 3) ^ modifier;
    let green = fine ^ (y >> 3) ^ modifier;
    let blue = fine ^ (x >> 3) ^ (y >> 3) ^ modifier;
    red | (green << 6) | (blue << 11)
}

/// Computes the colour of pixel (x, y) of the pattern.
pub fn boot_color(x: u16, y: u16, modifier: u16) -> (color: u16)
    ensures
        color == pattern_color(x, y, modifier),
{
    let xr: u16 = x & 0b11111;
    let yr: u16 = y & 0b11111;
    let xs: u16 = x >> 3;
    let ys: u16 = y >> 3;
    let l: u16 = xr ^ yr;
    let r: u16 = l ^ xs ^ modifier;
    let g: u16 = l ^ ys ^ modifier;
    let b: u16 = l ^ xs ^ ys ^ modifier;
    r | (g << 6) | (b << 11)
}

} // verus!
