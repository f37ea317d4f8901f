//! RGBA pixels to opaque BGRA pixels over a background colour.

use vstd::prelude::*;

verus! {

/// A colour value laid over a background value with the given alpha.
pub open spec fn blended(colour: u8, alpha: u8, background: u8) -> u8 {
    ((colour as int * alpha as int + background as int * (255 - alpha as int)) / 255) as u8
}

/// The byte at index `i` of the opaque BGRA form of `rgba` over the
/// background `bg`, given as red, green and blue.
pub open spec fn blended_byte(rgba: Seq<u8>, bg: (u8, u8, u8), i: int) -> u8 {
    let p = i / 4;
    if i % 4 == 0 {
        blended(rgba[4 * p + 2], rgba[4 * p + 3], bg.2)
    } else if i % 4 == 1 {
        blended(rgba[4 * p + 1], rgba[4 * p + 3], bg.1)
    } else if i % 4 == 2 {
        blended(rgba[4 * p], rgba[4 * p + 3], bg.0)
    } else {
        0xFF
    }
}

/// The opaque BGRA form of `rgba` over the background `bg`: as many bytes
/// as the whole pixels of `rgba` have.
pub open spec fn blended_over(rgba: Seq<u8>, bg: (u8, u8, u8)) -> Seq<u8> {
    Seq::new(((rgba.len() / 4) * 4) as nat, |i: int| blended_byte(rgba, bg, i))
}

pub fn blend(colour: u8, alpha: u8, background: u8) -> (r: u8)
    ensures
        r == blended(colour, alpha, background),
{
    assert(0 <= colour as int * alpha as int + background as int * (255 - alpha as int) <= 65025)
        by (nonlinear_arith)
        requires
            0 <= colour as int <= 255,
            0 <= alpha as int <= 255,
            0 <= background as int <= 255,
    ;
    assert(0 <= colour as int * alpha as int <= 65025) by (nonlinear_arith)
        requires
            0 <= colour as int <= 255,
            0 <= alpha as int <= 255,
    ;
    assert(0 <= background as int * (255 - alpha as int) <= 65025) by (nonlinear_arith)
        requires
            0 <= alpha as int <= 255,
            0 <= background as int <= 255,
    ;
    let inverse: u32 = 255 - alpha as u32;
    ((colour as u32 * alpha as u32 + background as u32 * inverse) / 255) as u8
}

/// Converts RGBA pixels to opaque BGRA pixels: each whole pixel is laid
/// over the background colour `bg` (red, green, blue) by its alpha, and
/// gets full alpha. Bytes behind the last whole pixel are dropped.
pub fn rgba_to_bgra_with_bg(rgba: &[u8], bg: (u8, u8, u8)) -> (out: Vec<u8>)
    ensures
        out@ == blended_over(rgba@, bg),
{
    let (bg_r, bg_g, bg_b) = bg;
    let len = rgba.len();
    let pixels = len / 4;
    let mut out: Vec<u8> = Vec::new();
    let mut p: usize = 0;
    while p < pixels
        invariant
            p <= pixels,
            pixels == rgba@.len() / 4,
            len == rgba@.len(),
            bg == (bg_r, bg_g, bg_b),
            out@.len() == 4 * p,
            forall|i: int| 0 <= i < out@.len() ==> #[trigger] out@[i] == blended_byte(rgba@, bg, i),
        decreases pixels - p,
    {
        let r = rgba[p * 4];
        let g = rgba[p * 4 + 1];
        let b = rgba[p * 4 + 2];
        let a = rgba[p * 4 + 3];
        out.push(blend(b, a, bg_b));
        out.push(blend(g, a, bg_g));
        out.push(blend(r, a, bg_r));
        out.push(0xFF);
        p += 1;
    }
    assert(out@ =~= blended_over(rgba@, bg));
    out
}

} // verus!
