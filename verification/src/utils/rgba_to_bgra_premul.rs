//! RGBA pixels to BGRA pixels whose colours are multiplied by alpha.

use vstd::prelude::*;

verus! {

/// A colour value multiplied by an alpha value, rounded to the nearest
/// whole value.
pub open spec fn premultiplied(colour: u8, alpha: u8) -> u8 {
    ((colour as int * alpha as int + 127) / 255) as u8
}

/// The byte at index `i` of the premultiplied BGRA form of `rgba`: in each
/// whole pixel blue and red change places and the colours are multiplied
/// by alpha; the bytes behind the last whole pixel are zero.
pub open spec fn premul_byte(rgba: Seq<u8>, i: int) -> u8 {
    let p = i / 4;
    if i >= (rgba.len() / 4) * 4 {
        0
    } else if i % 4 == 0 {
        premultiplied(rgba[4 * p + 2], rgba[4 * p + 3])
    } else if i % 4 == 1 {
        premultiplied(rgba[4 * p + 1], rgba[4 * p + 3])
    } else if i % 4 == 2 {
        premultiplied(rgba[4 * p], rgba[4 * p + 3])
    } else {
        rgba[4 * p + 3]
    }
}

/// The premultiplied BGRA form of `rgba`.
pub open spec fn premul(rgba: Seq<u8>) -> Seq<u8> {
    Seq::new(rgba.len(), |i: int| premul_byte(rgba, i))
}

pub fn premultiply(colour: u8, alpha: u8) -> (r: u8)
    ensures
        r == premultiplied(colour, alpha),
{
    assert((colour as int * alpha as int + 127) / 255 <= 255) by (nonlinear_arith)
        requires
            0 <= colour as int <= 255,
            0 <= alpha as int <= 255,
    ;
    assert(0 <= colour as int * alpha as int <= 65025) by (nonlinear_arith)
        requires
            0 <= colour as int <= 255,
            0 <= alpha as int <= 255,
    ;
    ((colour as u32 * alpha as u32 + 127) / 255) as u8
}

/// Converts RGBA pixels to BGRA pixels with premultiplied alpha. The
/// result is as long as the input; bytes behind the last whole pixel are
/// zero.
pub fn rgba_to_bgra_premul(rgba: &[u8]) -> (out: Vec<u8>)
    ensures
        out@ == premul(rgba@),
{
    let len = rgba.len();
    let pixels = len / 4;
    let mut out: Vec<u8> = Vec::new();
    let mut p: usize = 0;
    while p < pixels
        invariant
            p <= pixels,
            pixels == rgba@.len() / 4,
            len == rgba@.len(),
            out@.len() == 4 * p,
            forall|i: int| 0 <= i < out@.len() ==> #[trigger] out@[i] == premul_byte(rgba@, i),
        decreases pixels - p,
    {
        let r = rgba[p * 4];
        let g = rgba[p * 4 + 1];
        let b = rgba[p * 4 + 2];
        let a = rgba[p * 4 + 3];
        out.push(premultiply(b, a));
        out.push(premultiply(g, a));
        out.push(premultiply(r, a));
        out.push(a);
        p += 1;
    }
    while out.len() < len
        invariant
            len == rgba@.len(),
            pixels == rgba@.len() / 4,
            4 * pixels <= out@.len() <= rgba@.len(),
            forall|i: int| 0 <= i < out@.len() ==> #[trigger] out@[i] == premul_byte(rgba@, i),
        decreases rgba@.len() - out@.len(),
    {
        out.push(0);
    }
    assert(out@ =~= premul(rgba@));
    out
}

} // verus!
