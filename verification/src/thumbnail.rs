//! The pixels of a thumbnail: a decoded RGBA image, scaled down where it is
//! larger than asked for, as BGRA with premultiplied alpha.

use vstd::prelude::*;
use crate::utils::resize_fit_rgba::{fit_dimensions, fit_height, fit_width, resample_nearest, sampled};
use crate::utils::rgba_to_bgra_premul::{premul, rgba_to_bgra_premul};

verus! {

/// Whether an image of `w` by `h` pixels has to be scaled down for a
/// thumbnail of `cx` pixels: a size is asked for, and a side is longer.
pub open spec fn needs_fit(w: u32, h: u32, cx: u32) -> bool {
    cx > 0 && (w > cx || h > cx)
}

/// Whether an image can be scaled: it has pixels, its buffer holds them
/// all, and the scaled image is no larger than a buffer can be.
pub open spec fn can_fit(rgba: Seq<u8>, w: u32, h: u32, cx: u32) -> bool {
    &&& w > 0
    &&& h > 0
    &&& rgba.len() >= w as int * h as int * 4
    &&& fit_width(w, h, cx) * fit_height(w, h, cx) * 4 <= usize::MAX
}

/// The thumbnail of an image: width, height and premultiplied BGRA pixels.
/// An image that is not larger than asked for keeps its size. `None` where
/// the image would have to be scaled and cannot be.
pub open spec fn thumbnail_of(rgba: Seq<u8>, w: u32, h: u32, cx: u32) -> Option<(u32, u32, Seq<u8>)> {
    if !needs_fit(w, h, cx) {
        Some((w, h, premul(rgba)))
    } else if can_fit(rgba, w, h, cx) {
        let tw = fit_width(w, h, cx);
        let th = fit_height(w, h, cx);
        Some((tw as u32, th as u32, premul(sampled(rgba, w as int, h as int, tw, th))))
    } else {
        None
    }
}

/// Makes the pixels of a thumbnail of `cx` pixels from a decoded RGBA
/// image of `w` by `h` pixels.
pub fn thumbnail_bgra(rgba: &[u8], w: u32, h: u32, cx: u32) -> (thumbnail: Option<(u32, u32, Vec<u8>)>)
    ensures
        match (thumbnail, thumbnail_of(rgba@, w, h, cx)) {
            (Some(made), Some(wanted)) => made.0 == wanted.0 && made.1 == wanted.1 && made.2@
                == wanted.2,
            (None, None) => true,
            _ => false,
        },
{
    if !(cx > 0 && (w > cx || h > cx)) {
        return Some((w, h, rgba_to_bgra_premul(rgba)));
    }
    if w == 0 || h == 0 {
        return None;
    }
    assert(w as int * h as int <= 0xFFFF_FFFF * 0xFFFF_FFFF) by (nonlinear_arith)
        requires
            0 <= w as int <= 0xFFFF_FFFF,
            0 <= h as int <= 0xFFFF_FFFF,
    ;
    let pixels: u64 = w as u64 * h as u64;
    if ((rgba.len() / 4) as u64) < pixels {
        return None;
    }
    let (tw, th) = fit_dimensions(w, h, cx);
    assert(tw as int * th as int <= 0xFFFF_FFFF * 0xFFFF_FFFF) by (nonlinear_arith)
        requires
            0 <= tw as int <= 0xFFFF_FFFF,
            0 <= th as int <= 0xFFFF_FFFF,
    ;
    let fitted_pixels: u64 = tw as u64 * th as u64;
    if fitted_pixels > (usize::MAX / 4) as u64 {
        return None;
    }
    let fitted = resample_nearest(rgba, w, h, tw, th);
    Some((tw, th, rgba_to_bgra_premul(fitted.as_slice())))
}

} // verus!
