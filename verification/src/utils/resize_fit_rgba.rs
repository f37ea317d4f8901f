//! Scaling of RGBA images by nearest-neighbour sampling.

use vstd::prelude::*;
use vstd::arithmetic::div_mod::lemma_fundamental_div_mod_converse;
use vstd::arithmetic::mul::lemma_mul_is_commutative;

verus! {

/// `n`, but 1 where `n` is 0.
pub open spec fn at_least_one(n: int) -> int {
    if n < 1 {
        1
    } else {
        n
    }
}

/// The width of an image of `sw` by `sh` pixels once its longer side is
/// scaled to `cx` pixels. No side becomes shorter than 1.
pub open spec fn fit_width(sw: u32, sh: u32, cx: u32) -> int {
    if sw >= sh {
        at_least_one(cx as int)
    } else {
        at_least_one((sw as int * at_least_one(cx as int)) / (sh as int))
    }
}

/// The height of an image of `sw` by `sh` pixels once its longer side is
/// scaled to `cx` pixels. No side becomes shorter than 1.
pub open spec fn fit_height(sw: u32, sh: u32, cx: u32) -> int {
    if sw >= sh {
        at_least_one((sh as int * at_least_one(cx as int)) / (sw as int))
    } else {
        at_least_one(cx as int)
    }
}

/// The byte at index `i` of the image of `tw` by `th` pixels that samples
/// the image `src` of `sw` by `sh` pixels: the pixel at column `x` and row
/// `y` is the source pixel at column `x * sw / tw` and row `y * sh / th`.
pub open spec fn sampled_byte(src: Seq<u8>, sw: int, sh: int, tw: int, th: int, i: int) -> u8 {
    let pixel = i / 4;
    let y = pixel / tw;
    let x = pixel % tw;
    let sy = (y * sh) / th;
    let sx = (x * sw) / tw;
    src[(sy * sw + sx) * 4 + i % 4]
}

/// The image of `tw` by `th` pixels that samples the image `src` of `sw` by
/// `sh` pixels.
pub open spec fn sampled(src: Seq<u8>, sw: int, sh: int, tw: int, th: int) -> Seq<u8> {
    Seq::new((tw * th * 4) as nat, |i: int| sampled_byte(src, sw, sh, tw, th, i))
}

/// A scaled coordinate stays inside the source: `v * from / to < from`
/// for `v < to`.
pub proof fn lemma_scaled_in_range(v: int, from: int, to: int)
    requires
        0 <= v < to,
        0 < from,
    ensures
        0 <= (v * from) / to < from,
{
    assert(0 <= v * from) by (nonlinear_arith)
        requires
            0 <= v,
            0 < from,
    ;
    assert(v * from < from * to) by (nonlinear_arith)
        requires
            0 <= v < to,
            0 < from,
    ;
    assert((v * from) / to < from) by (nonlinear_arith)
        requires
            0 <= v * from < from * to,
            0 < to,
    ;
    assert(0 <= (v * from) / to) by (nonlinear_arith)
        requires
            0 <= v * from,
            0 < to,
    ;
}

/// The index of a pixel inside an image of `w` by `h` pixels is below
/// `w * h`, and gives back its column and its row.
pub proof fn lemma_pixel_index(x: int, y: int, w: int, h: int)
    requires
        0 <= x < w,
        0 <= y < h,
    ensures
        0 <= y * w + x < w * h,
        (y * w + x) / w == y,
        (y * w + x) % w == x,
{
    assert(y * w + x < w * h && 0 <= y * w) by (nonlinear_arith)
        requires
            0 <= x < w,
            0 <= y < h,
    ;
    lemma_mul_is_commutative(y, w);
    lemma_fundamental_div_mod_converse(y * w + x, w, y, x);
}

/// The size of an image once its longer side is scaled to `cx` pixels, as
/// width and height.
pub fn fit_dimensions(sw: u32, sh: u32, cx: u32) -> (size: (u32, u32))
    requires
        sw > 0,
        sh > 0,
    ensures
        size.0 == fit_width(sw, sh, cx),
        size.1 == fit_height(sw, sh, cx),
        size.0 >= 1,
        size.1 >= 1,
{
    let long: u32 = if cx < 1 {
        1
    } else {
        cx
    };
    if sw >= sh {
        assert(sh as int * long as int <= sw as int * long as int) by (nonlinear_arith)
            requires
                sh <= sw,
                0 <= long,
        ;
        assert((sh as int * long as int) / (sw as int) <= long as int) by (nonlinear_arith)
            requires
                0 <= sh as int * long as int <= sw as int * long as int,
                0 < sw,
        ;
        assert(0 <= (sh as int * long as int) / (sw as int)) by (nonlinear_arith)
            requires
                0 <= sh as int * long as int,
                0 < sw,
        ;
        assert(sh as int * long as int <= 0xFFFF_FFFF * 0xFFFF_FFFF) by (nonlinear_arith)
            requires
                0 <= sh as int <= 0xFFFF_FFFF,
                0 <= long as int <= 0xFFFF_FFFF,
        ;
        let short: u64 = (sh as u64 * long as u64) / (sw as u64);
        (long, if short < 1 { 1 } else { short as u32 })
    } else {
        assert(sw as int * long as int <= sh as int * long as int) by (nonlinear_arith)
            requires
                sw <= sh,
                0 <= long,
        ;
        assert((sw as int * long as int) / (sh as int) <= long as int) by (nonlinear_arith)
            requires
                0 <= sw as int * long as int <= sh as int * long as int,
                0 < sh,
        ;
        assert(0 <= (sw as int * long as int) / (sh as int)) by (nonlinear_arith)
            requires
                0 <= sw as int * long as int,
                0 < sh,
        ;
        assert(sw as int * long as int <= 0xFFFF_FFFF * 0xFFFF_FFFF) by (nonlinear_arith)
            requires
                0 <= sw as int <= 0xFFFF_FFFF,
                0 <= long as int <= 0xFFFF_FFFF,
        ;
        let short: u64 = (sw as u64 * long as u64) / (sh as u64);
        (if short < 1 { 1 } else { short as u32 }, long)
    }
}

/// Samples the image `src` of `sw` by `sh` RGBA pixels into an image of
/// `tw` by `th` pixels: each pixel of the result is the source pixel at
/// the scaled column and row.
pub fn resample_nearest(src: &[u8], sw: u32, sh: u32, tw: u32, th: u32) -> (out: Vec<u8>)
    requires
        sw > 0,
        sh > 0,
        tw > 0,
        th > 0,
        src@.len() >= sw as int * sh as int * 4,
        tw as int * th as int * 4 <= usize::MAX,
    ensures
        out@ == sampled(src@, sw as int, sh as int, tw as int, th as int),
{
    let len = src.len();
    let mut out: Vec<u8> = Vec::new();
    let mut y: u32 = 0;
    while y < th
        invariant
            y <= th,
            sw > 0,
            sh > 0,
            tw > 0,
            th > 0,
            len == src@.len(),
            src@.len() >= sw as int * sh as int * 4,
            tw as int * th as int * 4 <= usize::MAX,
            out@.len() == (y as int * tw as int) * 4,
            forall|i: int|
                0 <= i < out@.len() ==> #[trigger] out@[i] == sampled_byte(
                    src@,
                    sw as int,
                    sh as int,
                    tw as int,
                    th as int,
                    i,
                ),
        decreases th - y,
    {
        proof {
            lemma_scaled_in_range(y as int, sh as int, th as int);
            assert(y as int * sh as int <= 0xFFFF_FFFF * 0xFFFF_FFFF) by (nonlinear_arith)
                requires
                    0 <= y as int <= 0xFFFF_FFFF,
                    0 <= sh as int <= 0xFFFF_FFFF,
            ;
        }
        let sy: u64 = (y as u64 * sh as u64) / (th as u64);
        let mut x: u32 = 0;
        while x < tw
            invariant
                x <= tw,
                y < th,
                sw > 0,
                sh > 0,
                tw > 0,
                th > 0,
                len == src@.len(),
                sy == (y as int * sh as int) / (th as int),
                0 <= sy < sh,
                src@.len() >= sw as int * sh as int * 4,
                tw as int * th as int * 4 <= usize::MAX,
                out@.len() == (y as int * tw as int + x as int) * 4,
                forall|i: int|
                    0 <= i < out@.len() ==> #[trigger] out@[i] == sampled_byte(
                        src@,
                        sw as int,
                        sh as int,
                        tw as int,
                        th as int,
                        i,
                    ),
            decreases tw - x,
        {
            proof {
                lemma_scaled_in_range(x as int, sw as int, tw as int);
                assert(x as int * sw as int <= 0xFFFF_FFFF * 0xFFFF_FFFF) by (nonlinear_arith)
                    requires
                        0 <= x as int <= 0xFFFF_FFFF,
                        0 <= sw as int <= 0xFFFF_FFFF,
                ;
                lemma_pixel_index(
                    (x as int * sw as int) / (tw as int),
                    sy as int,
                    sw as int,
                    sh as int,
                );
                lemma_pixel_index(x as int, y as int, tw as int, th as int);
            }
            let sx: u64 = (x as u64 * sw as u64) / (tw as u64);
            let pixel: usize = sy as usize * sw as usize + sx as usize;
            let si: usize = pixel * 4;
            let ghost before = out@;
            out.push(src[si]);
            out.push(src[si + 1]);
            out.push(src[si + 2]);
            out.push(src[si + 3]);
            proof {
                let base = (y as int * tw as int + x as int) * 4;
                assert forall|i: int| 0 <= i < out@.len() implies #[trigger] out@[i]
                    == sampled_byte(src@, sw as int, sh as int, tw as int, th as int, i) by {
                    if i < base {
                        assert(out@[i] == before[i]);
                    } else {
                        assert(i / 4 == y as int * tw as int + x as int);
                        assert(i % 4 == i - base);
                    }
                }
            }
            x += 1;
        }
        assert((y as int * tw as int + tw as int) * 4 == ((y + 1) as int * tw as int) * 4)
            by (nonlinear_arith);
        y += 1;
    }
    assert((th as int * tw as int) * 4 == tw as int * th as int * 4) by (nonlinear_arith);
    assert(out@ =~= sampled(src@, sw as int, sh as int, tw as int, th as int));
    out
}

/// Scales an RGBA image of `sw` by `sh` pixels so that its longer side is
/// `cx` pixels (1 where `cx` is 0) and the other side keeps the
/// proportion, no shorter than 1. The result is the new width, the new
/// height and the sampled pixels.
pub fn resize_fit_rgba(src: &[u8], sw: u32, sh: u32, cx: u32) -> (fitted: (u32, u32, Vec<u8>))
    requires
        sw > 0,
        sh > 0,
        src@.len() >= sw as int * sh as int * 4,
        fit_width(sw, sh, cx) * fit_height(sw, sh, cx) * 4 <= usize::MAX,
    ensures
        fitted.0 == fit_width(sw, sh, cx),
        fitted.1 == fit_height(sw, sh, cx),
        fitted.2@ == sampled(src@, sw as int, sh as int, fitted.0 as int, fitted.1 as int),
{
    let (tw, th) = fit_dimensions(sw, sh, cx);
    let out = resample_nearest(src, sw, sh, tw, th);
    (tw, th, out)
}

} // verus!
