use mpq_folder_win::thumbnail::thumbnail_bgra;
use mpq_folder_win::utils::resize_fit_rgba::{fit_dimensions, resample_nearest, resize_fit_rgba};
use mpq_folder_win::utils::rgba_to_bgra::rgba_to_bgra_with_bg;
use mpq_folder_win::utils::rgba_to_bgra_premul::rgba_to_bgra_premul;

fn image(w: u32, h: u32) -> Vec<u8> {
    let mut v = Vec::new();
    for y in 0..h {
        for x in 0..w {
            v.extend_from_slice(&[x as u8, y as u8, (x + 10 * y) as u8, 255]);
        }
    }
    v
}

#[test]
fn premul_swaps_and_multiplies() {
    assert_eq!(rgba_to_bgra_premul(&[10, 20, 30, 255]), vec![30, 20, 10, 255]);
    assert_eq!(rgba_to_bgra_premul(&[10, 20, 30, 0]), vec![0, 0, 0, 0]);
    assert_eq!(rgba_to_bgra_premul(&[255, 255, 255, 128]), vec![128, 128, 128, 128]);
    assert_eq!(rgba_to_bgra_premul(&[200, 100, 50, 128]), vec![25, 50, 100, 128]);
    assert_eq!(rgba_to_bgra_premul(&[1, 2, 3, 127]), vec![1, 1, 0, 127]);
}

#[test]
fn premul_keeps_length_and_zeroes_the_tail() {
    assert_eq!(rgba_to_bgra_premul(&[]), Vec::<u8>::new());
    assert_eq!(rgba_to_bgra_premul(&[9, 9, 9]), vec![0, 0, 0]);
    assert_eq!(
        rgba_to_bgra_premul(&[1, 2, 3, 255, 4, 5, 6, 255, 7, 8]),
        vec![3, 2, 1, 255, 6, 5, 4, 255, 0, 0]
    );
}

#[test]
fn with_bg_blends_over_background() {
    assert_eq!(rgba_to_bgra_with_bg(&[10, 20, 30, 255], (1, 2, 3)), vec![30, 20, 10, 255]);
    assert_eq!(rgba_to_bgra_with_bg(&[10, 20, 30, 0], (1, 2, 3)), vec![3, 2, 1, 255]);
    assert_eq!(
        rgba_to_bgra_with_bg(&[200, 100, 0, 128], (0, 100, 255)),
        vec![127, 100, 100, 255]
    );
    assert_eq!(rgba_to_bgra_with_bg(&[255, 255, 255, 1], (0, 0, 0)), vec![1, 1, 1, 255]);
}

#[test]
fn with_bg_drops_the_tail() {
    assert_eq!(rgba_to_bgra_with_bg(&[], (0, 0, 0)), Vec::<u8>::new());
    assert_eq!(rgba_to_bgra_with_bg(&[1, 2, 3], (0, 0, 0)), Vec::<u8>::new());
    assert_eq!(
        rgba_to_bgra_with_bg(&[1, 2, 3, 255, 9, 9], (0, 0, 0)),
        vec![3, 2, 1, 255]
    );
}

#[test]
fn fit_dimensions_keep_proportion() {
    assert_eq!(fit_dimensions(200, 100, 50), (50, 25));
    assert_eq!(fit_dimensions(100, 200, 50), (25, 50));
    assert_eq!(fit_dimensions(64, 64, 16), (16, 16));
    assert_eq!(fit_dimensions(300, 200, 100), (100, 66));
    assert_eq!(fit_dimensions(3, 2, 256), (256, 170));
}

#[test]
fn fit_dimensions_are_at_least_one() {
    assert_eq!(fit_dimensions(1000, 1, 10), (10, 1));
    assert_eq!(fit_dimensions(1, 1000, 10), (1, 10));
    assert_eq!(fit_dimensions(8, 4, 0), (1, 1));
    assert_eq!(fit_dimensions(4, 8, 0), (1, 1));
    assert_eq!(fit_dimensions(u32::MAX, u32::MAX, u32::MAX), (u32::MAX, u32::MAX));
    assert_eq!(fit_dimensions(u32::MAX, 1, u32::MAX), (u32::MAX, 1));
}

#[test]
fn resize_halves_by_sampling() {
    let src = image(4, 2);
    let (w, h, out) = resize_fit_rgba(&src, 4, 2, 2);
    assert_eq!((w, h), (2, 1));
    assert_eq!(out, vec![0, 0, 0, 255, 2, 0, 2, 255]);
}

#[test]
fn resize_of_tall_image() {
    let src = image(2, 4);
    let (w, h, out) = resize_fit_rgba(&src, 2, 4, 2);
    assert_eq!((w, h), (1, 2));
    assert_eq!(out, vec![0, 0, 0, 255, 0, 2, 20, 255]);
}

#[test]
fn resize_can_enlarge() {
    let src = image(2, 1);
    let (w, h, out) = resize_fit_rgba(&src, 2, 1, 4);
    assert_eq!((w, h), (4, 2));
    let left = [0u8, 0, 0, 255];
    let right = [1u8, 0, 1, 255];
    let mut expected = Vec::new();
    for _ in 0..2 {
        expected.extend_from_slice(&left);
        expected.extend_from_slice(&left);
        expected.extend_from_slice(&right);
        expected.extend_from_slice(&right);
    }
    assert_eq!(out, expected);
}

#[test]
fn resize_to_same_size_copies() {
    let src = image(3, 3);
    let (w, h, out) = resize_fit_rgba(&src, 3, 3, 3);
    assert_eq!((w, h), (3, 3));
    assert_eq!(out, src);
}

#[test]
fn resample_picks_scaled_pixels() {
    let src = image(3, 3);
    let out = resample_nearest(&src, 3, 3, 2, 2);
    assert_eq!(out, vec![0, 0, 0, 255, 1, 0, 1, 255, 0, 1, 10, 255, 1, 1, 11, 255]);
    let one = resample_nearest(&src, 3, 3, 1, 1);
    assert_eq!(one, vec![0, 0, 0, 255]);
}

#[test]
fn resample_ignores_bytes_behind_the_image() {
    let mut src = image(2, 2);
    src.extend_from_slice(&[99, 99, 99, 99]);
    assert_eq!(resample_nearest(&src, 2, 2, 2, 2), image(2, 2));
}

#[test]
fn thumbnail_of_small_image_keeps_size() {
    let src = vec![10, 20, 30, 128, 1, 2, 3, 255];
    assert_eq!(
        thumbnail_bgra(&src, 2, 1, 16),
        Some((2, 1, vec![15, 10, 5, 128, 3, 2, 1, 255]))
    );
    assert_eq!(
        thumbnail_bgra(&src, 2, 1, 2),
        Some((2, 1, vec![15, 10, 5, 128, 3, 2, 1, 255]))
    );
}

#[test]
fn thumbnail_without_wanted_size_keeps_size() {
    let src = image(4, 4);
    let got = thumbnail_bgra(&src, 4, 4, 0).unwrap();
    assert_eq!((got.0, got.1), (4, 4));
    assert_eq!(got.2, rgba_to_bgra_premul(&src));
}

#[test]
fn thumbnail_of_large_image_is_scaled() {
    let src = image(4, 2);
    assert_eq!(thumbnail_bgra(&src, 4, 2, 2), Some((2, 1, vec![0, 0, 0, 255, 2, 0, 2, 255])));
    let tall = image(2, 4);
    assert_eq!(thumbnail_bgra(&tall, 2, 4, 2), Some((1, 2, vec![0, 0, 0, 255, 20, 2, 0, 255])));
}

#[test]
fn thumbnail_refuses_what_cannot_be_scaled() {
    assert_eq!(thumbnail_bgra(&[], 10, 0, 4), None);
    assert_eq!(thumbnail_bgra(&[], 0, 10, 4), None);
    assert_eq!(thumbnail_bgra(&[0u8; 15], 2, 2, 1), None);
    assert_eq!(thumbnail_bgra(&image(4, 2)[..31], 4, 2, 2), None);
    assert!(thumbnail_bgra(&[0u8; 16], 2, 2, 1).is_some());
}

#[test]
fn thumbnail_keeps_short_buffers_that_need_no_scaling() {
    assert_eq!(thumbnail_bgra(&[1, 2, 3], 8, 8, 8), Some((8, 8, vec![0, 0, 0])));
    assert_eq!(thumbnail_bgra(&[], 0, 0, 5), Some((0, 0, Vec::new())));
}
