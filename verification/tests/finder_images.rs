use ocr_lab::finder::bands::get_lines_info;
use ocr_lab::finder::compare::{compare_two_subs, compare_two_subs_optimal};
use ocr_lab::finder::figure::connected_components;
use ocr_lab::finder::filter::{
    clear_image_from_small_symbols, filter_transformed_image, second_filtration,
};
use ocr_lab::finder::imgops::{
    add_two_images, combine_two_images, dilate, intersect_two_images_inplace, intersect_y_images,
};
use ocr_lab::finder::params::Params;
use ocr_lab::finder::plane::Plane;
use ocr_lab::finder::preprocess::{analyse_image, intersect_two_images};
use ocr_lab::finder::single::Single;
use ocr_lab::finder::text_rows::color_filtration;

fn params() -> Params {
    Params::default()
}

/// The fraction as a floating-point number.
fn fraction(s: Single) -> f64 {
    s.mant as f64 / (1u64 << s.shift) as f64
}

fn zeros(h: usize, w: usize) -> Plane {
    Plane::new(h, w, vec![0u8; h * w]).expect("a plane of that size")
}

#[test]
fn params_defaults_match_videosubfinder() {
    let p = params();
    assert_eq!(p.dl, 6);
    assert_eq!(p.segh, 3);
    assert!((fraction(p.tp) - 0.3).abs() < 1e-6);
    assert!((fraction(p.mtpl) - 0.022).abs() < 1e-6);
    assert!((fraction(p.veple) - 0.30).abs() < 1e-6);
    assert!((fraction(p.ilaple) - 0.30).abs() < 1e-6);
    assert_eq!(p.max_dl_down, 20);
    assert_eq!(p.max_dl_up, 40);
}

#[test]
fn lines_info_finds_and_merges() {
    let (w, h) = (40, 40);
    let mut im = vec![0u8; w * h];
    for y in 2..11 {
        for x in 5..30 {
            im[y * w + x] = 255;
        }
    }
    for y in 22..31 {
        for x in 5..30 {
            im[y * w + x] = 255;
        }
    }
    let bands = get_lines_info(&im, w, h, 3);
    assert_eq!(bands.len(), 2);
    assert_eq!(bands[0], (2, 10));
    assert_eq!(bands[1], (22, 30));
}

#[test]
fn near_bands_become_one_band() {
    let (w, h) = (20, 40);
    let mut im = vec![0u8; w * h];
    for y in (2..8).chain(16..25) {
        for x in 5..15 {
            im[y * w + x] = 255;
        }
    }
    // Eight rows without white pixels do not part a low band from another.
    assert_eq!(get_lines_info(&im, w, h, 3), vec![(2, 24)]);
    // A band of seven rows is not low.
    for x in 5..15 {
        im[w + x] = 255;
    }
    assert_eq!(get_lines_info(&im, w, h, 3), vec![(1, 7), (16, 24)]);
}

#[test]
fn high_bands_stay_apart() {
    let im: Vec<u8> = (0..23).map(|y| if (9..14).contains(&y) { 0 } else { 255 }).collect();
    assert_eq!(get_lines_info(&im, 1, 23, 3), vec![(0, 8), (14, 22)]);
    assert_eq!(get_lines_info(&im, 1, 23, 5), vec![(0, 22)]);
}

#[test]
fn an_empty_image_has_no_bands() {
    assert_eq!(get_lines_info(&[0u8; 100], 10, 10, 3), Vec::<(i32, i32)>::new());
}

#[test]
fn compare_same_frames_true() {
    let (w, h) = (40, 30);
    let mut im = vec![0u8; w * h];
    for y in 5..9 {
        for x in 5..30 {
            im[y * w + x] = 255;
        }
    }
    let ve = vec![255u8; w * h];
    let res = compare_two_subs(&im, None, &ve, None, &im, None, &ve, w, h, &params());
    assert!(res);
}

#[test]
fn compare_different_frames_false() {
    let (w, h) = (40, 30);
    let mut im1 = vec![0u8; w * h];
    let mut im2 = vec![0u8; w * h];
    for y in 5..9 {
        for x in 5..20 {
            im1[y * w + x] = 255;
        }
        for x in 20..35 {
            im2[y * w + x] = 255;
        }
    }
    let ve1 = im1.clone();
    let ve2 = im2.clone();
    let res = compare_two_subs(&im1, None, &ve1, None, &im2, None, &ve2, w, h, &params());
    assert!(!res);
}

#[test]
fn compare_optimal_different() {
    let (w, h) = (64, 40);
    let mut im1 = vec![0u8; w * h];
    let mut im2 = vec![0u8; w * h];
    for y in 6..10 {
        for x in 8..40 {
            im1[y * w + x] = 255;
        }
        for x in 30..56 {
            im2[y * w + x] = 255;
        }
    }
    let ve1 = im1.clone();
    let ve2 = im2.clone();
    let res = compare_two_subs_optimal(
        &im1, None, &ve1, None, &im2, None, &ve2, w, h, 0, w as i32 - 1, &params(),
    );
    assert!(!res);
}

#[test]
fn connected_components_finds_8adjacent() {
    let (w, h) = (4, 4);
    let mut im = vec![0u8; w * h];
    im[0] = 255;
    im[w + 1] = 255;
    im[3 * w + 3] = 255;
    let figs = connected_components(&im, w, h, 255);
    assert_eq!(figs.len(), 2);
    assert_eq!(figs[0].points.len(), 2);
    assert_eq!(figs[0].width(), 2);
    assert_eq!(figs[0].height(), 2);
}

#[test]
fn clear_small_symbols_removes_tiny() {
    let (w, h) = (30, 30);
    let mut im = vec![0u8; w * h];
    im[5 * w + 5] = 255;
    for y in 10..14 {
        for x in 10..20 {
            im[y * w + x] = 255;
        }
    }
    let res = clear_image_from_small_symbols(&mut im, w, h, &params());
    assert_eq!(res, 1);
    assert_eq!(im[5 * w + 5], 0);
    assert_eq!(im[11 * w + 15], 255);
}

#[test]
fn second_filtration_removes_low_edge_density() {
    let (w, h) = (64, 20);
    let segh = params().segh;
    let mut im = vec![0u8; w * h];
    for y in 4..(4 + segh) {
        for x in 10..54 {
            im[y * w + x] = 255;
        }
    }
    let im_ne = vec![0u8; w * h];
    let (lb, le) = (vec![0], vec![h as i32 - 1]);
    let mut im2 = im.clone();
    let res = second_filtration(&mut im2, &im_ne, &lb, &le, 1, w, h, &params());
    assert_eq!(res, 0);
    assert!(im2.iter().all(|&v| v == 0));
}

#[test]
fn second_filtration_keeps_high_edge_density() {
    let (w, h) = (64, 20);
    let segh = params().segh;
    let mut im = vec![0u8; w * h];
    for y in 4..(4 + segh) {
        for x in 10..54 {
            im[y * w + x] = 255;
        }
    }
    let mut im_ne = vec![0u8; w * h];
    for y in 4..(4 + segh) {
        for x in 10..54 {
            im_ne[y * w + x] = 255;
        }
    }
    let (lb, le) = (vec![0], vec![h as i32 - 1]);
    let mut im2 = im.clone();
    let res = second_filtration(&mut im2, &im_ne, &lb, &le, 1, w, h, &params());
    assert_eq!(res, 1);
    assert!(im2.iter().any(|&v| v == 255));
}

#[test]
fn filter_transformed_image_pipeline() {
    let (w, h) = (64, 48);
    let mut im_sf = vec![0u8; w * h];
    let mut im_ne = vec![0u8; w * h];
    for y in 20..26 {
        for x in 10..54 {
            if (x - 10) % 8 < 6 {
                im_sf[y * w + x] = 255;
                im_ne[y * w + x] = 255;
            }
        }
    }
    let (lb, le) = (vec![18], vec![28]);
    let mut im_tf = vec![0u8; w * h];
    let res =
        filter_transformed_image(&[], &mut im_sf, &mut im_tf, &im_ne, &lb, &le, 1, w, h, &params());
    assert_eq!(res, 1);
    assert!(im_tf.iter().any(|&v| v == 255));
}

#[test]
fn add_two_images_union() {
    let a = vec![255u8, 0, 0, 255];
    let b = vec![0u8, 255, 0, 255];
    let r = add_two_images(&a, &b, 4);
    assert_eq!(r, vec![255, 255, 0, 255]);
}

#[test]
fn combine_two_images_fills_zeros() {
    let mut a = vec![255u8, 0, 0];
    let b = vec![0u8, 0, 255];
    combine_two_images(&mut a, &b, 255);
    assert_eq!(a, vec![255, 0, 255]);
}

#[test]
fn intersect_inplace_zeroes() {
    let mut a = vec![255u8, 100, 0, 255];
    let b = vec![0u8, 255, 0, 255];
    intersect_two_images_inplace(&mut a, &b, 0u8);
    assert_eq!(a, vec![0, 100, 0, 255]);
}

#[test]
fn intersect_y_images_temporal() {
    let mut a = vec![5u16, 20, 0];
    let b = vec![50u16, 30, 99];
    intersect_y_images(&mut a, &b, 20, 40);
    assert_eq!(a, vec![0, 20, 0]);
}

#[test]
fn color_filtration_no_text_returns_empty() {
    let bgr = vec![128u8; 3 * 40 * 12];
    let (lb, le, n) = color_filtration(&bgr, 40, 12, &params());
    assert_eq!(n, 0);
    assert!(lb.is_empty() && le.is_empty());
}

#[test]
fn color_filtration_detects_contrast_band() {
    let (w, h) = (40, 12);
    let mut bgr = vec![0u8; 3 * w * h];
    for x in 0..w {
        let c: u8 = if x % 2 == 0 { 0 } else { 255 };
        let i = (5 * w + x) * 3;
        bgr[i] = c;
        bgr[i + 1] = c;
        bgr[i + 2] = c;
    }
    let (lb, le, n) = color_filtration(&bgr, w, h, &params());
    assert!(n >= 1);
    assert!(lb[0] <= 5 && 5 <= le[0]);
}

/// Grows the white areas by one pixel in each direction, `iters` times.
fn dilate_reference(im: &[u8], w: usize, h: usize, iters: i32) -> Vec<u8> {
    let mut cur = im.to_vec();
    for _ in 0..iters.max(0) {
        let mut next = cur.clone();
        for y in 0..h {
            for x in 0..w {
                if cur[y * w + x] != 0 {
                    for dy in -1..=1i32 {
                        for dx in -1..=1i32 {
                            let nx = x as i32 + dx;
                            let ny = y as i32 + dy;
                            if nx >= 0 && ny >= 0 && nx < w as i32 && ny < h as i32 {
                                next[ny as usize * w + nx as usize] = 255;
                            }
                        }
                    }
                }
            }
        }
        cur = next;
    }
    cur
}

#[test]
fn dilate_matches_reference() {
    for &(w, h) in &[(3, 3), (5, 4), (17, 9), (32, 20), (64, 40)] {
        for &iters in &[1i32, 2, 3, 6] {
            let mut seed = (w * 31 + h * 7 + iters as usize) as u32;
            let mut im = vec![0u8; w * h];
            for v in im.iter_mut() {
                seed = seed.wrapping_mul(1664525).wrapping_add(1013904223);
                if (seed >> 16) % 10 == 0 {
                    *v = 255;
                }
            }
            let r1 = dilate(&im, w, h, iters);
            let r2 = dilate_reference(&im, w, h, iters);
            assert_eq!(r1, r2, "w={} h={} iters={}", w, h, iters);

            let all_white = vec![255u8; w * h];
            assert_eq!(dilate(&all_white, w, h, iters), dilate_reference(&all_white, w, h, iters));
            let all_black = vec![0u8; w * h];
            assert_eq!(dilate(&all_black, w, h, iters), dilate_reference(&all_black, w, h, iters));
        }
    }
}

#[test]
fn dilating_twice_adds_the_rounds_up() {
    let (w, h) = (12, 9);
    let mut im = vec![0u8; w * h];
    im[4 * w + 5] = 255;
    im[w] = 255;
    let once = dilate(&im, w, h, 2);
    assert_eq!(dilate(&once, w, h, 1), dilate(&im, w, h, 3));
    for (a, b) in [(0, 0), (0, 2), (2, 0), (1, 3), (3, 2)] {
        assert_eq!(dilate(&dilate(&im, w, h, a), w, h, b), dilate(&im, w, h, a + b));
    }
}

#[test]
fn intersect_keeps_common_nonzero() {
    let a = Plane::new(2, 4, vec![255u8; 8]).unwrap();
    let mut b = zeros(2, 4);
    for y in 0..2 {
        for x in 0..2 {
            b.set(y, x, 255);
        }
    }
    let out = intersect_two_images(&a, &b);
    for y in 0..2 {
        for x in 0..2 {
            assert_eq!(out.get(y, x), 255, "({},{})", y, x);
        }
        for x in 2..4 {
            assert_eq!(out.get(y, x), 0, "({},{})", y, x);
        }
    }
}

#[test]
fn analyse_no_text_when_blank() {
    let frame = zeros(9, 20);
    assert!(!analyse_image(&frame, &params()));
}

#[test]
fn analyse_detects_wide_text_row() {
    let (h, w) = (9, 200);
    let mut frame = zeros(h, w);
    for y in 3..6 {
        for x in 4..196 {
            frame.set(y, x, 255);
        }
    }
    assert!(analyse_image(&frame, &params()));
}

#[test]
fn analyse_rejects_tiny_noise() {
    let (h, w) = (9, 200);
    let mut frame = zeros(h, w);
    for y in 3..6 {
        frame.set(y, 5, 255);
    }
    assert!(!analyse_image(&frame, &params()));
}

#[test]
fn subtitles_compare_the_same_in_either_order() {
    let (w, h) = (40, 20);
    let p = params();
    let draw = |a: usize, b: usize, m: usize| {
        let mut im = vec![0u8; w * h];
        for y in 4..14 {
            for x in a..b {
                if (x + y) % m != 0 {
                    im[y * w + x] = 255;
                }
            }
        }
        im
    };
    let sides = [draw(5, 30, 5), draw(5, 30, 4), draw(7, 33, 5), draw(20, 38, 3)];
    let mut same = 0;
    for a in &sides {
        for b in &sides {
            let r = compare_two_subs(a, None, a, None, b, None, b, w, h, &p);
            assert_eq!(r, compare_two_subs(b, None, b, None, a, None, a, w, h, &p));
            let retried = compare_two_subs_optimal(a, None, a, None, b, None, b, w, h, 0, 9, &p);
            assert!(!r || retried);
            same += r as i32;
        }
    }
    assert!((4..16).contains(&same));
    let none = vec![0u8; w * h];
    assert!(!compare_two_subs(&none, None, &none, None, &none, None, &none, w, h, &p));
}

#[test]
fn filtering_again_changes_nothing() {
    let (w, h) = (64, 20);
    for step in 1..30 {
        let im: Vec<u8> = (0..w * h).map(|i| if i * step % 13 < 6 { 255 } else { 0 }).collect();
        let ne: Vec<u8> = (0..w * h).map(|i| if i * 5 % 7 < 4 { 255 } else { 0 }).collect();
        let mut once = im.clone();
        let first = second_filtration(&mut once, &ne, &[0], &[h as i32 - 1], 1, w, h, &params());
        let mut twice = once.clone();
        let again = second_filtration(&mut twice, &ne, &[0], &[h as i32 - 1], 1, w, h, &params());
        assert_eq!(again, first);
        assert_eq!(twice, once);
        // Text is found just where a white pixel is left.
        assert_eq!(first == 1, once.contains(&255));
    }
}

#[test]
fn filtering_adds_no_pixels() {
    let (w, h) = (64, 20);
    let im: Vec<u8> = (0..w * h).map(|i| if i * 7 % 11 < 6 { 255 } else { 0 }).collect();
    let ne: Vec<u8> = (0..w * h).map(|i| if i * 5 % 7 < 3 { 255 } else { 0 }).collect();
    let mut out = im.clone();
    second_filtration(&mut out, &ne, &[0], &[h as i32 - 1], 1, w, h, &params());
    assert!(out.iter().zip(&im).all(|(a, b)| a == b || *a == 0));
}
