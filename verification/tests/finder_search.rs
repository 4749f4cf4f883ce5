use std::collections::VecDeque;

use ocr_lab::finder::cache::{FrameCache, FrameData};
use ocr_lab::finder::clock::{frame_time, total_duration};
use ocr_lab::finder::edges::{
    align_bands, average_edges, band_offsets, border_clear, combine_edges, easy_border_clear,
    finish_image, gather_bands, mark_edges, no_text, spread_bands, sum_edges,
};
use ocr_lab::finder::filter::{
    analize_for_sub_presence, extend_imf_with_data_from_imnf, filter_by_not_intersected_figures,
};
use ocr_lab::finder::lines::{find_busy_rows, find_text_lines};
use ocr_lab::finder::output::{
    file_name, json_text, report, timeline_text, Interval, OutputMode,
};
use ocr_lab::finder::params::Params;
use ocr_lab::finder::plane::{
    array3_to_flat_bgr, array3_to_flat_rgb, flat_bgr_to_array3, Plane,
};
use ocr_lab::finder::run::run_state_machine;
use ocr_lab::finder::runs::find_runs;
use ocr_lab::finder::single::{round_to_24_bits, Single};
use ocr_lab::finder::state::{
    analyse_image_flat, intersect_images_range, intersect_y_images_range, Search,
};
use ocr_lab::finder::strip::{is_too_right, part31};
use ocr_lab::finder::synthetic::{
    fingerprint, make_bgr_frame, make_edge_dense, make_gray_frame, make_text_frame, H, SIZE, W,
};
use ocr_lab::finder::threshold::find_and_apply_local_thresholding;
use ocr_lab::finder::transform::{get_im_ff, get_im_he, get_im_ne, get_transformed_image};

const FW: usize = 64;
const FH: usize = 48;

/// Stripes of text in the middle of six rows from `top` on, or nothing.
fn stripes(top: Option<usize>) -> Vec<u8> {
    let mut im = vec![0u8; FW * FH];
    for y in top.into_iter().flat_map(|t| t..t + 6) {
        for x in 10..54 {
            if (x - 10) % 8 < 6 {
                im[y * FW + x] = 255;
            }
        }
    }
    im
}

fn frame(pos: i64, top: Option<usize>) -> FrameData {
    let im = stripes(top);
    let has = top.is_some();
    let luma = vec![200u8; FW * FH];
    FrameData::new(vec![(pos % 251) as u8; FW * FH * 3], im.clone(), im, &luma, pos, has)
}

/// A video with a frame every 33 milliseconds; `top` tells where the text of
/// each frame begins.
fn video(n: i64, top: fn(i64) -> Option<usize>) -> VecDeque<FrameData> {
    (0..n).map(|k| frame(33 * k, top(k))).collect()
}

#[test]
fn one_subtitle_is_found_once() {
    let frames = video(60, |k| if (10..40).contains(&k) { Some(20) } else { None });
    let ks = run_state_machine(frames, FW, FH, &Params::default()).unwrap();
    let times: Vec<(u64, u64)> = ks.iter().map(|k| (k.start_ms, k.end_ms)).collect();
    assert_eq!(times, vec![(330, 1319)]);
    assert_eq!(ks[0].mask.dim(), (FH, FW));
    assert_eq!(ks[0].frame.dim(), (FH, FW));
}

#[test]
fn two_subtitles_are_told_apart() {
    let frames = video(80, |k| {
        if (10..35).contains(&k) {
            Some(20)
        } else if (35..60).contains(&k) {
            Some(34)
        } else {
            None
        }
    });
    let ks = run_state_machine(frames, FW, FH, &Params::default()).unwrap();
    let times: Vec<(u64, u64)> = ks.iter().map(|k| (k.start_ms, k.end_ms)).collect();
    assert_eq!(times, vec![(330, 989), (1155, 1979)]);
}

#[test]
fn times_of_subtitles_do_not_overlap() {
    // Half of the first text stays when it changes.
    let frames = (0..80i64)
        .map(|k| {
            let mut im = stripes(if (10..60).contains(&k) { Some(26) } else { None });
            if (10..35).contains(&k) {
                for (a, b) in im.iter_mut().zip(stripes(Some(20))) {
                    *a = (*a).max(b);
                }
            }
            let has = im.contains(&255);
            let luma = im.clone();
            let bgr = vec![0u8; FW * FH * 3];
            FrameData::new(bgr, im.clone(), im, &luma, 33 * k, has)
        })
        .collect();
    let ks = run_state_machine(frames, FW, FH, &Params::default()).unwrap();
    let times: Vec<(u64, u64)> = ks.iter().map(|k| (k.start_ms, k.end_ms)).collect();
    assert_eq!(times, vec![(330, 1154), (1156, 1979)]);
}

#[test]
fn a_video_without_text_has_no_subtitles() {
    let frames = video(40, |_| None);
    assert!(run_state_machine(frames, FW, FH, &Params::default()).unwrap().is_empty());
    let none: VecDeque<FrameData> = VecDeque::new();
    assert!(run_state_machine(none, FW, FH, &Params::default()).unwrap().is_empty());
}

#[test]
fn a_short_video_has_no_subtitles() {
    let frames = video(5, |_| Some(20));
    assert!(run_state_machine(frames, FW, FH, &Params::default()).unwrap().is_empty());
}

#[test]
fn a_flicker_is_no_subtitle() {
    let frames = video(40, |k| if (10..13).contains(&k) { Some(20) } else { None });
    assert!(run_state_machine(frames, FW, FH, &Params::default()).unwrap().is_empty());
}

#[test]
fn a_subtitle_at_the_end_of_the_video_is_kept() {
    let frames = video(40, |k| if k >= 12 { Some(20) } else { None });
    let ks = run_state_machine(frames, FW, FH, &Params::default()).unwrap();
    let times: Vec<(u64, u64)> = ks.iter().map(|k| (k.start_ms, k.end_ms)).collect();
    assert_eq!(times, vec![(396, 1287)]);
}

#[test]
fn the_mask_of_a_subtitle_is_white_where_its_text_is() {
    let frames = video(60, |k| if (10..40).contains(&k) { Some(20) } else { None });
    let ks = run_state_machine(frames, FW, FH, &Params::default()).unwrap();
    let text = stripes(Some(20));
    for y in 0..FH {
        for x in 0..FW {
            let v = ks[0].mask.get(y, x);
            assert!(v == 0 || v == 255);
            assert!(v == 0 || text[y * FW + x] == 255);
        }
    }
    assert_eq!(ks[0].mask.get(22, 12), 255);
    // The picture is the third frame of the subtitle.
    assert_eq!(array3_to_flat_bgr(&ks[0].frame)[0], (33 * 12 % 251) as u8);
}

#[test]
fn the_window_keeps_recent_frames() {
    let p = Params::default();
    let mut cache = FrameCache::new(&p);
    assert!(cache.is_empty());
    assert!(cache.wants(3));
    for k in 0..40 {
        cache.push(frame(33 * k, None), FW, FH);
    }
    assert!(!cache.wants(39));
    assert!(cache.wants(40));
    cache.trim(40);
    assert_eq!(cache.len(), 40);
    assert_eq!((cache.w(), cache.h()), (FW, FH));
    assert_eq!(cache.params().dl, 6);
    // The last twenty frames are kept, and those before them are gone.
    assert!(cache.try_frame(19).is_none());
    assert_eq!(cache.try_frame(20).unwrap().pos, 660);
    assert_eq!(cache.try_frame(39).unwrap().pos, 1287);
    assert!(cache.try_frame(40).is_none());
    assert!(cache.try_frame(-1).is_none());
}

#[test]
fn a_search_starts_at_the_first_frame() {
    let s = Search::new(FW, FH);
    assert_eq!(s.target(), 18);
    assert!(s.into_keyframes().is_empty());
}

#[test]
fn text_needs_steady_brightness() {
    let p = Params::default();
    let im = stripes(Some(21));
    let bright = vec![300u16; FW * FH];
    let dark = vec![0u16; FW * FH];
    assert!(analyse_image_flat(&im, None, FW, FH, &p));
    assert!(analyse_image_flat(&im, Some(&bright), FW, FH, &p));
    assert!(!analyse_image_flat(&im, Some(&dark), FW, FH, &p));
}

#[test]
fn only_pixels_common_to_all_frames_stay() {
    let mut res = vec![255u8, 255, 255, 7];
    let a: &[u8] = &[255, 0, 255, 0];
    let b: &[u8] = &[255, 255, 0, 0];
    intersect_images_range(&mut res, &[a, b], 0, 1, 2, 2);
    assert_eq!(res, vec![255, 0, 0, 7]);

    let mut y = vec![100u16, 100, 100, 0];
    let c: &[u16] = &[80, 79, 140, 9];
    let d: &[u16] = &[120, 100, 141, 9];
    intersect_y_images_range(&mut y, &[c, d], 0, 1, &Params::default());
    assert_eq!(y, vec![100, 0, 0, 0]);
}

#[test]
fn figures_without_a_mark_go() {
    let (w, h) = (6, 3);
    let mut im = vec![0u8; w * h];
    im[0] = 255;
    im[w + 1] = 255;
    im[5] = 255;
    let mut mask = vec![0u8; w * h];
    mask[w + 1] = 255;
    filter_by_not_intersected_figures(&mut im, &mask, w, h);
    assert_eq!((im[0], im[w + 1], im[5]), (255, 255, 0));
}

#[test]
fn text_lines_take_pixels_of_a_second_image() {
    let (w, h) = (5, 3);
    let mut im = vec![0u8; w * h];
    im[1] = 255;
    im[3] = 255;
    let mut more = vec![0u8; w * h];
    more[2] = 9;
    more[4] = 9;
    extend_imf_with_data_from_imnf(&mut im, &more, w, h);
    assert_eq!(&im[..5], &[0, 255, 255, 255, 0]);
}

#[test]
fn subtitles_are_present_or_not() {
    let p = Params::default();
    let ne = stripes(Some(20));
    let il = vec![300u16; FW * FH];
    let mut isa = stripes(Some(20));
    assert_eq!(analize_for_sub_presence(&ne, &mut isa, &il, FW, FH, &p), 1);
    assert!(isa.iter().any(|&v| v == 255));
    let nothing = vec![0u8; FW * FH];
    let mut isa = stripes(Some(20));
    assert_eq!(analize_for_sub_presence(&nothing, &mut isa, &il, FW, FH, &p), 0);
    assert!(isa.iter().all(|&v| v == 0));
}

#[test]
fn rows_and_boxes_of_text() {
    let (w, h) = (6, 5);
    let mut im = vec![0u8; w * h];
    im[w + 2] = 1;
    im[2 * w + 4] = 1;
    im[4 * w] = 1;
    assert_eq!(find_busy_rows(&im, w, h), vec![false, true, true, false, true]);
    let lines = find_text_lines(&im, w, h);
    assert_eq!(lines.len(), 2);
    let l = &lines[0];
    assert_eq!((l.top, l.bottom, l.left, l.right), (1, 2, 2, 4));
    let l = &lines[1];
    assert_eq!((l.top, l.bottom, l.left, l.right), (4, 4, 0, 0));
}

#[test]
fn runs_are_maximal() {
    assert_eq!(find_runs(&[false, true, true, false, true]), vec![(1, 2), (4, 4)]);
    assert_eq!(find_runs(&[]), Vec::<(i32, i32)>::new());
}

#[test]
fn fractions_round_as_single_precision_does() {
    for (x, s) in [
        (0.3f32, Single { mant: 10_066_330, shift: 25 }),
        (0.022, Single { mant: 11_811_160, shift: 29 }),
        (0.05, Single { mant: 13_421_773, shift: 28 }),
        (0.1, Single { mant: 13_421_773, shift: 27 }),
    ] {
        for n in [0u32, 1, 3, 10, 200, 720, 1280, 1919, 16_777_217, 2_000_000_001] {
            assert_eq!(s.part(n), (x * n as f32) as u64, "{} * {}", x, n);
        }
        assert!(s.is_above(1, 100) == (1.0 < x * 100.0));
    }
    assert_eq!(round_to_24_bits(16_777_217), 16_777_216);
    assert_eq!(round_to_24_bits(16_777_219), 16_777_220);
    assert_eq!(part31(Single { mant: 10_066_330, shift: 25 }, 1280), 384);
}

#[test]
fn a_fraction_is_exceeded_by_a_larger_quotient() {
    let third = Single { mant: 10_066_330, shift: 25 };
    assert!(third.is_exceeded_by(31, 100));
    assert!(!third.is_exceeded_by(29, 100));
    assert!(is_too_right(60, 70, 20, 50));
    assert!(!is_too_right(30, 70, 20, 50));
}

#[test]
fn borders_are_blanked() {
    let mut im = vec![7u8; 12];
    easy_border_clear(&mut im, 4, 3);
    assert_eq!(im, vec![0, 0, 0, 0, 0, 7, 7, 0, 0, 0, 0, 0]);
    let mut im = vec![7u16; 25];
    border_clear(&mut im, 2, 5, 5);
    assert_eq!(im.iter().filter(|&&v| v == 7).count(), 1);
    assert_eq!(im[12], 7);
    let mut im = vec![7u8; 600 * 600];
    border_clear(&mut im, 299, 600, 600);
    assert_eq!(im.iter().filter(|&&v| v == 7).count(), 4);
}

#[test]
fn edges_of_three_planes_are_weighted() {
    let (y, u, v) = (vec![1u16; 9], vec![2u16; 9], vec![3u16; 9]);
    assert_eq!(sum_edges(&y, &u, &v, 2, 3, 3), vec![0, 0, 0, 0, 11, 0, 0, 0, 0]);
    // No 32 rows, so nothing is too weak.
    assert_eq!(combine_edges(&y, &u, &v, 2, 3, 3), vec![0, 0, 0, 0, 11, 0, 0, 0, 0]);
    let mut a = vec![0u16; 25];
    a[12] = 9;
    a[6] = 9;
    let b = vec![4u16; 25];
    let m = average_edges(&a, &b, 5, 5);
    assert_eq!(m[12], 6);
    assert_eq!(m[6], 0);
    let e = mark_edges(&a, &vec![0u16; 25], 5, 5);
    assert_eq!(e.iter().filter(|&&v| v == 255).count(), 2);
    assert_eq!((e[6], e[12]), (255, 255));
}

#[test]
fn weak_values_of_a_block_are_blanked() {
    // The peaks are 1 and 9; 3 is the first of the rarest values between them.
    let mut im = vec![1u16, 1, 2, 9];
    find_and_apply_local_thresholding(&mut im, 4, 1, 4, 1);
    assert_eq!(im, vec![0, 0, 0, 9]);
    let mut im = vec![1u16, 1, 2, 9];
    find_and_apply_local_thresholding(&mut im, 4, 2, 4, 1);
    assert_eq!(im, vec![1, 1, 2, 9]);
}

#[test]
fn bands_come_back_where_they_were() {
    let (w, h) = (3, 6);
    let full: Vec<u8> = (0..18).collect();
    let (lb, le) = (vec![1, 4], vec![2, 4]);
    let (offsets, rows) = band_offsets(&lb, &le, w, h);
    assert_eq!(offsets, vec![0, 6]);
    assert_eq!(rows, vec![2, 1]);
    let part = gather_bands(&full, &lb, &le, w, h);
    assert_eq!(part, vec![3, 4, 5, 6, 7, 8, 12, 13, 14]);
    let mut a = vec![0u16; 9];
    a[1] = 5;
    let mut b = vec![0u16; 9];
    b[8] = 5;
    let spread = spread_bands(&a, &b, &lb, &le, w, h);
    let white: Vec<usize> = (0..18).filter(|&i| spread[i] == 255).collect();
    assert_eq!(white, vec![4, 14]);
}

#[test]
fn bands_are_moved_to_strips() {
    let (w, h) = (2, 12);
    let mut im = vec![255u8; w * h];
    let (lb, le) = align_bands(&mut im, &[1, 8], &[5, 10], 3, w, h);
    assert_eq!(lb, vec![0, 6]);
    // Row 12 is outside, so 10 stays; no strip follows it, so the band is cut.
    assert_eq!(le, vec![6, 9]);
    assert!(im[..20].iter().all(|&v| v == 255));
    assert!(im[20..].iter().all(|&v| v == 0));
}

#[test]
fn a_frame_without_bands_has_no_text() {
    let t = no_text(4, 3);
    assert_eq!((t.n, t.has_text), (0, 0));
    assert_eq!(t.im_tf, vec![0u8; 12]);
    assert!(t.lb.is_empty() && t.le.is_empty());
}

#[test]
fn a_finished_image_shows_its_text() {
    let p = Params::default();
    let text = stripes(Some(20));
    let t = finish_image(
        text.clone(),
        text.clone(),
        text.clone(),
        &text,
        vec![0u8; FW * FH],
        vec![18],
        vec![28],
        FW,
        FH,
        &p,
    );
    assert_eq!((t.n, t.has_text), (1, 1));
    assert!(t.im_tf.iter().any(|&v| v == 255));
}

#[test]
fn planes_and_pictures_hold_their_pixels() {
    let mut p = Plane::new(2, 3, vec![1, 2, 3, 4, 5, 6]).unwrap();
    assert_eq!(p.dim(), (2, 3));
    assert_eq!(p.get(1, 0), 4);
    let kept = p.duplicate();
    p.set(1, 0, 9);
    assert_eq!(p.get(1, 0), 9);
    assert_eq!(kept.get(1, 0), 4);
    assert!(Plane::new(2, 3, vec![0; 5]).is_none());

    let bgr: Vec<u8> = (0..12).collect();
    let pic = flat_bgr_to_array3(&bgr, 2, 2);
    assert_eq!(pic.dim(), (2, 2));
    assert_eq!(array3_to_flat_bgr(&pic), bgr);
    assert_eq!(array3_to_flat_rgb(&pic), vec![2, 1, 0, 5, 4, 3, 8, 7, 6, 11, 10, 9]);
}

#[test]
fn files_are_named_after_their_times() {
    let t = Interval { start_ms: 330, end_ms: 1319 };
    assert_eq!(file_name(t), "330_1319");
    assert_ne!(file_name(t), file_name(Interval { start_ms: 33, end_ms: 1319 }));
    let s = [t, Interval { start_ms: 2000, end_ms: 2500 }];
    assert_eq!(timeline_text(&s), "330,1319\n2000,2500\n");
    assert_eq!(
        json_text(&s),
        "[{\"start_ms\":330,\"end_ms\":1319,\"image\":\"330_1319.png\",\"mask\":\"330_1319.png\"},\
         {\"start_ms\":2000,\"end_ms\":2500,\"image\":\"2000_2500.png\",\"mask\":\"2000_2500.png\"}]\n"
    );
    assert_eq!(json_text(&[]), "[]\n");
}

#[test]
fn each_mode_writes_its_files() {
    let full = OutputMode::Full;
    assert!(full.write_frames() && full.write_mask() && full.write_json() && full.write_timeline());
    let line = OutputMode::Timeline;
    assert!(!line.write_frames() && !line.write_mask() && line.write_timeline());
    let only = OutputMode::Frames;
    assert!(only.write_frames() && !only.write_timeline());
    let s = [Interval { start_ms: 1, end_ms: 2 }];
    let r = report(&s, full, "o".to_string(), "f".to_string(), "m".to_string());
    assert_eq!((r.frames_written, r.masks_written), (1, 1));
    assert_eq!((r.out_dir.as_str(), r.frames_dir.as_str(), r.mask_dir.as_str()), ("o", "f", "m"));
    let r = report(&s, line, "o".to_string(), "f".to_string(), "m".to_string());
    assert_eq!((r.frames_written, r.masks_written), (0, 0));
}

#[test]
fn frame_times_come_from_the_decoder_or_the_rate() {
    assert_eq!(frame_time(1234, 7, 30_000_000_000), 1234);
    assert_eq!(frame_time(0, 3, 25_000_000_000), 120);
    assert_eq!(frame_time(0, 1, 29_970_029_970), 33);
    assert_eq!(frame_time(0, 3, 0), 100);
    assert_eq!(total_duration(250, 25_000_000_000), 10_000);
    assert_eq!(total_duration(250, 0), 0);
}

#[test]
fn drawn_frames_have_fingerprints() {
    let text = make_text_frame(true, true);
    assert_eq!(text.len(), SIZE);
    assert_eq!(SIZE, W * H);
    let (total, top, mid, _) = fingerprint(&text, W);
    assert_eq!(total, text.iter().filter(|&&v| v == 255).count());
    assert_eq!(top, text[26 * W..45 * W].iter().filter(|&&v| v == 255).count());
    assert_eq!(mid, text[331 * W..340 * W].iter().filter(|&&v| v == 255).count());
    assert_ne!(fingerprint(&text, W).3, fingerprint(&make_text_frame(true, false), W).3);
    assert_eq!(make_edge_dense().len(), SIZE);
    assert_eq!(make_gray_frame().len(), SIZE);
    assert_eq!(make_bgr_frame().len(), 3 * SIZE);
}

/// The planes of a gray picture: all brightness and no color.
fn gray_planes(bgr: &[u8], w: usize, h: usize) -> (Vec<u8>, Vec<u8>, Vec<u8>) {
    let y = (0..w * h).map(|i| bgr[3 * i]).collect();
    (y, vec![128; w * h], vec![128; w * h])
}

/// Four times the larger difference of each pixel to its two neighbours, beside
/// (`beside`) or above and below it, and at most 700.
fn slope(im: &[u8], w: usize, h: usize, beside: bool) -> Vec<u16> {
    let mut out = vec![0u16; w * h];
    let step = if beside { 1 } else { w };
    for y in 1..h.saturating_sub(1) {
        for x in 1..w - 1 {
            let i = y * w + x;
            let d = im[i].abs_diff(im[i - step]).max(im[i].abs_diff(im[i + step]));
            out[i] = (4 * d as u16).min(700);
        }
    }
    out
}

fn across(im: &[u8], w: usize, h: usize) -> Vec<u16> {
    slope(im, w, h, true)
}

fn down(im: &[u8], w: usize, h: usize) -> Vec<u16> {
    slope(im, w, h, false)
}

fn as_is(im: &[u16], _w: usize, _h: usize) -> Vec<u16> {
    im.to_vec()
}

/// White from a fraction of the largest value on, black below.
fn binarize(im: &[u16], s: Single) -> Vec<u16> {
    let top = im.iter().copied().max().unwrap_or(0) as f32;
    let least = (top * (s.mant as f32 / (1u64 << s.shift) as f32)) as u16;
    im.iter().map(|&v| if v < least { 0 } else { 255 }).collect()
}

#[test]
fn get_transformed_image_produces_ff_on_text_frame() {
    let (w, h) = (64, 48);
    let mut bgr = vec![20u8; 3 * w * h];
    for y in 20..32 {
        for x in 10..54 {
            let c: u8 = if (x - 10) % 3 < 2 { 230 } else { 30 };
            let i = (y * w + x) * 3;
            bgr[i] = c;
            bgr[i + 1] = c;
            bgr[i + 2] = c;
        }
    }
    let p = Params::default();
    let t = get_transformed_image(
        gray_planes, across, across, down, as_is, as_is, binarize, &bgr, w, h, &p,
    );
    assert!(t.n >= 1, "n={}", t.n);
    assert!(t.im_ff.iter().any(|&v| v == 255));
    assert!(t.im_ne.iter().any(|&v| v == 255));
    assert!(t.lb[0] <= 20 && 20 <= t.le[0], "{}..{}", t.lb[0], t.le[0]);
    assert_eq!(t.has_text, 1);
    assert!(t.im_tf.iter().any(|&v| v == 255));
}

#[test]
fn a_plain_frame_is_not_transformed() {
    let p = Params::default();
    let bgr = vec![128u8; 3 * FW * FH];
    let t = get_transformed_image(
        gray_planes, across, across, down, as_is, as_is, binarize, &bgr, FW, FH, &p,
    );
    assert_eq!((t.n, t.has_text), (0, 0));
    assert!(t.im_ff.iter().all(|&v| v == 0));
}

#[test]
fn edge_pictures_show_where_the_brightness_changes() {
    let (w, h) = (8, 8);
    let mut y = vec![0u8; w * h];
    for r in 0..h {
        for x in 4..w {
            y[r * w + x] = 255;
        }
    }
    let flat = vec![128u8; w * h];
    let p = Params::default();
    let ne = get_im_ne(across, binarize, &y, &flat, &flat, w, h, &p);
    assert_eq!((ne[3 * w + 4], ne[3 * w + 1]), (255, 0));
    // No change downwards: nothing is above nothing, so all pixels inside are marked.
    let he = get_im_he(down, binarize, &y, &flat, &flat, w, h, &p);
    assert_eq!((he[3 * w + 4], he[3 * w + 1], he[0]), (255, 255, 0));
    let (ff, sf, lb, le) = get_im_ff(
        across, as_is, as_is, binarize, &y, &flat, &flat, &[1], &[6], w, h, &p,
    );
    assert_eq!((lb, le), (vec![0], vec![5]));
    // The band begins in row 1, and two rows at its border stay blank.
    assert_eq!((ff[3 * w + 4], ff[2 * w + 4]), (255, 0));
    assert_eq!(sf[6 * w..], vec![0u8; 2 * w]);
}
