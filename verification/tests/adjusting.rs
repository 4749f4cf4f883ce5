use ocr_lab::ocr::box_adjust::{
    adjust_box, default_box_adjusted_threshold, height_ratio_of, ocr_frames_adjust_box,
    BoxAdjustedArgs, FrameResultBoxWithAdjust, OcrBoxResultWithAdjust,
};
use ocr_lab::ocr::box_filter::ocr_frames_filter_box;
use ocr_lab::ocr::box_penalty;
use ocr_lab::ocr::passes::merge_frames;
use ocr_lab::ocr::segment_adjust::{
    compute_iso_penalty, compute_y_penalty, default_adjust_iso_weight, default_adjust_y_factor,
    default_adjust_y_weight, default_iso_threshold_ms, ocr_segment_adjust, OcrSegmentAdjustArgs,
    OcrSegmentWithAdjust,
};
use ocr_lab::ocr::segment_count;
use ocr_lab::ocr::segment_filter;
use ocr_lab::ocr::segments::MergeFramesArgs;
use ocr_lab::ocr::stats::{compute_box_x_stats, compute_box_y_stats, XStats, YStats};
use ocr_lab::ocr::types::{
    FrameResult, OcrBoxResult, OcrSegment, Point, Span, SubtitlingSegment,
};

/// A number in billionths.
fn n(x: f64) -> i64 {
    (x * 1e9).round() as i64
}

/// A number of billionths.
fn f(x: i64) -> f64 {
    x as f64 / 1e9
}

fn span(low: f64, high: f64) -> Span {
    Span { low: n(low), high: n(high) }
}

fn box_with(text: &str, y: [f64; 2], conf: f64) -> OcrBoxResult {
    OcrBoxResult {
        text: text.into(),
        text_confidence: n(conf),
        box_confidence: n(conf),
        bbox: [
            Point { x: n(0.0), y: n(y[0]) },
            Point { x: n(10.0), y: n(y[0]) },
            Point { x: n(10.0), y: n(y[1]) },
            Point { x: n(0.0), y: n(y[1]) },
        ],
        x_range: span(0.0, 10.0),
        y_range: span(y[0], y[1]),
        center: Point { x: n(5.0), y: n((y[0] + y[1]) / 2.0) },
    }
}

fn frame(boxes: Vec<OcrBoxResult>) -> FrameResult {
    FrameResult {
        text: String::new(),
        text_confidence: 0,
        boxes,
        x_range: span(0.0, 0.0),
        y_range: span(0.0, 0.0),
        timestamp: 0,
    }
}

fn usual(low: f64, high: f64) -> YStats {
    YStats {
        avg: span(low, high),
        mode: span(low, high),
        median: span(low, high),
        avg_height: n(high - low),
        median_height: n(high - low),
        mode_height: n(high - low),
    }
}

fn centre(x: f64) -> XStats {
    XStats { avg: n(x), mode: n(x), median: n(x) }
}

/// The absolute binary logarithms of the heights of all regions.
fn height_logs(frames: &[FrameResult], y: &YStats) -> Vec<Vec<i64>> {
    frames
        .iter()
        .map(|fr| {
            fr.boxes
                .iter()
                .map(|b| {
                    let ratio = height_ratio_of(b, y) as f64 / 1e9;
                    if ratio > 0.0 { n(ratio.log2().abs()) } else { 0 }
                })
                .collect()
        })
        .collect()
}

fn adjusted(frames: &[FrameResult], y: &YStats, x: &XStats) -> Vec<FrameResultBoxWithAdjust> {
    let logs = height_logs(frames, y);
    let out = ocr_frames_adjust_box(frames, y, x, &BoxAdjustedArgs::default(), &logs);
    assert_eq!(out.meta.frame_count, frames.len());
    assert_eq!(out.meta.y_stats, *y);
    assert_eq!(out.meta.x_stats, *x);
    assert_eq!(out.meta.args.threshold(), n(0.5));
    out.frames
}

#[test]
fn default_threshold_is_half() {
    assert_eq!(BoxAdjustedArgs::default().threshold(), n(0.5));
    assert_eq!(default_box_adjusted_threshold(), Some(n(0.5)));
}

#[test]
fn adjusted_default_threshold_is_half() {
    assert_eq!(BoxAdjustedArgs::default().threshold(), n(0.5));
}

#[test]
fn box_adjusted_default_threshold_is_half() {
    assert_eq!(BoxAdjustedArgs::default().threshold(), n(0.5));
}

#[test]
fn box_adjust_default_threshold_is_half() {
    assert_eq!(BoxAdjustedArgs::default().threshold(), n(0.5));
}

#[test]
fn explicit_threshold_overrides_default() {
    let a = BoxAdjustedArgs { box_adjusted_threshold: Some(n(0.3)) };
    assert_eq!(a.threshold(), n(0.3));
}

#[test]
fn adjusted_explicit_threshold_overrides_default() {
    let a = BoxAdjustedArgs { box_adjusted_threshold: Some(n(0.3)) };
    assert_eq!(a.threshold(), n(0.3));
}

#[test]
fn box_adjusted_explicit_threshold_overrides_default() {
    let a = BoxAdjustedArgs { box_adjusted_threshold: Some(n(0.3)) };
    assert_eq!(a.threshold(), n(0.3));
}

#[test]
fn box_adjust_explicit_threshold_overrides_default() {
    let a = BoxAdjustedArgs { box_adjusted_threshold: Some(n(0.3)) };
    assert_eq!(a.threshold(), n(0.3));
}

fn check_penalty_passthrough() {
    let fr = frame(vec![box_with("", [10.0, 20.0], 0.9)]);
    let y = YStats::default();
    let out = box_penalty::build_ocr_frames_box_adjust(&[fr], &y, &BoxAdjustedArgs::default());
    let b = &out.frames[0].boxes[0];
    assert!(!b.is_outlier);
    assert_eq!(b.adjusted_text_confidence, n(0.9));
    assert_eq!(b.height, 0);
    assert_eq!(out.meta.frame_count, 1);
}

#[test]
fn adjusted_empty_text_box_passthrough() {
    check_penalty_passthrough();
}

#[test]
fn box_adjusted_empty_text_box_passthrough() {
    check_penalty_passthrough();
}

#[test]
fn box_adjust_empty_text_box_passthrough() {
    let fr = frame(vec![box_with("", [10.0, 20.0], 0.9)]);
    let out = adjusted(&[fr], &YStats::default(), &centre(5.0));
    let b = &out[0].boxes[0];
    assert!(!b.is_outlier);
    assert_eq!(b.adjusted_confidence, n(0.9));
    assert_eq!(b.height, 0);
}

fn check_penalty_of_far_box() {
    let y = usual(100.0, 120.0);
    let fr = frame(vec![box_with("a", [400.0, 420.0], 0.9)]);
    let out = box_penalty::build_ocr_frames_box_adjust(&[fr], &y, &BoxAdjustedArgs::default());
    let b = &out.frames[0].boxes[0];
    assert!(b.is_outlier);
    assert!(b.adjusted_text_confidence < n(0.9));
    assert_eq!(b.height, n(20.0));
    assert_eq!(out.meta.frame_count, 1);
    assert_eq!(out.meta.y_stats.median_height, n(20.0));
    assert_eq!(out.meta.args.threshold(), n(0.5));
}

#[test]
fn adjusted_far_from_mode_box_is_outlier() {
    check_penalty_of_far_box();
}

#[test]
fn box_adjusted_far_from_mode_box_is_outlier() {
    check_penalty_of_far_box();
}

#[test]
fn box_adjust_far_from_mode_box_is_outlier() {
    let fr = frame(vec![box_with("a", [400.0, 420.0], 0.9)]);
    let out = adjusted(&[fr], &usual(100.0, 120.0), &centre(5.0));
    let b = &out[0].boxes[0];
    assert!(b.is_outlier);
    assert!(b.adjusted_confidence < n(0.9));
    assert_eq!(b.height, n(20.0));
}

#[test]
fn abnormally_low_height_box_is_outlier() {
    let fr = frame(vec![box_with("a", [100.0, 102.0], 0.9)]);
    let out = adjusted(&[fr], &usual(100.0, 120.0), &centre(5.0));
    let b = &out[0].boxes[0];
    assert!(b.is_outlier);
    assert!(b.adjusted_confidence < n(0.5));
    assert!(b.height_ratio < n(0.5) as i128);
}

#[test]
fn normal_height_box_not_penalized_extra() {
    let fr = frame(vec![box_with("a", [100.0, 120.0], 0.9)]);
    let out = adjusted(&[fr], &usual(100.0, 120.0), &centre(5.0));
    let b = &out[0].boxes[0];
    assert!(!b.is_outlier);
    assert!((f(b.adjusted_confidence) - 0.9).abs() < 1e-6);
}

#[test]
fn real_frame_lu_ding_perfect_not_outlier() {
    let y = YStats {
        avg: span(625.0, 672.0),
        mode: span(625.0, 672.0),
        median: span(625.0, 672.0),
        avg_height: n(46.0),
        median_height: n(46.0),
        mode_height: n(46.0),
    };
    let x = centre(639.5);
    let box_r = OcrBoxResult {
        text: "时间到第一名陆鼎成绩完美".into(),
        text_confidence: n(0.99626046),
        box_confidence: n(0.87568265),
        bbox: [
            Point { x: n(416.0), y: n(606.0) },
            Point { x: n(865.0), y: n(606.0) },
            Point { x: n(865.0), y: n(640.0) },
            Point { x: n(416.0), y: n(640.0) },
        ],
        x_range: span(416.0, 865.0),
        y_range: span(606.0, 640.0),
        center: Point { x: n(640.5), y: n(623.0) },
    };
    let out = adjusted(&[frame(vec![box_r])], &y, &x);
    let b = &out[0].boxes[0];
    assert!(!b.is_outlier);
    assert!((b.y_center_offset_ratio as f64 / 1e9 + 0.5543478).abs() < 1e-3);
    assert!((b.x_center_offset_ratio as f64 / 1e9 - 0.02173913).abs() < 1e-3);
    assert!((b.height_ratio as f64 / 1e9 - 0.73913044).abs() < 1e-3);
    assert!((f(b.y_penalty) - 0.2874845).abs() < 1e-3);
    assert!((f(b.height_penalty) - 0.115693584).abs() < 1e-3);
    assert!((f(b.total_penalty) - 0.34824038).abs() < 1e-3);
    assert!((f(b.adjusted_confidence) - 0.59431094).abs() < 1e-3);
}

#[test]
fn one_region_is_adjusted_as_in_its_frame() {
    let y = usual(100.0, 120.0);
    let x = centre(5.0);
    let b = box_with("a", [130.0, 150.0], 0.9);
    let alone = adjust_box(&b, &y, &x, n(0.5), 0);
    // One and a half line heights away: four fifths of 1.45, saturated.
    assert_eq!(alone.y_center_offset_ratio, 1_500_000_000);
    assert_eq!(alone.y_penalty, 537_037_037);
    assert_eq!(alone.x_penalty, 0);
    assert_eq!(alone.height_penalty, 0);
    assert_eq!(alone.total_penalty, 537_037_037);
    assert_eq!(alone.adjusted_confidence, 416_666_666);
    assert!(alone.is_outlier);
    let framed = adjusted(&[frame(vec![b])], &y, &x);
    assert_eq!(framed[0].boxes[0].total_penalty, alone.total_penalty);
    assert_eq!(framed[0].boxes[0].adjusted_confidence, alone.adjusted_confidence);
}

fn marked(text: &str, y: [f64; 2], conf: f64, is_outlier: bool) -> OcrBoxResultWithAdjust {
    OcrBoxResultWithAdjust {
        base: box_with(text, y, conf),
        y_center_offset_ratio: 0,
        x_center_offset_ratio: 0,
        height: n(y[1] - y[0]),
        height_ratio: n(1.0) as i128,
        y_penalty: 0,
        x_penalty: 0,
        height_penalty: 0,
        total_penalty: 0,
        is_outlier,
        adjusted_confidence: n(conf),
    }
}

fn marked_frame(boxes: Vec<OcrBoxResultWithAdjust>, ts: u64) -> FrameResultBoxWithAdjust {
    FrameResultBoxWithAdjust {
        text: String::new(),
        text_confidence: 0,
        x_range: span(0.0, 0.0),
        y_range: span(0.0, 0.0),
        timestamp: ts,
        boxes,
    }
}

fn penalised(
    text: &str,
    y: [f64; 2],
    conf: f64,
    is_outlier: bool,
) -> box_penalty::OcrBoxResultWithAdjust {
    box_penalty::OcrBoxResultWithAdjust {
        base: box_with(text, y, conf),
        top_offset_ratio: 0,
        bot_offset_ratio: 0,
        height: n(y[1] - y[0]),
        height_ratio: n(1.0) as i128,
        is_outlier,
        adjusted_text_confidence: n(conf),
    }
}

fn penalised_frame(
    boxes: Vec<box_penalty::OcrBoxResultWithAdjust>,
    ts: u64,
) -> box_penalty::FrameResultBoxWithAdjust {
    box_penalty::FrameResultBoxWithAdjust {
        text: String::new(),
        text_confidence: 0,
        x_range: span(0.0, 0.0),
        y_range: span(0.0, 0.0),
        timestamp: ts,
        boxes,
    }
}

#[test]
fn box_filter_all_outlier_frame_is_dropped() {
    let fr = marked_frame(
        vec![marked("a", [400.0, 420.0], 0.9, true), marked("b", [410.0, 430.0], 0.8, true)],
        100,
    );
    let out = ocr_frames_filter_box(&[fr]);
    assert!(out.frames.is_empty());
    assert_eq!(out.meta.frame_count, 0);
}

#[test]
fn box_adjusted_all_outlier_frame_is_dropped() {
    let fr = penalised_frame(
        vec![penalised("a", [400.0, 420.0], 0.9, true), penalised("b", [410.0, 430.0], 0.8, true)],
        100,
    );
    let out = box_penalty::get_ocr_frames_box_filtered(&[fr]);
    assert!(out.frames.is_empty());
    assert_eq!(out.meta.frame_count, 0);
}

#[test]
fn box_filter_no_outlier_frame_passthrough() {
    let fr = marked_frame(
        vec![marked("a", [100.0, 120.0], 0.9, false), marked("b", [200.0, 220.0], 0.8, false)],
        12345,
    );
    let out = ocr_frames_filter_box(&[fr]);
    assert_eq!(out.frames.len(), 1);
    assert_eq!(out.frames[0].timestamp, 12345);
    assert_eq!(out.frames[0].boxes.len(), 2);
    assert_eq!(out.meta.frame_count, 1);
}

#[test]
fn box_adjusted_no_outlier_frame_passthrough() {
    let fr = penalised_frame(
        vec![
            penalised("a", [100.0, 120.0], 0.9, false),
            penalised("b", [200.0, 220.0], 0.8, false),
        ],
        12345,
    );
    let out = box_penalty::get_ocr_frames_box_filtered(&[fr]);
    assert_eq!(out.frames.len(), 1);
    assert_eq!(out.frames[0].timestamp, 12345);
    assert_eq!(out.frames[0].boxes.len(), 2);
    assert_eq!(out.meta.frame_count, 1);
}

#[test]
fn box_filter_partial_outlier_frame_rebuilt() {
    let fr = marked_frame(
        vec![
            marked("a", [100.0, 120.0], 0.9, false),
            marked("b", [200.0, 220.0], 0.8, false),
            marked("c", [400.0, 420.0], 0.9, true),
        ],
        999,
    );
    let out = ocr_frames_filter_box(&[fr]);
    assert_eq!(out.frames.len(), 1);
    assert_eq!(out.frames[0].timestamp, 999);
    assert_eq!(out.frames[0].boxes.len(), 2);
    assert_eq!(out.meta.frame_count, 1);
    assert_eq!(out.meta.y_stats.median_height, n(20.0));
    assert_eq!(out.frames[0].text, "a\nb");
}

#[test]
fn box_adjusted_partial_outlier_frame_rebuilt() {
    let fr = penalised_frame(
        vec![
            penalised("a", [100.0, 120.0], 0.9, false),
            penalised("b", [200.0, 220.0], 0.8, false),
            penalised("c", [400.0, 420.0], 0.9, true),
        ],
        999,
    );
    let out = box_penalty::get_ocr_frames_box_filtered(&[fr]);
    assert_eq!(out.frames.len(), 1);
    assert_eq!(out.frames[0].timestamp, 999);
    assert_eq!(out.frames[0].boxes.len(), 2);
    assert_eq!(out.meta.frame_count, 1);
    assert_eq!(out.meta.y_stats.median_height, n(20.0));
}

#[test]
fn a_frame_forgets_its_adjustments() {
    let fr = marked_frame(vec![marked("a", [100.0, 120.0], 0.9, true)], 7).to_frame();
    assert_eq!(fr.timestamp, 7);
    assert_eq!(fr.boxes[0].text, "a");
    let fr = penalised_frame(vec![penalised("b", [100.0, 120.0], 0.9, true)], 8).to_frame();
    assert_eq!(fr.timestamp, 8);
    assert_eq!(fr.boxes[0].text, "b");
}

#[test]
fn empty_frames_returns_zero() {
    let r = compute_box_y_stats(&[]);
    assert_eq!(r.avg, span(0.0, 0.0));
    assert_eq!(r.mode, span(0.0, 0.0));
    assert_eq!(r.median, span(0.0, 0.0));
    assert_eq!(r.avg_height, 0);
    assert_eq!(r.median_height, 0);
    assert_eq!(r.mode_height, 0);
}

#[test]
fn skips_empty_text_boxes() {
    let fr = frame(vec![box_with("", [10.0, 20.0], 0.9), box_with("a", [40.0, 50.0], 0.9)]);
    let r = compute_box_y_stats(&[fr]);
    assert_eq!(r.avg, span(40.0, 50.0));
    assert_eq!(r.median, span(40.0, 50.0));
    assert_eq!(r.mode, span(40.0, 50.0));
    assert_eq!(r.avg_height, n(10.0));
    assert_eq!(r.median_height, n(10.0));
    assert_eq!(r.mode_height, n(10.0));
}

#[test]
fn median_and_mode() {
    let fr = frame(vec![
        box_with("a", [10.0, 20.0], 0.9),
        box_with("b", [40.0, 60.0], 0.9),
        box_with("c", [100.0, 110.0], 0.9),
    ]);
    let r = compute_box_y_stats(&[fr]);
    assert_eq!(r.median_height, n(10.0));
    assert_eq!(r.mode_height, n(10.0));
    assert_eq!(r.median, span(40.0, 60.0));
}

#[test]
fn an_even_number_of_regions_has_the_middle_pairs_mean() {
    let fr = frame(vec![
        box_with("a", [10.0, 20.0], 0.9),
        box_with("b", [40.0, 60.0], 0.9),
    ]);
    let r = compute_box_y_stats(&[fr]);
    assert_eq!(r.avg, span(25.0, 40.0));
    assert_eq!(r.avg_height, n(15.0));
}

fn adj(text: &str, start: u64, end: u64, conf: f64) -> OcrSegmentWithAdjust {
    OcrSegmentWithAdjust {
        base: OcrSegment {
            base: SubtitlingSegment { text: text.into(), start_ms: start, end_ms: end },
            y_range: Some(span(10.0, 30.0)),
            text_confidence: n(conf),
            frame_count: Some(1),
            frames: None,
        },
        adjusted_text_confidence: None,
        y_penalty: None,
        iso_penalty: None,
    }
}

fn adj_with(text: &str, conf: f64, adjusted: f64) -> OcrSegmentWithAdjust {
    let mut s = adj(text, 0, 100, conf);
    s.adjusted_text_confidence = Some(n(adjusted));
    s
}

#[test]
fn no_filter_when_text_score_zero() {
    let segs = vec![adj("低", 0, 100, 0.1), adj("高", 0, 100, 0.9)];
    let out = segment_count::ocr_segment_filter(&segs, 0);
    assert_eq!(out.segments.len(), 2);
    assert_eq!(out.dropped, 0);
}

#[test]
fn drops_below_threshold_using_text_confidence() {
    let segs = vec![adj("低", 0, 100, 0.3), adj("高", 0, 100, 0.9)];
    let out = segment_count::ocr_segment_filter(&segs, n(0.5));
    assert_eq!(out.segments.len(), 1);
    assert_eq!(out.segments[0].base.base.text, "高");
    assert_eq!(out.dropped, 1);
}

#[test]
fn prefers_adjusted_confidence_when_present() {
    let segs = vec![adj_with("被惩罚", 0.9, 0.2), adj_with("正常", 0.9, 0.8)];
    let out = segment_count::ocr_segment_filter(&segs, n(0.5));
    assert_eq!(out.segments.len(), 1);
    assert_eq!(out.segments[0].base.base.text, "正常");
    assert_eq!(out.dropped, 1);
}

#[test]
fn keeps_segment_at_exact_threshold() {
    let segs = vec![adj("临界", 0, 100, 0.5)];
    let out = segment_count::ocr_segment_filter(&segs, n(0.5));
    assert_eq!(out.segments.len(), 1);
    assert_eq!(out.dropped, 0);
}

#[test]
fn filtering_tells_what_it_dropped() {
    let segs = vec![adj("低", 0, 100, 0.3), adj("高", 0, 100, 0.9), adj("中", 200, 300, 0.5)];
    assert_eq!(segment_filter::ocr_segment_filter(&segs, n(0.5)).len(), 2);
    let out = segment_filter::ocr_segment_filter_with_meta(&segs, n(0.5));
    assert_eq!(out.meta.segment_count, 2);
    assert_eq!(out.meta.dropped, 1);
    assert_eq!(out.meta.text_confidence_threshold, n(0.5));
    assert_eq!(out.result.segments.len(), 2);
    assert_eq!(out.result.text, "高 中");
}

fn check_adjust_defaults() {
    let a = OcrSegmentAdjustArgs::default();
    assert_eq!(a.iso_threshold_ms(), 1500);
    assert!((f(a.adjust_y_weight()) - 0.8).abs() < 1e-6);
    assert!((f(a.adjust_iso_weight()) - 0.2).abs() < 1e-6);
    assert!((f(a.adjust_y_factor()) - 0.08).abs() < 1e-6);
}

#[test]
fn defaults() {
    check_adjust_defaults();
    assert_eq!(default_iso_threshold_ms(), Some(1500));
    assert_eq!(default_adjust_y_weight(), Some(n(0.8)));
    assert_eq!(default_adjust_iso_weight(), Some(n(0.2)));
    assert_eq!(default_adjust_y_factor(), Some(n(0.08)));
}

#[test]
fn segment_adjust_defaults() {
    check_adjust_defaults();
}

fn seg(text: &str, start: u64, end: u64, y: [f64; 2], conf: f64, fc: Option<u32>) -> OcrSegment {
    OcrSegment {
        base: SubtitlingSegment { text: text.into(), start_ms: start, end_ms: end },
        y_range: Some(span(y[0], y[1])),
        text_confidence: n(conf),
        frame_count: fc,
        frames: None,
    }
}

fn shown(ts: u64, y: [f64; 2]) -> FrameResult {
    FrameResult {
        text: "x".into(),
        text_confidence: n(0.9),
        boxes: vec![],
        x_range: span(0.0, 10.0),
        y_range: span(y[0], y[1]),
        timestamp: ts,
    }
}

#[test]
fn compute_segment_adjust_early_return_when_empty_or_zero_ystats() {
    let args = OcrSegmentAdjustArgs::default();
    let out = ocr_segment_adjust(&[], &[], &usual(10.0, 30.0), n(1080.0), &args);
    assert!(out.is_empty());
    let segs = vec![seg("你好", 0, 100, [10.0, 30.0], 0.9, Some(1))];
    let out = ocr_segment_adjust(&segs, &[], &usual(0.0, 0.0), n(1080.0), &args);
    assert_eq!(out.len(), 1);
    assert!(out[0].adjusted_text_confidence.is_none());
    assert!(out[0].y_penalty.is_none());
}

#[test]
fn compute_segment_adjust_single_frame_with_neighbor_has_low_iso_penalty() {
    let frames = vec![shown(400, [10.0, 30.0]), shown(600, [10.0, 30.0])];
    let segs = vec![seg("你好", 400, 600, [10.0, 30.0], 0.9, Some(1))];
    let args = OcrSegmentAdjustArgs::default();
    let out = ocr_segment_adjust(&segs, &frames, &usual(10.0, 30.0), n(1080.0), &args);
    let iso = f(out[0].iso_penalty.unwrap());
    assert!((iso - 0.07).abs() < 1e-6, "got {}", iso);
    assert_eq!(out[0].y_penalty.unwrap(), 0);
    assert!((f(out[0].adjusted_text_confidence.unwrap()) - 0.89).abs() < 1e-6);
}

#[test]
fn compute_segment_adjust_fully_isolated_single_frame_gets_full_iso_penalty() {
    let frames: Vec<FrameResult> = vec![];
    let segs = vec![seg("你好", 4000, 6000, [10.0, 30.0], 0.9, Some(1))];
    let args = OcrSegmentAdjustArgs::default();
    let out = ocr_segment_adjust(&segs, &frames, &usual(10.0, 30.0), n(1080.0), &args);
    assert_eq!(out[0].iso_penalty.unwrap(), n(1.0));
    assert!((f(out[0].adjusted_text_confidence.unwrap()) - 0.72).abs() < 1e-6);
}

#[test]
fn compute_segment_adjust_multi_frame_has_no_iso_penalty() {
    let frames = vec![shown(400, [10.0, 30.0])];
    let segs = vec![seg("你好", 0, 1000, [10.0, 30.0], 0.9, Some(3))];
    let args = OcrSegmentAdjustArgs::default();
    let out = ocr_segment_adjust(&segs, &frames, &usual(10.0, 30.0), n(1080.0), &args);
    assert_eq!(out[0].iso_penalty.unwrap(), 0);
}

#[test]
fn compute_segment_adjust_y_penalty_from_offset() {
    let segs = vec![seg("你好", 0, 100, [50.0, 70.0], 0.9, Some(2))];
    let args = OcrSegmentAdjustArgs::default();
    let out = ocr_segment_adjust(&segs, &[], &usual(10.0, 30.0), n(1080.0), &args);
    let yp = f(out[0].y_penalty.unwrap());
    assert!((yp - 0.46).abs() < 1e-2, "got {}", yp);
}

#[test]
fn compute_segment_adjust_frame_count_none_returns_unadjusted() {
    let segs = vec![seg("你好", 0, 100, [10.0, 30.0], 0.9, None)];
    let args = OcrSegmentAdjustArgs::default();
    let out = ocr_segment_adjust(&segs, &[], &usual(10.0, 30.0), n(1080.0), &args);
    assert!(out[0].adjusted_text_confidence.is_none());
    assert!(out[0].y_penalty.is_none());
    assert!(out[0].iso_penalty.is_none());
}

#[test]
fn compute_y_penalty_zero_when_no_y_range() {
    let mut s = seg("x", 0, 100, [0.0, 0.0], 0.9, Some(1));
    s.y_range = None;
    assert_eq!(compute_y_penalty(&s, n(20.0), n(1080.0), n(0.08)), 0);
}

#[test]
fn compute_y_penalty_offset_normalized() {
    let s = seg("你好", 0, 100, [50.0, 70.0], 0.9, Some(1));
    let yp = f(compute_y_penalty(&s, n(20.0), n(1080.0), n(0.08)));
    assert!((yp - 40.0 / 86.4).abs() < 1e-3, "got {}", yp);
}

#[test]
fn compute_y_penalty_clamped_to_one() {
    let s = seg("你好", 0, 100, [0.0, 1000.0], 0.9, Some(1));
    let yp = compute_y_penalty(&s, 0, n(10.0), n(0.08));
    assert_eq!(yp, n(1.0));
}

#[test]
fn compute_iso_penalty_only_for_single_frame() {
    let multi = seg("你好", 0, 1000, [10.0, 30.0], 0.9, Some(3));
    assert_eq!(compute_iso_penalty(&multi, &[400, 600], 1500), 0);
}

#[test]
fn compute_iso_penalty_gap_normalized() {
    let single = seg("你好", 400, 600, [10.0, 30.0], 0.9, Some(1));
    let iso = f(compute_iso_penalty(&single, &[400, 600], 1500));
    assert!((iso - 100.0 / 1500.0).abs() < 1e-6, "got {}", iso);
}

#[test]
fn compute_iso_penalty_fully_isolated_is_one() {
    let single = seg("你好", 4000, 6000, [10.0, 30.0], 0.9, Some(1));
    assert_eq!(compute_iso_penalty(&single, &[], 1500), n(1.0));
}

#[test]
fn steps_pass_on_what_they_find() {
    let frames: Vec<FrameResult> = (0..4)
        .map(|i| {
            let mut boxes = vec![box_with("subtitle", [900.0, 940.0], 0.9)];
            if i == 1 {
                boxes.push(box_with("logo", [20.0, 300.0], 0.6));
            }
            let mut fr = frame(boxes);
            fr.text = "subtitle".to_string();
            fr.text_confidence = n(0.9);
            fr.y_range = span(900.0, 940.0);
            fr.timestamp = 1000 + i * 100;
            fr
        })
        .collect();
    let y = compute_box_y_stats(&frames);
    let marked = adjusted(&frames, &y, &centre(5.0));
    for (m, fr) in marked.iter().zip(&frames) {
        let back = m.to_frame();
        assert_eq!(back.text, fr.text);
        assert_eq!(back.y_range, fr.y_range);
        assert_eq!(back.timestamp, fr.timestamp);
        assert_eq!(back.boxes.len(), fr.boxes.len());
    }
    let clean = ocr_frames_filter_box(&marked);
    assert_eq!(clean.frames.len(), 4);
    assert!(clean.frames.iter().all(|fr| fr.boxes.len() == 1 && fr.text == "subtitle"));
    let merged = merge_frames(&clean.frames, &MergeFramesArgs::default());
    assert_eq!(merged.text, "subtitle");
    assert_eq!(merged.segments.len(), 1);
    assert_eq!(merged.segments[0].base.start_ms, 1000);
    let usual_rows = compute_box_y_stats(&clean.frames);
    assert_eq!(usual_rows.avg, span(900.0, 940.0));
    let judged = ocr_segment_adjust(
        &merged.segments,
        &clean.frames,
        &usual_rows,
        n(1080.0),
        &OcrSegmentAdjustArgs::default(),
    );
    let kept = segment_filter::ocr_segment_filter_with_meta(&judged, n(0.5));
    assert_eq!(kept.meta.segment_count, 1);
    assert_eq!(kept.meta.dropped, 0);
    assert_eq!(kept.result.text, "subtitle");
}

#[test]
fn a_region_without_height_is_an_outlier() {
    let y = usual(100.0, 120.0);
    let b = box_with("a", [110.0, 110.0], 1.0);
    let r = adjust_box(&b, &y, &centre(5.0), n(0.5), 0);
    assert_eq!(r.y_penalty, 0);
    assert_eq!(r.x_penalty, 0);
    assert_eq!(r.height_penalty, n(0.99));
    assert_eq!(r.adjusted_confidence, n(0.01));
    assert!(r.is_outlier);
    // Whatever the threshold is.
    assert!(adjust_box(&b, &y, &centre(5.0), 0, 0).is_outlier);
}

#[test]
fn centers_are_described() {
    let at = |text: &str, x: f64| {
        let mut b = box_with(text, [0.0, 10.0], 0.9);
        b.center.x = n(x);
        b
    };
    let frames = vec![
        frame(vec![at("a", 300.0), at(" ", 1.0)]),
        frame(vec![at("b", 100.2), at("c", 99.8)]),
    ];
    let x = compute_box_x_stats(&frames);
    assert_eq!(x.avg, n(500.0 / 3.0) - 1);
    assert_eq!(x.median, n(100.2));
    // Both stand in the same pixel; the later one tells where.
    assert_eq!(x.mode, n(99.8));
    assert_eq!(compute_box_x_stats(&[]), XStats { avg: 0, mode: 0, median: 0 });
}
