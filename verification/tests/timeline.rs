use ocr_lab::ocr::timeline::{
    aggregate_img, frame_timestamp_ms, merge_frames, texts_mergeable, FrameResult, MergeArgs,
    OcrImgResult,
};
use ocr_lab::ocr::types::{OcrBoxResult, Point, Span};

/// A number in billionths.
fn n(x: f64) -> i64 {
    (x * 1e9).round() as i64
}

fn fr(text: &str, ts: u64, conf: f64, y_range: Option<(f64, f64)>) -> FrameResult {
    let y = y_range.unwrap_or((0.0, 0.0));
    FrameResult {
        text: text.to_string(),
        confidence: n(conf),
        boxes: Vec::new(),
        x_range: Span { low: 0, high: 0 },
        y_range: Span { low: n(y.0), high: n(y.1) },
        timestamp_ms: ts,
    }
}

fn line(text: &str, conf: f64, x: (f64, f64), y: (f64, f64)) -> OcrBoxResult {
    OcrBoxResult {
        text: text.to_string(),
        text_confidence: n(conf),
        box_confidence: n(conf),
        bbox: [
            Point { x: n(x.0), y: n(y.0) },
            Point { x: n(x.1), y: n(y.0) },
            Point { x: n(x.1), y: n(y.1) },
            Point { x: n(x.0), y: n(y.1) },
        ],
        x_range: Span { low: n(x.0), high: n(x.1) },
        y_range: Span { low: n(y.0), high: n(y.1) },
        center: Point { x: n((x.0 + x.1) / 2.0), y: n((y.0 + y.1) / 2.0) },
    }
}

#[test]
fn timestamp_math() {
    assert_eq!(frame_timestamp_ms(0, n(2.0)), 0);
    assert_eq!(frame_timestamp_ms(1, n(2.0)), 500);
    assert_eq!(frame_timestamp_ms(2, n(2.0)), 1000);
    assert_eq!(frame_timestamp_ms(3, n(4.0)), 750);
    assert_eq!(frame_timestamp_ms(5, n(0.0)), 0);
}

#[test]
fn merge_empty() {
    assert!(merge_frames(&[], &MergeArgs::default()).is_empty());
}

#[test]
fn merge_single_frame_is_zero_duration() {
    let frames = vec![fr("你好", 1000, 0.9, Some((600.0, 650.0)))];
    let segs = merge_frames(&frames, &MergeArgs::default());
    assert_eq!(segs.len(), 1);
    assert_eq!(segs[0].start_ms, 1000);
    assert_eq!(segs[0].end_ms, 1000);
    assert_eq!(segs[0].text, "你好");
    assert_eq!(segs[0].y_range, Span { low: n(600.0), high: n(650.0) });
}

#[test]
fn merge_same_text_merges_across_frames() {
    let frames = vec![
        fr("试炼那日", 0, 0.9, Some((640.0, 686.0))),
        fr("试炼那日", 500, 0.95, Some((645.0, 687.0))),
        fr("试炼那日", 1000, 0.92, Some((646.0, 688.0))),
    ];
    let segs = merge_frames(&frames, &MergeArgs::default());
    assert_eq!(segs.len(), 1);
    assert_eq!(segs[0].start_ms, 0);
    assert_eq!(segs[0].end_ms, 1000);
    assert!((segs[0].confidence as f64 / 1e9 - (0.9 + 0.95 + 0.92) / 3.0).abs() < 1e-9);
    assert_eq!(segs[0].y_range, Span { low: n(640.0), high: n(688.0) });
}

#[test]
fn merge_gap_splits_segment() {
    let frames = vec![
        fr("第一句", 0, 0.9, None),
        fr("第一句", 500, 0.9, None),
        fr("第一句", 2000, 0.9, None),
    ];
    let segs = merge_frames(&frames, &MergeArgs::default());
    assert_eq!(segs.len(), 2);
    assert_eq!(segs[0].end_ms, 500);
    assert_eq!(segs[1].start_ms, 2000);
    assert_eq!(segs[1].end_ms, 2000);
}

#[test]
fn merge_text_change_splits_segment() {
    let frames = vec![fr("你好世界", 0, 0.9, None), fr("天气真好", 500, 0.9, None)];
    let segs = merge_frames(&frames, &MergeArgs::default());
    assert_eq!(segs.len(), 2);
}

#[test]
fn merge_substring_continues() {
    let args = MergeArgs { allow_substring: true, ..Default::default() };
    let frames = vec![fr("你好", 0, 0.9, None), fr("你好世界", 500, 0.9, None)];
    let segs = merge_frames(&frames, &args);
    assert_eq!(segs.len(), 1);
    assert_eq!(segs[0].text, "你好世界");
    assert_eq!(segs[0].end_ms, 500);
}

#[test]
fn merge_substring_disabled_splits() {
    let args = MergeArgs { allow_substring: false, merge_levenshtein: 2, ..Default::default() };
    let frames = vec![fr("你好", 0, 0.9, None), fr("你好世界啊", 500, 0.9, None)];
    let segs = merge_frames(&frames, &args);
    assert_eq!(segs.len(), 2);
}

#[test]
fn texts_mergeable_predicate() {
    let args = &MergeArgs::default();
    assert!(texts_mergeable("abc", "abc", args));
    assert!(texts_mergeable("ab", "abc", args));
    assert!(texts_mergeable("abc", "abd", args));
    assert!(!texts_mergeable("abc", "xyz", args));
}

#[test]
fn segments_stand_one_behind_the_other() {
    let frames = vec![
        fr("一二三四", 0, 0.9, None),
        fr("五六七八", 400, 0.9, None),
        fr("五六七八", 800, 0.9, None),
        fr("五六七八", 5000, 0.9, None),
    ];
    let segs = merge_frames(&frames, &MergeArgs::default());
    assert_eq!(segs.len(), 3);
    for k in 1..segs.len() {
        assert!(segs[k - 1].end_ms <= segs[k].start_ms);
    }
}

#[test]
fn aggregated_image_covers_its_lines() {
    let lines = [
        line("上面", 0.9, (100.0, 200.0), (10.0, 30.0)),
        line("下面", 0.7, (50.0, 120.0), (40.0, 60.0)),
    ];
    let r = aggregate_img(&lines);
    assert_eq!(r.confidence, n(0.9));
    assert_eq!(r.text, "上面 下面");
    assert_eq!(r.x_range, Span { low: n(50.0), high: n(200.0) });
    assert_eq!(r.y_range, Span { low: n(10.0), high: n(60.0) });
    assert_eq!(r.boxes.len(), 2);
}

#[test]
fn a_frame_is_an_image_with_a_moment() {
    let img = OcrImgResult {
        text: "a".to_string(),
        confidence: 5,
        boxes: Vec::new(),
        x_range: Span { low: 1, high: 2 },
        y_range: Span { low: 3, high: 4 },
    };
    let f = FrameResult::from((img, 77));
    assert_eq!(f.text, "a");
    assert_eq!(f.confidence, 5);
    assert_eq!(f.x_range, Span { low: 1, high: 2 });
    assert_eq!(f.y_range, Span { low: 3, high: 4 });
    assert_eq!(f.timestamp_ms, 77);
}
