use ocr_lab::ocr::backward;
use ocr_lab::ocr::boxes::aggregate_boxes;
use ocr_lab::ocr::passes::{
    dedup_overlap, merge_adjacent_same_text, merge_frames, merge_substring_segments,
    remove_triplet_noise, segments_text,
};
use ocr_lab::ocr::segments::{
    avg_confidence, base_merge_frames, default_dedup_edit_distance, default_is_merge_substring,
    merge_confidence, overlap, MergeFramesArgs,
};
use ocr_lab::ocr::types::{
    FrameResult, OcrBoxResult, OcrSegment, Point, Span, SubtitlingSegment,
};

/// A number in billionths.
fn n(x: f64) -> i64 {
    (x * 1e9).round() as i64
}

/// A number of billionths.
fn f(x: i64) -> f64 {
    x as f64 / 1e9
}

fn span(low: f64, high: f64) -> Span {
    Span { low: n(low), high: n(high) }
}

fn frame(text: &str, ts: u64, conf: f64) -> FrameResult {
    FrameResult {
        text: text.into(),
        text_confidence: n(conf),
        boxes: vec![],
        x_range: span(0.0, 10.0),
        y_range: span(10.0, 30.0),
        timestamp: ts,
    }
}

fn segment(text: &str, start: u64, end: u64, y: [f64; 2], conf: f64) -> OcrSegment {
    OcrSegment {
        base: SubtitlingSegment { text: text.into(), start_ms: start, end_ms: end },
        y_range: Some(span(y[0], y[1])),
        text_confidence: n(conf),
        frame_count: Some(1),
        frames: None,
    }
}

fn box_with(text: &str, y: [f64; 2]) -> OcrBoxResult {
    OcrBoxResult {
        text: text.into(),
        text_confidence: n(0.9),
        box_confidence: n(0.9),
        bbox: [
            Point { x: n(0.0), y: n(y[0]) },
            Point { x: n(10.0), y: n(y[0]) },
            Point { x: n(10.0), y: n(y[1]) },
            Point { x: n(0.0), y: n(y[1]) },
        ],
        x_range: span(0.0, 10.0),
        y_range: span(y[0], y[1]),
        center: Point { x: n(5.0), y: n((y[0] + y[1]) / 2.0) },
    }
}

#[test]
fn single_line_uses_space() {
    let boxes = [box_with("hello", [10.0, 20.0]), box_with("world", [12.0, 22.0])];
    let r = aggregate_boxes(&boxes);
    assert_eq!(r.text, "hello world");
}

#[test]
fn multi_line_uses_newline() {
    let boxes = [box_with("line1", [10.0, 20.0]), box_with("line2", [40.0, 50.0])];
    let r = aggregate_boxes(&boxes);
    assert_eq!(r.text, "line1\nline2");
}

#[test]
fn empty_boxes_text_is_empty() {
    let r = aggregate_boxes(&[]);
    assert_eq!(r.text, "");
    assert_eq!(r.text_confidence, 0);
}

#[test]
fn the_span_of_a_frame_is_tight() {
    let boxes = [box_with("a", [30.0, 40.0]), box_with("b", [5.0, 12.0])];
    let r = aggregate_boxes(&boxes);
    assert_eq!(r.y_range, span(5.0, 40.0));
    assert_eq!(r.x_range, span(0.0, 10.0));
    assert_eq!(r.text_confidence, n(0.9));
    assert_eq!(r.boxes.len(), 2);
}

#[test]
fn default_is_merge_substring_is_false() {
    assert!(!MergeFramesArgs::default().is_merge_substring());
    assert_eq!(default_is_merge_substring(), Some(false));
}

#[test]
fn merge_frames_default_is_merge_substring_is_false() {
    assert!(!MergeFramesArgs::default().is_merge_substring());
}

#[test]
fn default_dedup_edit_distance_is_one() {
    assert_eq!(MergeFramesArgs::default().dedup_edit_distance(), 1);
    assert_eq!(default_dedup_edit_distance(), Some(1));
}

#[test]
fn merge_frames_default_dedup_edit_distance_is_one() {
    assert_eq!(MergeFramesArgs::default().dedup_edit_distance(), 1);
}

#[test]
fn explicit_fields_override_default() {
    let a = MergeFramesArgs { is_merge_substring: Some(true), dedup_edit_distance: Some(3) };
    assert!(a.is_merge_substring());
    assert_eq!(a.dedup_edit_distance(), 3);
}

#[test]
fn merge_frames_explicit_fields_override_default() {
    let a = MergeFramesArgs { is_merge_substring: Some(true), dedup_edit_distance: Some(3) };
    assert!(a.is_merge_substring());
    assert_eq!(a.dedup_edit_distance(), 3);
}

#[test]
fn absent_fields_have_their_defaults() {
    let a = MergeFramesArgs { is_merge_substring: None, dedup_edit_distance: None };
    assert!(!a.is_merge_substring());
    assert_eq!(a.dedup_edit_distance(), 1);
}

#[test]
fn avg_confidence_mean_and_empty() {
    assert_eq!(avg_confidence(&[n(0.9), n(0.8), n(0.7)]), n(0.8));
    assert_eq!(avg_confidence(&[]), 0);
}

#[test]
fn merge_frames_avg_confidence_mean_and_empty() {
    assert_eq!(avg_confidence(&[n(0.9), n(0.8), n(0.7)]), n(0.8));
    assert_eq!(avg_confidence(&[]), 0);
}

#[test]
fn merge_confidence_combines() {
    assert!((f(merge_confidence(Some(n(0.8)), Some(n(0.6)))) - 0.7).abs() < 1e-5);
    assert_eq!(merge_confidence(Some(n(0.9)), None), n(0.9));
    assert_eq!(merge_confidence(None, Some(n(0.4))), n(0.4));
    assert_eq!(merge_confidence(None, None), 0);
}

#[test]
fn merge_frames_merge_confidence_combines() {
    assert!((f(merge_confidence(Some(n(0.8)), Some(n(0.6)))) - 0.7).abs() < 1e-5);
    assert_eq!(merge_confidence(Some(n(0.9)), None), n(0.9));
    assert_eq!(merge_confidence(None, Some(n(0.4))), n(0.4));
    assert_eq!(merge_confidence(None, None), 0);
}

#[test]
fn overlap_detects_range_intersection() {
    assert!(overlap(Some(span(0.0, 10.0)), Some(span(5.0, 15.0))));
    assert!(!overlap(Some(span(0.0, 10.0)), Some(span(10.0, 20.0))));
    assert!(!overlap(None, Some(span(0.0, 10.0))));
}

#[test]
fn merge_frames_overlap_detects_range_intersection() {
    assert!(overlap(Some(span(0.0, 10.0)), Some(span(5.0, 15.0))));
    assert!(!overlap(Some(span(0.0, 10.0)), Some(span(10.0, 20.0))));
    assert!(!overlap(None, Some(span(0.0, 10.0))));
}

fn check_groups_same_text() {
    let frames = vec![frame("你好", 0, 0.9), frame("你好", 500, 0.8), frame("世界", 1000, 0.7)];
    let segs = base_merge_frames(&frames, &MergeFramesArgs::default());
    assert_eq!(segs.len(), 2);
    assert_eq!(segs[0].base.text, "你好");
    assert_eq!(segs[0].base.start_ms, 0);
    assert_eq!(segs[0].base.end_ms, 500);
    assert_eq!(segs[0].frame_count, Some(2));
    assert!((f(segs[0].text_confidence) - 0.85).abs() < 1e-5);
    assert_eq!(segs[1].base.text, "世界");
    assert_eq!(segs[1].base.start_ms, 1000);
}

#[test]
fn base_merge_frames_groups_same_text_and_splits_on_change() {
    check_groups_same_text();
}

#[test]
fn merge_frames_base_merge_frames_groups_same_text_and_splits_on_change() {
    check_groups_same_text();
}

fn check_recovers_gap() {
    let frames = vec![frame("字幕", 0, 0.9), frame("", 500, 0.0), frame("字幕", 800, 0.8)];
    let segs = base_merge_frames(&frames, &MergeFramesArgs::default());
    assert_eq!(segs.len(), 1);
    assert_eq!(segs[0].frame_count, Some(2));
    assert_eq!(segs[0].base.end_ms, 800);
    let moments: Vec<u64> =
        segs[0].frames.as_ref().unwrap().iter().map(|note| note.timestamp).collect();
    assert_eq!(moments, vec![0, 800]);
}

#[test]
fn every_frame_with_text_is_listed_once() {
    let frames = vec![
        frame("a", 0, 0.9),
        frame("", 500, 0.0),
        frame("a", 800, 0.8),
        frame("b", 900, 0.7),
        frame("", 1000, 0.0),
        frame("c", 1100, 0.6),
    ];
    let segs = base_merge_frames(&frames, &MergeFramesArgs::default());
    let mut listed = Vec::new();
    for s in &segs {
        let notes = s.frames.as_ref().unwrap();
        assert_eq!(s.frame_count, Some(notes.len() as u32));
        listed.extend(notes.iter().map(|note| (note.text.clone(), note.timestamp)));
    }
    let shown: Vec<(String, u64)> = frames
        .iter()
        .filter(|fr| !fr.text.is_empty())
        .map(|fr| (fr.text.clone(), fr.timestamp))
        .collect();
    assert_eq!(listed, shown);
}

#[test]
fn base_merge_frames_recovers_gap_when_same_text() {
    check_recovers_gap();
}

#[test]
fn merge_frames_base_merge_frames_recovers_gap_when_same_text() {
    check_recovers_gap();
}

fn check_flushes_on_gap() {
    let frames = vec![frame("甲", 0, 0.9), frame("", 500, 0.0), frame("乙", 900, 0.8)];
    let segs = base_merge_frames(&frames, &MergeFramesArgs::default());
    assert_eq!(segs.len(), 2);
    assert_eq!(segs[0].base.text, "甲");
    assert_eq!(segs[0].base.end_ms, 500);
    assert_eq!(segs[1].base.text, "乙");
}

#[test]
fn base_merge_frames_flushes_on_gap_then_different_text() {
    check_flushes_on_gap();
}

#[test]
fn merge_frames_base_merge_frames_flushes_on_gap_then_different_text() {
    check_flushes_on_gap();
}

#[test]
fn base_merge_frames_empty_input_yields_no_segments() {
    let segs = base_merge_frames(&[], &MergeFramesArgs::default());
    assert!(segs.is_empty());
}

#[test]
fn merge_frames_base_merge_frames_empty_input_yields_no_segments() {
    let segs = base_merge_frames(&[], &MergeFramesArgs::default());
    assert!(segs.is_empty());
}

#[test]
fn a_long_gap_splits_equal_texts() {
    let frames = vec![frame("字幕", 0, 0.9), frame("", 500, 0.0), frame("字幕", 2100, 0.8)];
    let segs = base_merge_frames(&frames, &MergeFramesArgs::default());
    assert_eq!(segs.len(), 2);
    assert_eq!(segs[0].base.end_ms, 500);
    assert_eq!(segs[1].base.start_ms, 2100);
}

fn check_substring_merged(merged: Vec<OcrSegment>) {
    assert_eq!(merged.len(), 1);
    assert_eq!(merged[0].base.text, "绝不起身");
    assert_eq!(merged[0].base.start_ms, 0);
    assert_eq!(merged[0].base.end_ms, 1000);
    assert!((f(merged[0].text_confidence) - 0.85).abs() < 1e-5);
    assert_eq!(merged[0].frame_count, Some(2));
}

fn overlapping_substring() -> Vec<OcrSegment> {
    vec![
        segment("身", 0, 500, [10.0, 30.0], 0.9),
        segment("绝不起身", 500, 1000, [10.0, 30.0], 0.8),
    ]
}

#[test]
fn merge_substring_segments_merges_overlapping_substring() {
    check_substring_merged(merge_substring_segments(&overlapping_substring()));
}

#[test]
fn merge_frames_merge_substring_segments_merges_overlapping_substring() {
    check_substring_merged(backward::merge_substring_segments(&overlapping_substring()));
}

fn substring_elsewhere() -> Vec<OcrSegment> {
    vec![
        segment("身", 0, 500, [10.0, 30.0], 0.9),
        segment("绝不起身", 500, 1000, [200.0, 220.0], 0.8),
    ]
}

#[test]
fn merge_substring_segments_skips_when_y_not_overlap() {
    assert_eq!(merge_substring_segments(&substring_elsewhere()).len(), 2);
}

#[test]
fn merge_frames_merge_substring_segments_skips_when_y_not_overlap() {
    assert_eq!(backward::merge_substring_segments(&substring_elsewhere()).len(), 2);
}

fn no_substring() -> Vec<OcrSegment> {
    vec![
        segment("你好", 0, 500, [10.0, 30.0], 0.9),
        segment("世界", 500, 1000, [10.0, 30.0], 0.8),
    ]
}

#[test]
fn merge_substring_segments_skips_when_not_substring() {
    assert_eq!(merge_substring_segments(&no_substring()).len(), 2);
}

#[test]
fn merge_frames_merge_substring_segments_skips_when_not_substring() {
    assert_eq!(backward::merge_substring_segments(&no_substring()).len(), 2);
}

#[test]
fn the_longer_text_stays_when_it_comes_first() {
    let segs = vec![
        segment("绝不起身", 0, 500, [12.0, 30.0], 0.9),
        segment("身", 500, 1000, [10.0, 28.0], 0.8),
    ];
    for merged in [merge_substring_segments(&segs), backward::merge_substring_segments(&segs)] {
        assert_eq!(merged.len(), 1);
        assert_eq!(merged[0].base.text, "绝不起身");
        assert_eq!(merged[0].y_range, Some(span(12.0, 30.0)));
        assert_eq!(merged[0].base.end_ms, 1000);
    }
}

#[test]
fn remove_triplet_noise_folds_short_middle_segment() {
    let segs = vec![
        segment("嗯发财了", 0, 1000, [10.0, 30.0], 0.9),
        segment("菌", 1000, 1150, [10.0, 30.0], 0.3),
        segment("嗯发财了", 1150, 2000, [10.0, 30.0], 0.85),
    ];
    let out = remove_triplet_noise(&segs);
    assert_eq!(out.len(), 1);
    assert_eq!(out[0].base.text, "嗯发财了");
    assert_eq!(out[0].base.start_ms, 0);
    assert_eq!(out[0].base.end_ms, 2000);
    assert!((f(out[0].text_confidence) - (0.9 + 0.3 + 0.85) / 3.0).abs() < 1e-4);
    assert_eq!(out[0].frame_count, Some(3));
}

#[test]
fn remove_triplet_noise_keeps_when_middle_is_real() {
    let segs = vec![
        segment("今天天气真好", 0, 1000, [10.0, 30.0], 0.9),
        segment("菌", 1000, 1150, [10.0, 30.0], 0.3),
        segment("我们去爬山吧", 1150, 2000, [10.0, 30.0], 0.85),
    ];
    let out = remove_triplet_noise(&segs);
    assert_eq!(out.len(), 3);
}

#[test]
fn remove_triplet_noise_keeps_when_no_y_overlap() {
    let segs = vec![
        segment("嗯发财了", 0, 1000, [10.0, 30.0], 0.9),
        segment("菌", 1000, 1150, [200.0, 220.0], 0.3),
        segment("嗯发财了", 1150, 2000, [10.0, 30.0], 0.85),
    ];
    let out = remove_triplet_noise(&segs);
    assert_eq!(out.len(), 3);
}

#[test]
fn remove_triplet_noise_keeps_high_conf_short_middle() {
    let segs = vec![
        segment("好吧", 26300, 26467, [626.0, 671.0], 0.998),
        segment("那我就开始了", 27900, 28900, [629.0, 669.0], 0.95),
        segment("请问", 29700, 30300, [627.0, 670.0], 0.99),
    ];
    let out = remove_triplet_noise(&segs);
    assert_eq!(out.len(), 3);
    assert_eq!(out[1].base.text, "那我就开始了");
}

#[test]
fn remove_triplet_noise_keeps_consecutive_high_conf_short_lines() {
    let segs = vec![
        segment("啊", 34933, 35400, [604.0, 644.0], 0.9402886),
        segment("哈", 35433, 35866, [603.0, 644.0], 0.9998287),
        segment("我靠", 35900, 36666, [603.0, 644.0], 0.9996991),
    ];
    let out = remove_triplet_noise(&segs);
    assert_eq!(out.len(), 3);
    assert_eq!(out[0].base.text, "啊");
    assert_eq!(out[1].base.text, "哈");
    assert_eq!(out[2].base.text, "我靠");
}

#[test]
fn dedup_overlap_merges_overlapping_similar_text() {
    let segs = vec![
        segment("嗯发财了", 0, 1000, [10.0, 30.0], 0.9),
        segment("嗯发财", 1000, 1100, [10.0, 30.0], 0.8),
    ];
    let out = dedup_overlap(&segs, 1);
    assert_eq!(out.len(), 1);
    assert_eq!(out[0].base.text, "嗯发财了");
    assert_eq!(out[0].base.start_ms, 0);
    assert_eq!(out[0].base.end_ms, 1100);
    assert_eq!(out[0].frame_count, Some(2));
}

#[test]
fn dedup_overlap_keeps_dissimilar_text() {
    let segs = vec![
        segment("今天天气真好", 0, 1000, [10.0, 30.0], 0.9),
        segment("完全不同的字幕", 500, 1500, [10.0, 30.0], 0.8),
    ];
    let out = dedup_overlap(&segs, 1);
    assert_eq!(out.len(), 2);
}

#[test]
fn dedup_overlap_respects_edit_distance_threshold() {
    let segs = vec![
        segment("abcdef", 0, 1000, [10.0, 30.0], 0.9),
        segment("abXYef", 500, 1500, [10.0, 30.0], 0.8),
    ];
    assert_eq!(dedup_overlap(&segs, 1).len(), 2);
    assert_eq!(dedup_overlap(&segs, 2).len(), 1);
}

#[test]
fn dedup_overlap_keeps_short_dissimilar_high_conf() {
    let segs = vec![
        segment("啊", 34933, 35400, [604.0, 644.0], 0.9402886),
        segment("哈", 35433, 35866, [603.0, 644.0], 0.9998287),
    ];
    let out = dedup_overlap(&segs, 1);
    assert_eq!(out.len(), 2);
    assert_eq!(out[0].base.text, "啊");
    assert_eq!(out[1].base.text, "哈");
}

#[test]
fn merge_adjacent_same_text_merges_same_text_within_gap() {
    let segs = vec![
        segment("你好", 0, 1000, [10.0, 30.0], 0.9),
        segment("你好", 2500, 3500, [10.0, 30.0], 0.8),
    ];
    let out = merge_adjacent_same_text(&segs);
    assert_eq!(out.len(), 1);
    assert_eq!(out[0].base.text, "你好");
    assert_eq!(out[0].base.start_ms, 0);
    assert_eq!(out[0].base.end_ms, 3500);
    assert_eq!(out[0].frame_count, Some(2));
    assert!((f(out[0].text_confidence) - 0.85).abs() < 1e-5);
}

#[test]
fn merge_adjacent_same_text_keeps_when_gap_too_large() {
    let segs = vec![
        segment("你好", 0, 1000, [10.0, 30.0], 0.9),
        segment("你好", 4000, 5000, [10.0, 30.0], 0.8),
    ];
    let out = merge_adjacent_same_text(&segs);
    assert_eq!(out.len(), 2);
}

#[test]
fn merge_adjacent_same_text_normalizes_whitespace() {
    let segs = vec![
        segment("你 好", 0, 1000, [10.0, 30.0], 0.9),
        segment("你好", 1500, 2500, [10.0, 30.0], 0.8),
    ];
    let out = merge_adjacent_same_text(&segs);
    assert_eq!(out.len(), 1);
    assert_eq!(out[0].base.end_ms, 2500);
}

#[test]
fn merge_adjacent_same_text_joins_whole_runs() {
    let segs = vec![
        segment("a", 0, 1000, [1.0, 2.0], 0.8),
        segment("a", 2000, 3000, [3.0, 4.0], 0.6),
        segment("a ", 5000, 6000, [5.0, 6.0], 0.4),
        segment("a", 8001, 9000, [7.0, 8.0], 0.5),
        segment("b", 9000, 9500, [1.0, 2.0], 0.9),
    ];
    let out = merge_adjacent_same_text(&segs);
    let times: Vec<(u64, u64)> =
        out.iter().map(|s| (s.base.start_ms, s.base.end_ms)).collect();
    assert_eq!(times, vec![(0, 6000), (8001, 9000), (9000, 9500)]);
    assert_eq!(out[0].base.text, "a");
    assert_eq!(out[0].y_range, Some(span(1.0, 2.0)));
    assert_eq!(out[0].frame_count, Some(3));
    // The last two are joined first.
    assert_eq!(out[0].text_confidence, n(0.65));
    assert_eq!(out[1].text_confidence, n(0.5));
    let again = merge_adjacent_same_text(&out);
    assert_eq!(again.len(), 3);
    for (a, b) in again.iter().zip(&out) {
        assert_eq!(a.base.text, b.base.text);
        assert_eq!((a.base.start_ms, a.base.end_ms), (b.base.start_ms, b.base.end_ms));
        assert_eq!(a.frame_count, b.frame_count);
        assert_eq!(a.text_confidence, b.text_confidence);
    }
}

#[test]
fn merge_frames_runs_full_pipeline() {
    let frames = vec![
        frame("你好世界", 0, 0.9),
        frame("你好世界", 500, 0.8),
        frame("", 600, 0.0),
        frame("你好世界", 800, 0.85),
    ];
    let result = merge_frames(&frames, &MergeFramesArgs::default());
    assert_eq!(result.segments.len(), 1);
    assert_eq!(result.segments[0].base.text, "你好世界");
    assert_eq!(result.segments[0].base.end_ms, 800);
    assert_eq!(result.text, "你好世界");
}

#[test]
fn merge_frames_substring_pass_merges_single_char_hallucination() {
    let frames = vec![frame("身", 0, 0.9), frame("绝不起身", 500, 0.8)];
    let args = MergeFramesArgs { is_merge_substring: Some(true), dedup_edit_distance: Some(1) };
    let result = merge_frames(&frames, &args);
    assert_eq!(result.segments.len(), 1);
    assert_eq!(result.segments[0].base.text, "绝不起身");
}

#[test]
fn no_frame_with_text_goes_uncounted() {
    let frames = vec![
        frame("甲乙丙丁", 0, 0.9),
        frame("甲乙丙丁", 100, 0.9),
        frame("", 200, 0.0),
        frame("戊己庚辛", 300, 0.9),
        frame("甲乙丙丁", 400, 0.9),
        frame("甲乙丙", 9000, 0.9),
    ];
    for flag in [false, true] {
        let args = MergeFramesArgs { is_merge_substring: Some(flag), dedup_edit_distance: Some(1) };
        let r = merge_frames(&frames, &args);
        let total: u32 = r.segments.iter().map(|s| s.count()).sum();
        assert_eq!(total, 5);
        for k in 1..r.segments.len() {
            assert!(r.segments[k - 1].base.start_ms <= r.segments[k].base.start_ms);
        }
        assert_eq!(r.text, segments_text(&r.segments));
    }
}

#[test]
fn the_text_of_segments_is_joined_by_spaces() {
    let segs = vec![
        segment("甲", 0, 10, [0.0, 1.0], 0.5),
        segment("乙丙", 20, 30, [0.0, 1.0], 0.5),
    ];
    assert_eq!(segments_text(&segs), "甲 乙丙");
    assert_eq!(segments_text(&[]), "");
}

#[test]
fn segments_are_no_surer_than_their_frames() {
    let frames = vec![
        frame("甲乙丙丁", 0, 0.6),
        frame("甲乙丙丁", 100, 0.9),
        frame("甲乙丙", 200, 0.7),
        frame("", 300, 0.0),
        frame("甲乙丙丁", 1200, 0.8),
        frame("戊己庚辛", 4000, 0.65),
    ];
    let r = merge_frames(&frames, &MergeFramesArgs::default());
    assert!(!r.segments.is_empty());
    for s in &r.segments {
        assert!(!s.base.text.is_empty());
        assert!(s.text_confidence >= n(0.6) && s.text_confidence <= n(0.9));
        assert_eq!(s.y_range, Some(span(10.0, 30.0)));
    }
}

#[test]
fn equal_neighbours_are_joined_to_the_end() {
    let segs = vec![
        segment("甲", 0, 100, [10.0, 30.0], 0.9),
        segment("甲", 600, 700, [10.0, 30.0], 0.7),
        segment("甲", 2000, 2100, [10.0, 30.0], 0.8),
        segment("乙", 2200, 2300, [10.0, 30.0], 0.8),
    ];
    let out = merge_adjacent_same_text(&segs);
    assert_eq!(out.len(), 2);
    assert_eq!((out[0].base.start_ms, out[0].base.end_ms), (0, 2100));
    assert_eq!(out[0].count(), 3);
    // From the last to the first: 0.75, then 0.825.
    assert_eq!(out[0].text_confidence, n(0.825));
}
