use ocr_lab::ocr::image::{roi_offset, select_boxes, sort_boxes, OcrOptions};
use ocr_lab::ocr::pipeline::{resolve_video_height, HeightUnknown};
use ocr_lab::ocr::types::{OcrBoxResult, Point, Span};
use ocr_lab::tools::cards::{fixtures, parse_args, token_for_run, Mode};
use ocr_lab::tools::devices::{access_of, is_virtual_device, wants_flat, AccessFlags};

fn args(words: &[&str]) -> Vec<String> {
    words.iter().map(|w| w.to_string()).collect()
}

/// A number in billionths.
fn n(x: f64) -> i64 {
    (x * 1e9).round() as i64
}

fn region(text: &str, x: f64, y: f64, conf: f64) -> OcrBoxResult {
    OcrBoxResult {
        text: text.to_string(),
        text_confidence: n(conf),
        box_confidence: n(conf),
        bbox: [
            Point { x: n(x), y: n(y) },
            Point { x: n(x + 40.0), y: n(y) },
            Point { x: n(x + 40.0), y: n(y + 10.0) },
            Point { x: n(x), y: n(y + 10.0) },
        ],
        x_range: Span { low: n(x), high: n(x + 40.0) },
        y_range: Span { low: n(y), high: n(y + 10.0) },
        center: Point { x: n(x + 20.0), y: n(y + 5.0) },
    }
}

#[test]
fn cards_have_names_and_lines() {
    let all = fixtures();
    let names: Vec<&str> = all.iter().map(|f| f.name.as_str()).collect();
    assert_eq!(names, vec!["ui_stable1", "ui_big1", "ui_nat1", "ui_zh1", "ui_mix1"]);
    assert_eq!(all[2].lines, vec!["Hello World", "RapidOCR test"]);
    assert_eq!(all[4].lines.len(), 3);
}

#[test]
fn card_arguments_are_read() {
    let a = parse_args(&args(&["cards"])).unwrap();
    assert_eq!(a.mode, Mode::Capture);
    assert_eq!((a.fixture, a.token, a.reset_token), (None, None, false));
    let a = parse_args(&args(&["cards", "--gui", "ui_zh1", "--token", "t", "--reset-token"])).unwrap();
    assert_eq!(a.mode, Mode::Gui);
    assert_eq!(a.fixture.as_deref(), Some("ui_zh1"));
    assert_eq!(a.token.as_deref(), Some("t"));
    assert!(a.reset_token);
    let a = parse_args(&args(&["cards", "--gui", "ui_zh1", "--capture", "ui_big1"])).unwrap();
    assert_eq!(a.mode, Mode::Capture);
    assert_eq!(a.fixture.as_deref(), Some("ui_big1"));
}

#[test]
fn an_unknown_option_is_refused() {
    assert_eq!(parse_args(&args(&["cards", "--other"])).unwrap_err(), "--other");
}

#[test]
fn tokens_are_given_stored_or_absent() {
    let s = |t: &str| Some(t.to_string());
    assert_eq!(token_for_run(true, s("a"), s("b")), None);
    assert_eq!(token_for_run(false, s("a"), s("b")), s("a"));
    assert_eq!(token_for_run(false, None, s(" b\n")), s("b"));
    assert_eq!(token_for_run(false, None, s(" \n")), None);
    assert_eq!(token_for_run(false, None, None), None);
}

#[test]
fn files_are_opened_as_the_flags_tell() {
    let f = AccessFlags { mask: 3, read_only: 0, write_only: 1, read_write: 2 };
    assert_eq!(access_of(0, &f), (true, false));
    assert_eq!(access_of(1 | 64, &f), (false, true));
    assert_eq!(access_of(2 | 2048, &f), (true, true));
}

#[test]
fn the_virtual_device_is_set_flat() {
    assert!(is_virtual_device("ydotoold virtual device"));
    assert!(!is_virtual_device("keyboard"));
    assert!(wants_flat("my ydotoold", true));
    assert!(!wants_flat("my ydotoold", false));
    assert!(!wants_flat("mouse", true));
}

#[test]
fn the_given_height_comes_first() {
    assert_eq!(resolve_video_height(Some(720), Some(1080)), Ok(n(720.0)));
    assert_eq!(resolve_video_height(None, Some(1080)), Ok(n(1080.0)));
    assert_eq!(resolve_video_height(None, None), Err(HeightUnknown));
}

#[test]
fn the_lower_part_begins_after_six_tenths() {
    let mut o = OcrOptions::default();
    o.bottom_only = true;
    for h in [720u32, 1080, 1, 0, 333] {
        assert_eq!(roi_offset(h, &o), (h as f32 * 0.6) as u64);
    }
    o.bottom_only = false;
    assert_eq!(roi_offset(720, &o), 0);
}

#[test]
fn wanted_regions_are_moved_and_kept() {
    let mut o = OcrOptions::default();
    o.subtitle_only = false;
    o.text_score = n(0.5);
    let found = [
        region(" 你好 ", 10.0, 20.0, 0.9),
        region("低", 10.0, 40.0, 0.4),
        region("  ", 10.0, 60.0, 0.9),
    ];
    let kept = select_boxes(&found, 432, 720, &o);
    assert_eq!(kept.len(), 1);
    assert_eq!(kept[0].text, "你好");
    assert_eq!(kept[0].bbox[0].y, n(452.0));
    assert_eq!(kept[0].center.y, n(457.0));
    o.subtitle_only = true;
    assert_eq!(select_boxes(&found, 432, 720, &o).len(), 0);
    assert_eq!(select_boxes(&found, 640, 720, &o).len(), 1);
}

#[test]
fn regions_are_read_line_by_line() {
    let found = [
        region("c", 5.0, 100.0, 0.9),
        region("b", 200.0, 12.0, 0.9),
        region("a", 20.0, 20.0, 0.9),
    ];
    let sorted = sort_boxes(&found);
    let texts: Vec<&str> = sorted.iter().map(|b| b.text.as_str()).collect();
    assert_eq!(texts, vec!["a", "b", "c"]);
}
