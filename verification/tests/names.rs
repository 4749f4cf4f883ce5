use ocr_lab::ocr::names::{
    expand_times, list_names, parse_name_times, BadNameAction, FrameTimes,
};
use ocr_lab::ocr::types::{FrameResult, Span};

fn names(files: &[&str]) -> Vec<String> {
    files.iter().map(|f| f.to_string()).collect()
}

#[test]
fn parse_name_times_single() {
    assert_eq!(parse_name_times("001234"), Some(FrameTimes::Single(1234)));
    assert_eq!(parse_name_times("0"), Some(FrameTimes::Single(0)));
    assert_eq!(parse_name_times("999"), Some(FrameTimes::Single(999)));
}

#[test]
fn parse_name_times_range() {
    assert_eq!(parse_name_times("001234_001250"), Some(FrameTimes::Range(1234, 1250)));
    assert_eq!(parse_name_times("1234_1250"), Some(FrameTimes::Range(1234, 1250)));
}

#[test]
fn parse_name_times_invalid() {
    assert_eq!(parse_name_times("132_932_0"), None);
    assert_eq!(parse_name_times("abc"), None);
    assert_eq!(parse_name_times("1234_"), None);
    assert_eq!(parse_name_times("_1234"), None);
    assert_eq!(parse_name_times("12.3"), None);
}

#[test]
fn list_frames_parses_and_sorts() {
    let dir = names(&["00500.png", "00100.png", "00300_00350.png", "ignore.txt"]);
    let entries = list_names(&dir, BadNameAction::Skip).unwrap();
    assert_eq!(entries.len(), 3);
    assert_eq!(entries[0].times, FrameTimes::Single(100));
    assert_eq!(entries[1].times, FrameTimes::Range(300, 350));
    assert_eq!(entries[2].times, FrameTimes::Single(500));
    assert_eq!(entries[0].path, "00100.png");
}

#[test]
fn list_frames_bad_name_error() {
    let dir = names(&["00100_00150.png", "badname.png"]);
    let r = list_names(&dir, BadNameAction::Error);
    assert!(r.is_err());
    assert_eq!(r.unwrap_err(), "badname.png");
}

#[test]
fn list_frames_bad_name_skip() {
    let dir = names(&["00100_00150.png", "badname.png"]);
    let entries = list_names(&dir, BadNameAction::Skip).unwrap();
    assert_eq!(entries.len(), 1);
    assert_eq!(entries[0].times, FrameTimes::Range(100, 150));
}

#[test]
fn leading_zeros_do_not_matter() {
    assert_eq!(parse_name_times("0000007_0000009"), parse_name_times("7_9"));
    assert_eq!(parse_name_times("18446744073709551616"), None);
}

#[test]
fn a_range_gives_a_frame_for_either_end() {
    let frame = |ts: u64| FrameResult {
        text: "a".to_string(),
        text_confidence: 3,
        boxes: Vec::new(),
        x_range: Span { low: 0, high: 1 },
        y_range: Span { low: 2, high: 3 },
        timestamp: ts,
    };
    let stamps = |times: FrameTimes| -> Vec<u64> {
        expand_times(frame(5), times).iter().map(|f| f.timestamp).collect()
    };
    assert_eq!(stamps(FrameTimes::Range(10, 20)), vec![10, 20]);
    assert_eq!(stamps(FrameTimes::Single(10)), vec![10]);
    assert_eq!(stamps(FrameTimes::Untimed), vec![0]);
    assert_eq!(expand_times(frame(5), FrameTimes::Range(10, 20))[1].text, "a");
}
