//! Merging frames into segments with one open segment at a time.
use super::boxes;
use super::boxes::{confidences_of, ranges_of, texts_of};
use super::fixed;
use super::fixed::{max_i64, mean_of, min_i64};
use super::types;
use super::types::{duplicate_boxes, OcrBoxResult, Span};
use crate::text::distance;
use crate::text::distance::distance;
use crate::text::strings;
use crate::text::strings::{char_count, chars_of, contains_chars, join, same_chars};
use vstd::prelude::*;

verus! {

/// Everything recognised in one image.
#[derive(Debug)]
pub struct OcrImgResult {
    pub text: String,
    pub confidence: i64,
    pub boxes: Vec<OcrBoxResult>,
    pub x_range: Span,
    pub y_range: Span,
}

/// Everything recognised in one image, with the moment of the image.
#[derive(Debug)]
pub struct FrameResult {
    pub text: String,
    pub confidence: i64,
    pub boxes: Vec<OcrBoxResult>,
    pub x_range: Span,
    pub y_range: Span,
    pub timestamp_ms: u64,
}

impl From<(OcrImgResult, u64)> for FrameResult {
    fn from(pair: (OcrImgResult, u64)) -> (r: FrameResult) {
        let (img, timestamp_ms) = pair;
        FrameResult {
            text: img.text,
            confidence: img.confidence,
            boxes: img.boxes,
            x_range: img.x_range,
            y_range: img.y_range,
            timestamp_ms,
        }
    }
}

impl vstd::std_specs::convert::FromSpecImpl<(OcrImgResult, u64)> for FrameResult {
    open spec fn obeys_from_spec() -> bool {
        true
    }

    open spec fn from_spec(pair: (OcrImgResult, u64)) -> FrameResult {
        FrameResult {
            text: pair.0.text,
            confidence: pair.0.confidence,
            boxes: pair.0.boxes,
            x_range: pair.0.x_range,
            y_range: pair.0.y_range,
            timestamp_ms: pair.1,
        }
    }
}

/// What the merging reads of a frame.
#[verifier::ext_equal]
pub ghost struct MomentView {
    pub text: Seq<char>,
    pub confidence: int,
    pub x_range: Span,
    pub y_range: Span,
    pub time: int,
}

impl View for FrameResult {
    type V = MomentView;

    open spec fn view(&self) -> MomentView {
        MomentView {
            text: self.text@,
            confidence: self.confidence as int,
            x_range: self.x_range,
            y_range: self.y_range,
            time: self.timestamp_ms as int,
        }
    }
}

pub open spec fn moments(frames: Seq<FrameResult>) -> Seq<MomentView> {
    frames.map_values(|f: FrameResult| f@)
}

/// A subtitle: from the moment of its first frame to that of its last one.
#[derive(Debug)]
pub struct Segment {
    pub text: String,
    pub start_ms: u64,
    pub end_ms: u64,
    pub confidence: i64,
    pub x_range: Span,
    pub y_range: Span,
}

#[verifier::ext_equal]
pub ghost struct LineView {
    pub text: Seq<char>,
    pub start: int,
    pub end: int,
    pub confidence: int,
    pub x_range: Span,
    pub y_range: Span,
}

impl View for Segment {
    type V = LineView;

    open spec fn view(&self) -> LineView {
        LineView {
            text: self.text@,
            start: self.start_ms as int,
            end: self.end_ms as int,
            confidence: self.confidence as int,
            x_range: self.x_range,
            y_range: self.y_range,
        }
    }
}

pub open spec fn lines(segments: Seq<Segment>) -> Seq<LineView> {
    segments.map_values(|s: Segment| s@)
}

/// When frames are merged: the largest pause, the largest edit distance, and
/// whether a text that contains the other continues it.
#[derive(Clone, Copy, Debug)]
pub struct MergeArgs {
    pub merge_gap_ms: u64,
    pub merge_levenshtein: usize,
    pub allow_substring: bool,
}

impl Default for MergeArgs {
    fn default() -> (r: MergeArgs)
        ensures
            r.merge_gap_ms == 500,
            r.merge_levenshtein == 2,
            r.allow_substring,
    {
        MergeArgs { merge_gap_ms: 500, merge_levenshtein: 2, allow_substring: true }
    }
}

/// The largest of some confidences, and at least zero.
pub open spec fn best(s: Seq<int>) -> int
    decreases s.len(),
{
    if s.len() == 0 {
        0
    } else {
        fixed::larger(best(s.drop_last()), s.last())
    }
}

/// Puts the regions of one image together: their texts with a space between
/// them, the best confidence and the spans of their corners.
pub fn aggregate_img(lines: &[OcrBoxResult]) -> (r: OcrImgResult)
    ensures
        ({
            let all = types::box_views(lines@);
            &&& r.text@ == strings::joined(boxes::box_texts(all), seq![' '])
            &&& r.confidence == best(boxes::text_confidences(all))
            &&& types::box_views(r.boxes@) == all
            &&& boxes::spans(r.x_range, boxes::xs(boxes::corners(all)))
            &&& boxes::spans(r.y_range, boxes::ys(boxes::corners(all)))
        }),
{
    let texts = texts_of(lines);
    let mut sep = String::new();
    sep.push(' ');
    proof {
        assert(sep@ =~= seq![' ']);
    }
    let text = join(texts.as_slice(), sep.as_str());
    let values = confidences_of(lines);
    let mut confidence: i64 = 0;
    let mut i: usize = 0;
    let ghost all = fixed::ints(values@);
    proof {
        assert(all.take(0) =~= Seq::<int>::empty());
    }
    while i < values.len()
        invariant
            i <= values@.len(),
            all == fixed::ints(values@),
            confidence == best(all.take(i as int)),
        decreases values@.len() - i,
    {
        proof {
            assert(all.take(i + 1).drop_last() =~= all.take(i as int));
            assert(all.take(i + 1).last() == values@[i as int]);
        }
        confidence = max_i64(confidence, values[i]);
        i = i + 1;
    }
    proof {
        assert(all.take(values@.len() as int) =~= all);
    }
    let (x_range, y_range) = ranges_of(lines);
    OcrImgResult { text, confidence, boxes: duplicate_boxes(lines), x_range, y_range }
}

/// The moment of a frame, in milliseconds, at a frame rate in billionths of a
/// frame per second; zero at a rate that is not positive.
pub open spec fn moment(index: int, fps: int) -> int {
    if fps <= 0 {
        0
    } else {
        fixed::smaller((index * 1000 * fixed::ONE) / fps, u64::MAX as int)
    }
}

/// The moment of a frame, in milliseconds, at a frame rate in billionths of a
/// frame per second.
pub fn frame_timestamp_ms(index: usize, fps: i64) -> (t: u64)
    ensures
        t == moment(index as int, fps as int),
{
    if fps <= 0 {
        return 0;
    }
    proof {
        assert(index * 1000 * 1_000_000_000 <= usize::MAX * 1000 * 1_000_000_000);
    }
    let total: u128 = (index as u128) * 1000 * (fixed::ONE as u128);
    let t: u128 = total / (fps as u128);
    if t > u64::MAX as u128 {
        u64::MAX
    } else {
        t as u64
    }
}

/// Whether the second of two texts continues the first.
pub open spec fn continues(a: Seq<char>, b: Seq<char>, args: MergeArgs) -> bool {
    ||| a == b
    ||| args.allow_substring && (strings::contains(a, b) || strings::contains(b, a))
    ||| distance::edits(a, b) <= args.merge_levenshtein
}

/// Whether the second of two texts continues the first.
pub fn texts_mergeable(a: &str, b: &str, args: &MergeArgs) -> (r: bool)
    ensures
        r == continues(a@, b@, *args),
{
    let x = chars_of(a);
    let y = chars_of(b);
    if same_chars(x.as_slice(), y.as_slice()) {
        return true;
    }
    if args.allow_substring {
        if contains_chars(x.as_slice(), y.as_slice()) || contains_chars(
            y.as_slice(),
            x.as_slice(),
        ) {
            return true;
        }
    }
    distance(x.as_slice(), y.as_slice()) <= args.merge_levenshtein
}

/// A segment that more frames may join.
#[verifier::ext_equal]
pub ghost struct OpenLine {
    pub text: Seq<char>,
    pub last_text: Seq<char>,
    pub start: int,
    pub end: int,
    pub confidences: Seq<int>,
    pub x_range: Span,
    pub y_range: Span,
}

pub open spec fn union_of(a: Span, b: Span) -> Span {
    Span {
        low: if a.low < b.low {
            a.low
        } else {
            b.low
        },
        high: if a.high < b.high {
            b.high
        } else {
            a.high
        },
    }
}

pub open spec fn opened(f: MomentView) -> OpenLine {
    OpenLine {
        text: f.text,
        last_text: f.text,
        start: f.time,
        end: f.time,
        confidences: seq![f.confidence],
        x_range: f.x_range,
        y_range: f.y_range,
    }
}

/// A segment with one frame more: the longer text, the moment of the frame as
/// its end, and room for both in the spans.
pub open spec fn extended(o: OpenLine, f: MomentView) -> OpenLine {
    OpenLine {
        text: if f.text.len() > o.text.len() {
            f.text
        } else {
            o.text
        },
        last_text: f.text,
        start: o.start,
        end: f.time,
        confidences: o.confidences.push(f.confidence),
        x_range: union_of(o.x_range, f.x_range),
        y_range: union_of(o.y_range, f.y_range),
    }
}

/// A segment with the mean confidence of its frames.
pub open spec fn closed(o: OpenLine) -> LineView {
    LineView {
        text: o.text,
        start: o.start,
        end: o.end,
        confidence: fixed::mean(o.confidences),
        x_range: o.x_range,
        y_range: o.y_range,
    }
}

/// Whether a frame joins the open segment: soon enough after its last frame, and
/// with a text that continues that of its last frame.
pub open spec fn joins(o: OpenLine, f: MomentView, args: MergeArgs) -> bool {
    f.time - o.end <= args.merge_gap_ms && continues(o.last_text, f.text, args)
}

/// The finished segments and the open one.
#[verifier::ext_equal]
pub ghost struct Timeline {
    pub open: Option<OpenLine>,
    pub done: Seq<LineView>,
}

pub open spec fn timeline(frames: Seq<MomentView>, args: MergeArgs) -> Timeline
    decreases frames.len(),
{
    if frames.len() == 0 {
        Timeline { open: None, done: Seq::empty() }
    } else {
        let before = timeline(frames.drop_last(), args);
        let f = frames.last();
        match before.open {
            None => Timeline { open: Some(opened(f)), ..before },
            Some(o) => if joins(o, f, args) {
                Timeline { open: Some(extended(o, f)), ..before }
            } else {
                Timeline { open: Some(opened(f)), done: before.done.push(closed(o)) }
            },
        }
    }
}

/// The segments of some frames.
pub open spec fn merged(frames: Seq<MomentView>, args: MergeArgs) -> Seq<LineView> {
    let t = timeline(frames, args);
    match t.open {
        None => t.done,
        Some(o) => t.done.push(closed(o)),
    }
}

struct Line {
    text: String,
    last_text: String,
    start: u64,
    end: u64,
    confidences: Vec<i64>,
    x_range: Span,
    y_range: Span,
}

impl Line {
    spec fn model(self) -> OpenLine {
        OpenLine {
            text: self.text@,
            last_text: self.last_text@,
            start: self.start as int,
            end: self.end as int,
            confidences: fixed::ints(self.confidences@),
            x_range: self.x_range,
            y_range: self.y_range,
        }
    }
}

fn open_line(f: &FrameResult) -> (r: Line)
    ensures
        r.model() == opened(f@),
{
    let confidences: Vec<i64> = vec![f.confidence];
    proof {
        assert(fixed::ints(confidences@) =~= seq![f@.confidence]);
    }
    Line {
        text: f.text.clone(),
        last_text: f.text.clone(),
        start: f.timestamp_ms,
        end: f.timestamp_ms,
        confidences,
        x_range: f.x_range,
        y_range: f.y_range,
    }
}

fn unite(a: Span, b: Span) -> (r: Span)
    ensures
        r == union_of(a, b),
{
    Span { low: min_i64(a.low, b.low), high: max_i64(a.high, b.high) }
}

fn extend(o: Line, f: &FrameResult) -> (r: Line)
    ensures
        r.model() == extended(o.model(), f@),
{
    let ghost before = o.model();
    let mut o = o;
    if char_count(f.text.as_str()) > char_count(o.text.as_str()) {
        o.text = f.text.clone();
    }
    o.confidences.push(f.confidence);
    proof {
        assert(fixed::ints(o.confidences@) =~= before.confidences.push(f@.confidence));
    }
    o.end = f.timestamp_ms;
    o.x_range = unite(o.x_range, f.x_range);
    o.y_range = unite(o.y_range, f.y_range);
    o.last_text = f.text.clone();
    o
}

fn close(o: Line) -> (r: Segment)
    ensures
        r@ == closed(o.model()),
{
    Segment {
        text: o.text,
        start_ms: o.start,
        end_ms: o.end,
        confidence: mean_of(o.confidences.as_slice()),
        x_range: o.x_range,
        y_range: o.y_range,
    }
}

/// Merges frames into segments.
pub fn merge_frames(frames: &[FrameResult], args: &MergeArgs) -> (r: Vec<Segment>)
    ensures
        lines(r@) == merged(moments(frames@), *args),
{
    let mut done: Vec<Segment> = Vec::new();
    if frames.len() == 0 {
        proof {
            assert(lines(done@) =~= Seq::<LineView>::empty());
        }
        return done;
    }
    let mut open = open_line(&frames[0]);
    let mut i: usize = 1;
    let ghost all = moments(frames@);
    proof {
        assert(lines(done@) =~= Seq::<LineView>::empty());
        assert(all.take(1).drop_last() =~= Seq::<MomentView>::empty());
        assert(all.take(1).last() == frames@[0]@);
        reveal_with_fuel(timeline, 2);
    }
    while i < frames.len()
        invariant
            1 <= i <= frames@.len(),
            all == moments(frames@),
            timeline(all.take(i as int), *args).open == Some(open.model()),
            timeline(all.take(i as int), *args).done == lines(done@),
        decreases frames@.len() - i,
    {
        let f = &frames[i];
        proof {
            assert(all.take(i + 1).drop_last() =~= all.take(i as int));
            assert(all.take(i + 1).last() == f@);
        }
        let late = f.timestamp_ms > open.end && f.timestamp_ms - open.end > args.merge_gap_ms;
        if !late && texts_mergeable(open.last_text.as_str(), f.text.as_str(), args) {
            open = extend(open, f);
        } else {
            let s = close(open);
            proof {
                assert(lines(done@.push(s)) =~= lines(done@).push(s@));
            }
            done.push(s);
            open = open_line(f);
        }
        i = i + 1;
    }
    let s = close(open);
    proof {
        assert(all.take(frames@.len() as int) =~= all);
        assert(lines(done@.push(s)) =~= lines(done@).push(s@));
    }
    done.push(s);
    done
}

/// Frames in the order of time.
pub open spec fn in_time(frames: Seq<MomentView>) -> bool {
    forall|i: int, j: int|
        0 <= i <= j < frames.len() ==> (#[trigger] frames[i]).time <= (#[trigger] frames[j]).time
}

/// Segments that follow one another in time.
pub open spec fn in_sequence(s: Seq<LineView>) -> bool {
    &&& forall|i: int| 0 <= i < s.len() ==> (#[trigger] s[i]).start <= s[i].end
    &&& forall|i: int, j: int|
        0 <= i < j < s.len() ==> (#[trigger] s[i]).end <= (#[trigger] s[j]).start
}

proof fn lemma_sequence(frames: Seq<MomentView>, args: MergeArgs)
    requires
        in_time(frames),
        frames.len() > 0,
    ensures
        ({
            let t = timeline(frames, args);
            &&& in_sequence(t.done)
            &&& t.open matches Some(o) && o.start <= o.end && o.end == frames.last().time
                && forall|i: int| 0 <= i < t.done.len() ==> (#[trigger] t.done[i]).end <= o.start
        }),
    decreases frames.len(),
{
    let before = frames.drop_last();
    if before.len() > 0 {
        assert(in_time(before)) by {
            assert forall|i: int, j: int| 0 <= i <= j < before.len() implies (
            #[trigger] before[i]).time <= (#[trigger] before[j]).time by {
                assert(before[i] == frames[i] && before[j] == frames[j]);
            }
        }
        lemma_sequence(before, args);
        assert(before.last() == frames[frames.len() - 2]);
        assert(frames.last() == frames[frames.len() - 1]);
        let s = timeline(before, args);
        let t = timeline(frames, args);
        assert forall|i: int, j: int| 0 <= i < j < t.done.len() implies (#[trigger] t.done[i]).end
            <= (#[trigger] t.done[j]).start by {
            assert(t.done[i] == s.done[i]);
            if j < s.done.len() {
                assert(t.done[j] == s.done[j]);
            }
        }
    } else {
        assert(timeline(before, args).open is None);
    }
}

/// The segments of frames in the order of time follow one another.
pub proof fn segments_follow_one_another(frames: Seq<MomentView>, args: MergeArgs)
    requires
        in_time(frames),
    ensures
        in_sequence(merged(frames, args)),
{
    if frames.len() > 0 {
        lemma_sequence(frames, args);
        let t = timeline(frames, args);
        let r = merged(frames, args);
        assert forall|i: int, j: int| 0 <= i < j < r.len() implies (#[trigger] r[i]).end <= (
        #[trigger] r[j]).start by {
            assert(r[i] == t.done[i]);
            if j < t.done.len() {
                assert(r[j] == t.done[j]);
            }
        }
    }
}

/// A subtitle of a single frame has no duration.
pub proof fn single_frame_has_no_duration(f: MomentView, args: MergeArgs)
    ensures
        merged(seq![f], args) == seq![closed(opened(f))],
        closed(opened(f)).start == f.time,
        closed(opened(f)).end == f.time,
{
    assert(seq![f].drop_last() =~= Seq::<MomentView>::empty());
    assert(timeline(seq![f].drop_last(), args).open is None);
    assert(merged(seq![f], args) =~= seq![closed(opened(f))]);
}

/// A pause longer than allowed ends a segment, whatever the texts are.
pub proof fn long_pause_splits(o: OpenLine, f: MomentView, args: MergeArgs)
    requires
        f.time - o.end > args.merge_gap_ms,
    ensures
        !joins(o, f, args),
{
}

} // verus!
