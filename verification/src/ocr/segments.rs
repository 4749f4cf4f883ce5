//! Joining the frames that show the same text into segments with a start and an
//! end.
use super::fixed;
use super::fixed::mean_of;
use super::types;
use super::types::{FrameResult, OcrSegment, SegmentFrame, Span, SubtitlingSegment};
use crate::text::strings;
use crate::text::strings::{is_substring_of, normalize, same};
use vstd::prelude::*;

verus! {

/// Whether texts that contain one another are joined, and how far apart texts
/// may be that are joined. What is left out has its default.
#[derive(Clone, Copy, Debug)]
pub struct MergeFramesArgs {
    pub is_merge_substring: Option<bool>,
    pub dedup_edit_distance: Option<u32>,
}

impl Default for MergeFramesArgs {
    fn default() -> (r: MergeFramesArgs)
        ensures
            r.is_merge_substring is None,
            r.dedup_edit_distance is None,
    {
        MergeFramesArgs { is_merge_substring: None, dedup_edit_distance: None }
    }
}

/// The value of `is_merge_substring` in stored arguments that leave it out.
pub fn default_is_merge_substring() -> (r: Option<bool>)
    ensures
        r == Some(false),
{
    Some(false)
}

/// The value of `dedup_edit_distance` in stored arguments that leave it out.
pub fn default_dedup_edit_distance() -> (r: Option<u32>)
    ensures
        r == Some(1u32),
{
    Some(1)
}

impl MergeFramesArgs {
    /// Whether texts that contain one another are joined.
    pub open spec fn joins_substrings(self) -> bool {
        match self.is_merge_substring {
            Some(b) => b,
            None => false,
        }
    }

    /// How far apart texts may be that are joined.
    pub open spec fn reach(self) -> int {
        match self.dedup_edit_distance {
            Some(n) => n as int,
            None => 1,
        }
    }

    pub fn is_merge_substring(&self) -> (r: bool)
        ensures
            r == self.joins_substrings(),
    {
        match self.is_merge_substring {
            Some(b) => b,
            None => false,
        }
    }

    pub fn dedup_edit_distance(&self) -> (r: u32)
        ensures
            r == self.reach(),
    {
        match self.dedup_edit_distance {
            Some(n) => n,
            None => 1,
        }
    }
}

/// The mean of some confidences; zero where there are none.
pub fn avg_confidence(confidences: &[i64]) -> (r: i64)
    ensures
        r == fixed::mean(fixed::ints(confidences@)),
{
    mean_of(confidences)
}

/// The mean of two confidences, as far as they are known.
pub open spec fn merged_confidence(a: Option<int>, b: Option<int>) -> int {
    match (a, b) {
        (Some(x), Some(y)) => (x + y) / 2,
        (Some(x), None) => x,
        (None, Some(y)) => y,
        (None, None) => 0,
    }
}

pub open spec fn known(a: Option<i64>) -> Option<int> {
    match a {
        Some(x) => Some(x as int),
        None => None,
    }
}

/// The mean of two confidences; the known one where only one is known, zero
/// where none is.
pub fn merge_confidence(a: Option<i64>, b: Option<i64>) -> (r: i64)
    ensures
        r == merged_confidence(known(a), known(b)),
{
    match (a, b) {
        (Some(x), Some(y)) => {
            let sum: i128 = x as i128 + y as i128;
            fixed::floor_div(sum, 2) as i64
        },
        (Some(x), None) => x,
        (None, Some(y)) => y,
        (None, None) => 0,
    }
}

/// Whether two spans have more than a border in common.
pub open spec fn spans_meet(a: Option<Span>, b: Option<Span>) -> bool {
    match (a, b) {
        (Some(x), Some(y)) => x.low < y.high && y.low < x.high,
        _ => false,
    }
}

/// Whether two known spans overlap.
pub fn overlap(a: Option<Span>, b: Option<Span>) -> (r: bool)
    ensures
        r == spans_meet(a, b),
{
    match (a, b) {
        (Some(x), Some(y)) => x.low < y.high && y.low < x.high,
        _ => false,
    }
}

/// How long a text may be away and still continue the same segment.
pub const MAX_AWAY_MS: u64 = 1500;

/// A segment that more frames may join.
#[verifier::ext_equal]
pub ghost struct OpenView {
    pub text: Seq<char>,
    pub start: int,
    pub end: int,
    pub y_range: Option<Span>,
    /// When the text went away; zero while it is shown.
    pub away: int,
    pub confidences: Seq<int>,
    pub notes: Seq<types::NoteView>,
}

pub open spec fn note_of(f: types::FrameView) -> types::NoteView {
    types::NoteView {
        text: f.text,
        timestamp: f.timestamp,
        text_confidence: f.text_confidence,
    }
}

/// A segment of one frame.
pub open spec fn opened(f: types::FrameView) -> OpenView {
    OpenView {
        text: f.text,
        start: f.timestamp,
        end: f.timestamp,
        y_range: Some(f.y_range),
        away: 0,
        confidences: seq![f.text_confidence],
        notes: seq![note_of(f)],
    }
}

/// The segment that an open segment becomes when it ends.
pub open spec fn closed_at(o: OpenView, end: int) -> types::SegmentView {
    types::SegmentView {
        text: o.text,
        start_ms: o.start,
        end_ms: end,
        y_range: o.y_range,
        text_confidence: fixed::mean(o.confidences),
        frame_count: Some(o.confidences.len() as int),
        frames: Some(o.notes),
    }
}

pub open spec fn last_moment(o: OpenView) -> int {
    if o.away > 0 {
        o.away
    } else {
        o.end
    }
}

/// Whether a text that comes after a gap continues the open segment.
pub open spec fn comes_back(o: OpenView, f: types::FrameView) -> bool {
    &&& f.timestamp - o.away <= MAX_AWAY_MS
    &&& strings::normalized(f.text) == strings::normalized(o.text) || strings::one_in_other(
        f.text,
        o.text,
    )
}

/// The open segment and the finished ones.
#[verifier::ext_equal]
pub ghost struct Joining {
    pub open: Option<OpenView>,
    pub done: Seq<types::SegmentView>,
}

/// What one more frame does. A frame without text marks the moment at which the
/// text went away. A text that comes back soon enough continues the segment,
/// any other text ends it and opens the next one.
pub open spec fn joined_with(s: Joining, f: types::FrameView) -> Joining {
    match s.open {
        None => if f.text.len() == 0 {
            s
        } else {
            Joining { open: Some(opened(f)), ..s }
        },
        Some(o) => if f.text.len() == 0 {
            if o.away == 0 {
                Joining { open: Some(OpenView { away: f.timestamp, ..o }), ..s }
            } else {
                s
            }
        } else if o.away > 0 {
            if comes_back(o, f) {
                Joining {
                    open: Some(
                        OpenView {
                            end: f.timestamp,
                            away: 0,
                            confidences: o.confidences.push(f.text_confidence),
                            notes: o.notes.push(note_of(f)),
                            ..o
                        },
                    ),
                    ..s
                }
            } else {
                Joining { open: Some(opened(f)), done: s.done.push(closed_at(o, o.away)) }
            }
        } else if strings::normalized(f.text) != strings::normalized(o.text) {
            Joining { open: Some(opened(f)), done: s.done.push(closed_at(o, o.end)) }
        } else {
            Joining {
                open: Some(
                    OpenView {
                        end: f.timestamp,
                        confidences: o.confidences.push(f.text_confidence),
                        notes: o.notes.push(note_of(f)),
                        ..o
                    },
                ),
                ..s
            }
        },
    }
}

pub open spec fn joining(frames: Seq<types::FrameView>) -> Joining
    decreases frames.len(),
{
    if frames.len() == 0 {
        Joining { open: None, done: Seq::empty() }
    } else {
        joined_with(joining(frames.drop_last()), frames.last())
    }
}

/// The segments of some frames.
pub open spec fn base_segments(frames: Seq<types::FrameView>) -> Seq<types::SegmentView> {
    let s = joining(frames);
    match s.open {
        None => s.done,
        Some(o) => s.done.push(closed_at(o, last_moment(o))),
    }
}

struct OpenSegment {
    text: String,
    start: u64,
    end: u64,
    y_range: Option<Span>,
    away: u64,
    confidences: Vec<i64>,
    notes: Vec<SegmentFrame>,
}

impl OpenSegment {
    spec fn model(self) -> OpenView {
        OpenView {
            text: self.text@,
            start: self.start as int,
            end: self.end as int,
            y_range: self.y_range,
            away: self.away as int,
            confidences: fixed::ints(self.confidences@),
            notes: types::note_views(self.notes@),
        }
    }
}

spec fn model_of(o: Option<OpenSegment>) -> Option<OpenView> {
    match o {
        Some(x) => Some(x.model()),
        None => None,
    }
}

fn note(f: &FrameResult) -> (r: SegmentFrame)
    ensures
        r@ == note_of(f@),
{
    SegmentFrame {
        text: f.text.clone(),
        timestamp: f.timestamp,
        text_confidence: f.text_confidence,
    }
}

fn open_with(f: &FrameResult) -> (o: OpenSegment)
    ensures
        o.model() == opened(f@),
        o.confidences@.len() == 1,
{
    let confidences: Vec<i64> = vec![f.text_confidence];
    let mut notes: Vec<SegmentFrame> = Vec::new();
    notes.push(note(f));
    proof {
        assert(fixed::ints(confidences@) =~= seq![f@.text_confidence]);
        assert(types::note_views(notes@) =~= seq![note_of(f@)]);
    }
    OpenSegment {
        text: f.text.clone(),
        start: f.timestamp,
        end: f.timestamp,
        y_range: Some(f.y_range),
        away: 0,
        confidences,
        notes,
    }
}

fn close_at(o: OpenSegment, end: u64) -> (s: OcrSegment)
    requires
        o.confidences@.len() <= u32::MAX,
    ensures
        s@ == closed_at(o.model(), end as int),
{
    let n: usize = o.confidences.len();
    OcrSegment {
        base: SubtitlingSegment { text: o.text, start_ms: o.start, end_ms: end },
        y_range: o.y_range,
        text_confidence: avg_confidence(o.confidences.as_slice()),
        frame_count: Some(n as u32),
        frames: Some(o.notes),
    }
}

/// Takes one more frame into the open segment. Returns the finished segment, if
/// one ends here, and the segment that is open from now on.
fn take_in(
    o: OpenSegment,
    f: &FrameResult,
    Ghost(done): Ghost<Seq<types::SegmentView>>,
) -> (r: (Option<OcrSegment>, OpenSegment))
    requires
        o.confidences@.len() < u32::MAX,
    ensures
        ({
            let t = joined_with(Joining { open: Some(o.model()), done }, f@);
            &&& t.open == Some(r.1.model())
            &&& t.done == match r.0 {
                Some(x) => done.push(x@),
                None => done,
            }
        }),
        r.1.confidences@.len() <= o.confidences@.len() + 1,
{
    let ghost before = o.model();
    let mut o = o;
    if f.text.as_str().is_empty() {
        if o.away == 0 {
            o.away = f.timestamp;
        }
        (None, o)
    } else if o.away > 0 {
        let late = f.timestamp > o.away && f.timestamp - o.away > MAX_AWAY_MS;
        let alike = same(normalize(f.text.as_str()).as_str(), normalize(o.text.as_str()).as_str())
            || is_substring_of(f.text.as_str(), o.text.as_str());
        if !late && alike {
            o.confidences.push(f.text_confidence);
            o.end = f.timestamp;
            o.away = 0;
            o.notes.push(note(f));
            proof {
                assert(fixed::ints(o.confidences@) =~= before.confidences.push(f@.text_confidence));
                assert(types::note_views(o.notes@) =~= before.notes.push(note_of(f@)));
            }
            (None, o)
        } else {
            let end: u64 = o.away;
            (Some(close_at(o, end)), open_with(f))
        }
    } else if !same(
        normalize(f.text.as_str()).as_str(),
        normalize(o.text.as_str()).as_str(),
    ) {
        let end: u64 = o.end;
        (Some(close_at(o, end)), open_with(f))
    } else {
        o.confidences.push(f.text_confidence);
        o.end = f.timestamp;
        o.notes.push(note(f));
        proof {
            assert(fixed::ints(o.confidences@) =~= before.confidences.push(f@.text_confidence));
            assert(types::note_views(o.notes@) =~= before.notes.push(note_of(f@)));
        }
        (None, o)
    }
}

/// Joins the frames that show the same text, one after the other, into segments.
pub fn base_merge_frames(frames: &[FrameResult], _args: &MergeFramesArgs) -> (r: Vec<OcrSegment>)
    requires
        frames@.len() <= u32::MAX,
    ensures
        types::segment_views(r@) == base_segments(types::frame_views(frames@)),
{
    let mut done: Vec<OcrSegment> = Vec::new();
    let mut open: Option<OpenSegment> = None;
    let mut i: usize = 0;
    let ghost all = types::frame_views(frames@);
    proof {
        assert(types::segment_views(done@) =~= Seq::<types::SegmentView>::empty());
        assert(all.take(0) =~= Seq::<types::FrameView>::empty());
    }
    while i < frames.len()
        invariant
            i <= frames@.len(),
            frames@.len() <= u32::MAX,
            all == types::frame_views(frames@),
            joining(all.take(i as int)).open == model_of(open),
            joining(all.take(i as int)).done == types::segment_views(done@),
            match open {
                Some(o) => o.confidences@.len() <= i,
                None => true,
            },
        decreases frames@.len() - i,
    {
        let f = &frames[i];
        proof {
            assert(all.take(i + 1).drop_last() =~= all.take(i as int));
            assert(all.take(i + 1).last() == f@);
        }
        open = match open {
            None => {
                if f.text.as_str().is_empty() {
                    None
                } else {
                    Some(open_with(f))
                }
            },
            Some(o) => {
                let (ended, next) = take_in(o, f, Ghost(types::segment_views(done@)));
                match ended {
                    Some(s) => {
                        proof {
                            types::lemma_segment_views_push(done@, s);
                        }
                        done.push(s);
                    },
                    None => {},
                }
                Some(next)
            },
        };
        i = i + 1;
    }
    proof {
        assert(all.take(frames@.len() as int) =~= all);
    }
    match open {
        None => {},
        Some(o) => {
            let end: u64 = if o.away > 0 {
                o.away
            } else {
                o.end
            };
            let s = close_at(o, end);
            proof {
                types::lemma_segment_views_push(done@, s);
            }
            done.push(s);
        },
    }
    done
}

} // verus!
