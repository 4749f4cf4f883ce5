//! Removing outliers from the frames.
use super::box_adjust;
use super::box_adjust::FrameResultBoxWithAdjust;
use super::boxes;
use super::boxes::aggregate_boxes;
use super::stats;
use super::stats::{compute_box_y_stats, YStats};
use super::types;
use super::types::{FrameResult, OcrBoxResult, Span};
use vstd::prelude::*;

verus! {

/// The frames without outliers, with what is common to what is left.
#[derive(Debug)]
pub struct OcrFramesBoxFilteredResult {
    pub frames: Vec<FrameResult>,
    pub meta: OcrFramesBoxFilteredResultMeta,
}

#[derive(Clone, Copy, Debug)]
pub struct OcrFramesBoxFilteredResultMeta {
    pub y_stats: YStats,
    pub frame_count: usize,
}

/// The regions that are not marked, in order.
pub open spec fn unmarked(boxes: Seq<types::BoxView>, marks: Seq<bool>) -> Seq<types::BoxView>
    decreases boxes.len(),
{
    if boxes.len() == 0 {
        boxes
    } else if marks[boxes.len() - 1] {
        unmarked(boxes.drop_last(), marks)
    } else {
        unmarked(boxes.drop_last(), marks).push(boxes.last())
    }
}

/// A frame without its marked regions: gone where none is left, the same where
/// none is marked, and put together anew, at the same moment, else.
pub open spec fn cleaned(f: types::FrameView, marks: Seq<bool>) -> Option<types::FrameView> {
    let left = unmarked(f.boxes, marks);
    if left.len() == 0 {
        None
    } else if left.len() == f.boxes.len() {
        Some(f)
    } else {
        Some(types::FrameView { timestamp: f.timestamp, ..boxes::aggregated(left) })
    }
}

/// All frames without their marked regions.
pub open spec fn all_cleaned(
    frames: Seq<types::FrameView>,
    marks: Seq<Seq<bool>>,
) -> Seq<types::FrameView>
    decreases frames.len(),
{
    if frames.len() == 0 {
        frames
    } else {
        let before = all_cleaned(frames.drop_last(), marks);
        match cleaned(frames.last(), marks[frames.len() - 1]) {
            None => before,
            Some(f) => before.push(f),
        }
    }
}

pub open spec fn span_fits(r: Span) -> bool {
    -stats::LIMIT <= r.low <= stats::LIMIT && -stats::LIMIT <= r.high <= stats::LIMIT
}

/// The regions have heights of which differences can be taken.
pub open spec fn heights_fit(boxes: Seq<types::BoxView>) -> bool {
    forall|i: int| 0 <= i < boxes.len() ==> span_fits((#[trigger] boxes[i]).y_range)
}

pub open spec fn all_heights_fit(frames: Seq<types::FrameView>) -> bool {
    forall|i: int| 0 <= i < frames.len() ==> heights_fit((#[trigger] frames[i]).boxes)
}

/// What is left of the regions is no more than there was, and fits where all
/// did.
proof fn lemma_unmarked(boxes: Seq<types::BoxView>, marks: Seq<bool>)
    ensures
        unmarked(boxes, marks).len() <= boxes.len(),
        heights_fit(boxes) ==> heights_fit(unmarked(boxes, marks)),
    decreases boxes.len(),
{
    if boxes.len() > 0 {
        let t = boxes.drop_last();
        lemma_unmarked(t, marks);
        if heights_fit(boxes) {
            assert forall|i: int| 0 <= i < t.len() implies span_fits((#[trigger] t[i]).y_range) by {
                assert(t[i] == boxes[i]);
            }
            assert(span_fits(boxes[boxes.len() - 1].y_range));
            let u = unmarked(t, marks);
            let r = unmarked(boxes, marks);
            assert forall|i: int| 0 <= i < r.len() implies span_fits((#[trigger] r[i]).y_range) by {
                if i < u.len() {
                    assert(r[i] == u[i]);
                }
            }
        }
    }
}

pub proof fn lemma_all_cleaned(frames: Seq<types::FrameView>, marks: Seq<Seq<bool>>)
    requires
        all_heights_fit(frames),
    ensures
        all_heights_fit(all_cleaned(frames, marks)),
        all_cleaned(frames, marks).len() <= frames.len(),
    decreases frames.len(),
{
    if frames.len() > 0 {
        let t = frames.drop_last();
        assert forall|i: int| 0 <= i < t.len() implies heights_fit((#[trigger] t[i]).boxes) by {
            assert(t[i] == frames[i]);
        }
        lemma_all_cleaned(t, marks);
        let f = frames.last();
        assert(heights_fit(frames[frames.len() - 1].boxes));
        lemma_unmarked(f.boxes, marks[frames.len() - 1]);
        let u = all_cleaned(t, marks);
        let r = all_cleaned(frames, marks);
        assert forall|i: int| 0 <= i < r.len() implies heights_fit((#[trigger] r[i]).boxes) by {
            if i < u.len() {
                assert(r[i] == u[i]);
            }
        }
    }
}

proof fn lemma_shown_in(boxes: Seq<types::BoxView>)
    requires
        heights_fit(boxes),
    ensures
        stats::bounded(stats::shown_in(boxes)),
    decreases boxes.len(),
{
    if boxes.len() > 0 {
        let t = boxes.drop_last();
        assert forall|i: int| 0 <= i < t.len() implies span_fits((#[trigger] t[i]).y_range) by {
            assert(t[i] == boxes[i]);
        }
        lemma_shown_in(t);
        assert(span_fits(boxes[boxes.len() - 1].y_range));
        let u = stats::shown_in(t);
        let r = stats::shown_in(boxes);
        assert forall|i: int| 0 <= i < r.len() implies span_fits(#[trigger] r[i]) by {
            if i < u.len() {
                assert(r[i] == u[i]);
            }
        }
    }
}

/// The spans of fitting frames are bounded.
pub proof fn lemma_shown_spans(frames: Seq<types::FrameView>)
    requires
        all_heights_fit(frames),
    ensures
        stats::bounded(stats::shown_spans(frames)),
    decreases frames.len(),
{
    if frames.len() > 0 {
        let t = frames.drop_last();
        assert forall|i: int| 0 <= i < t.len() implies heights_fit((#[trigger] t[i]).boxes) by {
            assert(t[i] == frames[i]);
        }
        lemma_shown_spans(t);
        assert(heights_fit(frames[frames.len() - 1].boxes));
        lemma_shown_in(frames.last().boxes);
        let a = stats::shown_spans(t);
        let b = stats::shown_in(frames.last().boxes);
        let r = a + b;
        assert forall|i: int| 0 <= i < r.len() implies span_fits(#[trigger] r[i]) by {
            if i < a.len() {
                assert(r[i] == a[i]);
            } else {
                assert(r[i] == b[i - a.len()]);
            }
        }
    }
}

/// A frame without its marked regions.
fn clean_frame(f: FrameResult, marks: &[bool]) -> (r: Option<FrameResult>)
    requires
        marks@.len() == f.boxes@.len(),
    ensures
        cleaned(f@, marks@) == match r {
            Some(x) => Some(x@),
            None => None,
        },
{
    let mut left: Vec<OcrBoxResult> = Vec::new();
    let ghost all = types::box_views(f.boxes@);
    let mut i: usize = 0;
    proof {
        assert(all.take(0) =~= Seq::<types::BoxView>::empty());
        assert(types::box_views(left@) =~= all.take(0));
    }
    while i < f.boxes.len()
        invariant
            i <= f.boxes@.len(),
            marks@.len() == f.boxes@.len(),
            all == types::box_views(f.boxes@),
            types::box_views(left@) == unmarked(all.take(i as int), marks@),
        decreases f.boxes@.len() - i,
    {
        proof {
            assert(all.take(i + 1).drop_last() =~= all.take(i as int));
            assert(all.take(i + 1).last() == f.boxes@[i as int]@);
        }
        if !marks[i] {
            let ghost before = left@;
            left.push(f.boxes[i].duplicate());
            proof {
                assert(types::box_views(left@) =~= types::box_views(before).push(
                    f.boxes@[i as int]@,
                ));
            }
        }
        i = i + 1;
    }
    proof {
        assert(all.take(f.boxes@.len() as int) =~= all);
        assert(types::box_views(left@).len() == left@.len());
    }
    if left.len() == 0 {
        None
    } else if left.len() == f.boxes.len() {
        Some(f)
    } else {
        let mut rebuilt = aggregate_boxes(left.as_slice());
        proof {
            boxes::lemma_aggregated(rebuilt@, types::box_views(left@));
        }
        rebuilt.timestamp = f.timestamp;
        Some(rebuilt)
    }
}

pub open spec fn mark_views(marks: Seq<Vec<bool>>) -> Seq<Seq<bool>> {
    marks.map_values(|m: Vec<bool>| m@)
}

/// Removes the marked regions from all frames.
pub(crate) fn filter_frames(frames: Vec<FrameResult>, marks: &[Vec<bool>]) -> (r:
    OcrFramesBoxFilteredResult)
    requires
        marks@.len() == frames@.len(),
        forall|i: int|
            0 <= i < frames@.len() ==> (#[trigger] marks@[i])@.len() == frames@[i].boxes@.len(),
        all_heights_fit(types::frame_views(frames@)),
    ensures
        types::frame_views(r.frames@) == all_cleaned(
            types::frame_views(frames@),
            mark_views(marks@),
        ),
        r.meta.frame_count == r.frames@.len(),
        stats::describes(
            r.meta.y_stats,
            stats::shown_spans(types::frame_views(r.frames@)),
        ),
{
    let ghost all = types::frame_views(frames@);
    let ghost flags = mark_views(marks@);
    let n: usize = frames.len();
    let mut out: Vec<FrameResult> = Vec::new();
    let mut i: usize = 0;
    proof {
        assert(all.take(0) =~= Seq::<types::FrameView>::empty());
        assert(types::frame_views(out@) =~= all.take(0));
    }
    while i < n
        invariant
            i <= n,
            n == frames@.len(),
            marks@.len() == n,
            all == types::frame_views(frames@),
            flags == mark_views(marks@),
            forall|k: int|
                0 <= k < n ==> (#[trigger] marks@[k])@.len() == frames@[k].boxes@.len(),
            types::frame_views(out@) == all_cleaned(all.take(i as int), flags),
        decreases n - i,
    {
        proof {
            assert(all.take(i + 1).drop_last() =~= all.take(i as int));
            assert(all.take(i + 1).last() == frames@[i as int]@);
            assert(marks@[i as int]@.len() == frames@[i as int].boxes@.len());
            assert(flags[i as int] == marks@[i as int]@);
        }
        let copy = frames[i].duplicate();
        proof {
            assert(types::box_views(copy.boxes@).len() == types::box_views(
                frames@[i as int].boxes@,
            ).len());
        }
        match clean_frame(copy, marks[i].as_slice()) {
            Some(f) => {
                let ghost before = out@;
                out.push(f);
                proof {
                    assert(types::frame_views(out@) =~= types::frame_views(before).push(f@));
                }
            },
            None => {},
        }
        i = i + 1;
    }
    proof {
        assert(all.take(n as int) =~= all);
        lemma_all_cleaned(all, flags);
        lemma_shown_spans(types::frame_views(out@));
    }
    let y_stats = compute_box_y_stats(out.as_slice());
    let frame_count: usize = out.len();
    OcrFramesBoxFilteredResult {
        frames: out,
        meta: OcrFramesBoxFilteredResultMeta { y_stats, frame_count },
    }
}

pub open spec fn plain_frames(s: Seq<box_adjust::AdjustedFrame>) -> Seq<types::FrameView> {
    s.map_values(|f: box_adjust::AdjustedFrame| box_adjust::plain(f))
}

/// Which regions of a frame are outliers.
pub open spec fn outliers(f: box_adjust::AdjustedFrame) -> Seq<bool> {
    f.boxes.map_values(|b: box_adjust::AdjustedBox| b.is_outlier)
}

pub open spec fn all_outliers(s: Seq<box_adjust::AdjustedFrame>) -> Seq<Seq<bool>> {
    s.map_values(|f: box_adjust::AdjustedFrame| outliers(f))
}

/// Removes the outliers from all frames.
pub fn ocr_frames_filter_box(frames: &[FrameResultBoxWithAdjust]) -> (r:
    OcrFramesBoxFilteredResult)
    requires
        all_heights_fit(plain_frames(box_adjust::adjusted_frames(frames@))),
    ensures
        ({
            let all = box_adjust::adjusted_frames(frames@);
            &&& types::frame_views(r.frames@) == all_cleaned(plain_frames(all), all_outliers(all))
            &&& r.meta.frame_count == r.frames@.len()
            &&& stats::describes(
                r.meta.y_stats,
                stats::shown_spans(types::frame_views(r.frames@)),
            )
        }),
{
    let mut plain: Vec<FrameResult> = Vec::new();
    let mut marks: Vec<Vec<bool>> = Vec::new();
    let mut i: usize = 0;
    while i < frames.len()
        invariant
            i <= frames@.len(),
            plain@.len() == i,
            marks@.len() == i,
            forall|k: int|
                0 <= k < i ==> (#[trigger] plain@[k])@ == box_adjust::plain(frames@[k]@),
            forall|k: int| 0 <= k < i ==> (#[trigger] marks@[k])@ == outliers(frames@[k]@),
        decreases frames@.len() - i,
    {
        let f = &frames[i];
        let mut flags: Vec<bool> = Vec::new();
        let mut j: usize = 0;
        while j < f.boxes.len()
            invariant
                j <= f.boxes@.len(),
                flags@.len() == j,
                forall|k: int| 0 <= k < j ==> #[trigger] flags@[k] == f.boxes@[k].is_outlier,
            decreases f.boxes@.len() - j,
        {
            flags.push(f.boxes[j].is_outlier);
            j = j + 1;
        }
        proof {
            assert(flags@ =~= outliers(f@));
        }
        plain.push(f.to_frame());
        marks.push(flags);
        i = i + 1;
    }
    proof {
        let all = box_adjust::adjusted_frames(frames@);
        assert(types::frame_views(plain@) =~= plain_frames(all));
        assert(mark_views(marks@) =~= all_outliers(all));
        assert forall|k: int| 0 <= k < plain@.len() implies (#[trigger] marks@[k])@.len()
            == plain@[k].boxes@.len() by {
            assert(plain@[k]@ == box_adjust::plain(frames@[k]@));
            assert(types::box_views(plain@[k].boxes@).len() == plain@[k].boxes@.len());
        }
    }
    filter_frames(plain, marks.as_slice())
}

/// No outlier is left: the regions of a cleaned frame are those that are not
/// marked, at the moment of the frame.
pub proof fn cleaning_keeps_unmarked_regions(f: types::FrameView, marks: Seq<bool>)
    requires
        marks.len() == f.boxes.len(),
    ensures
        match cleaned(f, marks) {
            None => unmarked(f.boxes, marks).len() == 0,
            Some(r) => r.boxes == unmarked(f.boxes, marks) && r.timestamp == f.timestamp,
        },
{
    lemma_all_kept(f.boxes, marks);
}

proof fn lemma_all_kept(boxes: Seq<types::BoxView>, marks: Seq<bool>)
    ensures
        unmarked(boxes, marks).len() <= boxes.len(),
        unmarked(boxes, marks).len() == boxes.len() ==> unmarked(boxes, marks) == boxes,
    decreases boxes.len(),
{
    if boxes.len() > 0 {
        lemma_all_kept(boxes.drop_last(), marks);
        assert(boxes.drop_last().push(boxes.last()) =~= boxes);
    }
}

} // verus!
