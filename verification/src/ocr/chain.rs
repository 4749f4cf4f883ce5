//! The steps on what was read in the frames of a video fit together: unusual
//! regions are marked and removed, the frames are merged, and untrustworthy
//! segments are removed. What one step gives, the next one can take.
use super::bounds;
use super::bounds::Limits;
use super::box_adjust;
use super::box_filter;
use super::boxes;
use super::fixed;
use super::passes;
use super::segment_adjust;
use super::segments::MergeFramesArgs;
use super::stats;
use super::stats::{XStats, YStats};
use super::types;
use super::types::Span;
use vstd::prelude::*;

verus! {

/// A region of which the arithmetic stays within the machine.
pub open spec fn box_sane(b: types::BoxView) -> bool {
    &&& box_adjust::box_fits(b)
    &&& segment_adjust::moderate(b.text_confidence)
    &&& forall|k: int|
        0 <= k < b.bbox.len() ==> box_adjust::in_limits((#[trigger] b.bbox[k]).y as int)
}

pub open spec fn boxes_sane(s: Seq<types::BoxView>) -> bool {
    forall|i: int| 0 <= i < s.len() ==> box_sane(#[trigger] s[i])
}

/// A frame of which the arithmetic stays within the machine.
pub open spec fn frame_sane(f: types::FrameView) -> bool {
    &&& segment_adjust::moderate(f.text_confidence)
    &&& box_filter::span_fits(f.y_range)
    &&& boxes_sane(f.boxes)
}

pub open spec fn sane(frames: Seq<types::FrameView>) -> bool {
    forall|i: int| 0 <= i < frames.len() ==> frame_sane(#[trigger] frames[i])
}

proof fn lemma_unmarked(s: Seq<types::BoxView>, marks: Seq<bool>)
    requires
        boxes_sane(s),
    ensures
        boxes_sane(box_filter::unmarked(s, marks)),
    decreases s.len(),
{
    if s.len() > 0 {
        let t = s.drop_last();
        assert forall|i: int| 0 <= i < t.len() implies box_sane(#[trigger] t[i]) by {
            assert(t[i] == s[i]);
        }
        lemma_unmarked(t, marks);
        assert(box_sane(s[s.len() - 1]));
        let u = box_filter::unmarked(t, marks);
        let r = box_filter::unmarked(s, marks);
        assert forall|i: int| 0 <= i < r.len() implies box_sane(#[trigger] r[i]) by {
            if i < u.len() {
                assert(r[i] == u[i]);
            }
        }
    }
}

proof fn lemma_corners(s: Seq<types::BoxView>)
    requires
        boxes_sane(s),
    ensures
        forall|k: int|
            0 <= k < boxes::corners(s).len() ==> box_adjust::in_limits(
                (#[trigger] boxes::corners(s)[k]).y as int,
            ),
    decreases s.len(),
{
    if s.len() > 0 {
        let t = s.drop_last();
        assert forall|i: int| 0 <= i < t.len() implies box_sane(#[trigger] t[i]) by {
            assert(t[i] == s[i]);
        }
        lemma_corners(t);
        let last = s[s.len() - 1];
        assert(box_sane(last));
        let a = boxes::corners(t);
        let r = boxes::corners(s);
        assert forall|k: int| 0 <= k < r.len() implies box_adjust::in_limits(
            (#[trigger] r[k]).y as int,
        ) by {
            if k < a.len() {
                assert(r[k] == a[k]);
            } else {
                assert(r[k] == last.bbox[k - a.len()]);
            }
        }
    }
}

proof fn lemma_ends(s: Seq<int>, low: int, high: int)
    requires
        s.len() > 0,
        forall|i: int| 0 <= i < s.len() ==> low <= #[trigger] s[i] <= high,
    ensures
        low <= boxes::least(s) <= high,
        low <= boxes::greatest(s) <= high,
    decreases s.len(),
{
    assert(low <= s[s.len() - 1] <= high);
    if s.len() > 1 {
        let t = s.drop_last();
        assert forall|i: int| 0 <= i < t.len() implies low <= #[trigger] t[i] <= high by {
            assert(t[i] == s[i]);
        }
        lemma_ends(t, low, high);
    }
}

/// Regions with moderate numbers make a frame with moderate numbers.
proof fn lemma_aggregated(s: Seq<types::BoxView>)
    requires
        boxes_sane(s),
        s.len() > 0,
    ensures
        frame_sane(boxes::aggregated(s)),
{
    let c = boxes::text_confidences(s);
    assert forall|i: int| 0 <= i < c.len() implies -segment_adjust::LARGE <= #[trigger] c[i]
        <= segment_adjust::LARGE by {
        assert(box_sane(s[i]));
    }
    fixed::mean_lies_between(c, -segment_adjust::LARGE as int, segment_adjust::LARGE as int);
    lemma_corners(s);
    let y = boxes::ys(boxes::corners(s));
    if y.len() > 0 {
        assert forall|i: int| 0 <= i < y.len() implies -stats::LIMIT <= #[trigger] y[i]
            <= stats::LIMIT by {
            assert(box_adjust::in_limits(boxes::corners(s)[i].y as int));
        }
        lemma_ends(y, -stats::LIMIT as int, stats::LIMIT as int);
    }
}

proof fn lemma_cleaned(frames: Seq<types::FrameView>, marks: Seq<Seq<bool>>)
    requires
        sane(frames),
    ensures
        sane(box_filter::all_cleaned(frames, marks)),
    decreases frames.len(),
{
    if frames.len() > 0 {
        let t = frames.drop_last();
        assert forall|i: int| 0 <= i < t.len() implies frame_sane(#[trigger] t[i]) by {
            assert(t[i] == frames[i]);
        }
        lemma_cleaned(t, marks);
        let f = frames[frames.len() - 1];
        assert(frame_sane(f));
        let left = box_filter::unmarked(f.boxes, marks[frames.len() - 1]);
        lemma_unmarked(f.boxes, marks[frames.len() - 1]);
        if left.len() > 0 {
            lemma_aggregated(left);
        }
        let u = box_filter::all_cleaned(t, marks);
        let r = box_filter::all_cleaned(frames, marks);
        assert forall|i: int| 0 <= i < r.len() implies frame_sane(#[trigger] r[i]) by {
            if i < u.len() {
                assert(r[i] == u[i]);
            }
        }
    }
}

proof fn lemma_heights(frames: Seq<types::FrameView>)
    requires
        sane(frames),
    ensures
        box_filter::all_heights_fit(frames),
        stats::bounded(stats::shown_spans(frames)),
{
    assert forall|i: int| 0 <= i < frames.len() implies box_filter::heights_fit(
        (#[trigger] frames[i]).boxes,
    ) by {
        assert(frame_sane(frames[i]));
        let b = frames[i].boxes;
        assert forall|j: int| 0 <= j < b.len() implies box_filter::span_fits(
            (#[trigger] b[j]).y_range,
        ) by {
            assert(box_sane(b[j]));
        }
    }
    box_filter::lemma_shown_spans(frames);
}

proof fn lemma_common(s: Seq<Span>)
    requires
        s.len() > 0,
        stats::bounded(s),
    ensures
        box_filter::span_fits(stats::most_common_span(s).1),
    decreases s.len(),
{
    let t = s.drop_last();
    assert(box_filter::span_fits(s[s.len() - 1]));
    if t.len() > 0 {
        assert forall|i: int| 0 <= i < t.len() implies box_filter::span_fits(#[trigger] t[i]) by {
            assert(t[i] == s[i]);
        }
        lemma_common(t);
    }
}

/// The usual places of bounded spans are bounded.
proof fn lemma_stats(r: YStats, s: Seq<Span>)
    requires
        stats::bounded(s),
        stats::describes(r, s),
    ensures
        box_filter::span_fits(r.avg),
        box_filter::span_fits(r.mode),
{
    if s.len() > 0 {
        let low = -stats::LIMIT as int;
        let high = stats::LIMIT as int;
        let a = stats::tops(s);
        let b = stats::bottoms(s);
        assert forall|i: int| 0 <= i < a.len() implies low <= #[trigger] a[i] <= high by {
            assert(s[i].low as int == a[i]);
        }
        assert forall|i: int| 0 <= i < b.len() implies low <= #[trigger] b[i] <= high by {
            assert(s[i].high as int == b[i]);
        }
        fixed::mean_lies_between(a, low, high);
        fixed::mean_lies_between(b, low, high);
        lemma_common(s);
    }
}

/// Marking regions changes nothing in a frame: without what was computed for its
/// regions it is as before.
pub proof fn marking_keeps_frames(
    f: types::FrameView,
    y: YStats,
    x: XStats,
    threshold: int,
    logs: Seq<i64>,
)
    ensures
        box_adjust::plain(box_adjust::frame_lowered(f, y, x, threshold, logs)) == f,
{
    assert(box_adjust::plain(box_adjust::frame_lowered(f, y, x, threshold, logs)).boxes
        =~= f.boxes);
}

/// Frames with moderate numbers can be cleaned, whichever regions are marked. The
/// cleaned frames are not more, and have moderate numbers again. What they are
/// merged into can be adjusted by where they show text.
pub proof fn steps_fit_together(
    frames: Seq<types::FrameView>,
    marks: Seq<Seq<bool>>,
    args: MergeFramesArgs,
    y: YStats,
)
    requires
        sane(frames),
        stats::describes(y, stats::shown_spans(box_filter::all_cleaned(frames, marks))),
    ensures
        box_filter::all_heights_fit(frames),
        sane(box_filter::all_cleaned(frames, marks)),
        box_filter::all_cleaned(frames, marks).len() <= frames.len(),
        box_filter::span_fits(y.avg),
        box_filter::span_fits(y.mode),
        forall|i: int|
            0 <= i < passes::merged(box_filter::all_cleaned(frames, marks), args).len()
                ==> segment_adjust::fits(
                #[trigger] passes::merged(box_filter::all_cleaned(frames, marks), args)[i],
            ),
{
    let clean = box_filter::all_cleaned(frames, marks);
    lemma_heights(frames);
    lemma_cleaned(frames, marks);
    lemma_heights(clean);
    lemma_stats(y, stats::shown_spans(clean));
    box_filter::lemma_all_cleaned(frames, marks);
    let l = Limits {
        least: -segment_adjust::LARGE as int,
        most: segment_adjust::LARGE as int,
        top: -stats::LIMIT as int,
        bottom: stats::LIMIT as int,
    };
    assert forall|i: int| 0 <= i < clean.len() && (#[trigger] clean[i]).text.len() > 0 implies l.least
        <= clean[i].text_confidence <= l.most && l.spans(clean[i].y_range) by {
        assert(frame_sane(clean[i]));
    }
    bounds::merged_segments_keep_limits(clean, args, l);
    let m = passes::merged(clean, args);
    assert forall|i: int| 0 <= i < m.len() implies segment_adjust::fits(#[trigger] m[i]) by {
        assert(l.hold_of(m[i]));
    }
}

} // verus!
