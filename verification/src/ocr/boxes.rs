//! Putting the regions recognised in one image together.
use super::fixed;
use super::fixed::{max_i64, mean_of, min_i64};
use super::types;
use super::types::{duplicate_boxes, FrameResult, OcrBoxResult, Point, Span};
use crate::text::strings;
use crate::text::strings::join;
use vstd::prelude::*;

verus! {

/// The smallest of some numbers.
pub open spec fn least(s: Seq<int>) -> int
    decreases s.len(),
{
    if s.len() <= 1 {
        s[0]
    } else {
        fixed::smaller(least(s.drop_last()), s.last())
    }
}

/// The largest of some numbers.
pub open spec fn greatest(s: Seq<int>) -> int
    decreases s.len(),
{
    if s.len() <= 1 {
        s[0]
    } else {
        fixed::larger(greatest(s.drop_last()), s.last())
    }
}

/// The smallest and the largest number are among the numbers, and all lie
/// between them.
pub proof fn span_is_tight(s: Seq<int>)
    requires
        s.len() > 0,
    ensures
        s.contains(least(s)),
        s.contains(greatest(s)),
        forall|i: int| 0 <= i < s.len() ==> least(s) <= #[trigger] s[i] <= greatest(s),
    decreases s.len(),
{
    if s.len() == 1 {
        assert(s.contains(s[0]));
    } else {
        let t = s.drop_last();
        span_is_tight(t);
        let a = choose|i: int| 0 <= i < t.len() && t[i] == least(t);
        let b = choose|i: int| 0 <= i < t.len() && t[i] == greatest(t);
        assert(s[a] == least(t) && s[b] == greatest(t));
        assert(s[s.len() - 1] == s.last());
        assert forall|i: int| 0 <= i < s.len() implies least(s) <= #[trigger] s[i] <= greatest(
            s,
        ) by {
            if i < t.len() {
                assert(t[i] == s[i]);
            }
        }
    }
}

/// All corners of some regions.
pub open spec fn corners(boxes: Seq<types::BoxView>) -> Seq<Point>
    decreases boxes.len(),
{
    if boxes.len() == 0 {
        Seq::empty()
    } else {
        corners(boxes.drop_last()) + boxes.last().bbox
    }
}

pub open spec fn xs(points: Seq<Point>) -> Seq<int> {
    points.map_values(|p: Point| p.x as int)
}

pub open spec fn ys(points: Seq<Point>) -> Seq<int> {
    points.map_values(|p: Point| p.y as int)
}

/// Whether a span reaches from the smallest to the largest of some numbers; with
/// no numbers it is at zero.
pub open spec fn spans(r: Span, s: Seq<int>) -> bool {
    if s.len() == 0 {
        r.low == 0 && r.high == 0
    } else {
        r.low == least(s) && r.high == greatest(s)
    }
}

/// Whether two regions share a height.
pub open spec fn beside(a: types::BoxView, b: types::BoxView) -> bool {
    a.y_range.high >= b.y_range.low && b.y_range.high >= a.y_range.low
}

/// Whether any two of the regions share a height.
pub open spec fn on_one_line(boxes: Seq<types::BoxView>) -> bool {
    exists|i: int, j: int| 0 <= i < j < boxes.len() && #[trigger] beside(boxes[i], boxes[j])
}

pub open spec fn box_texts(boxes: Seq<types::BoxView>) -> Seq<Seq<char>> {
    boxes.map_values(|b: types::BoxView| b.text)
}

pub open spec fn text_confidences(boxes: Seq<types::BoxView>) -> Seq<int> {
    boxes.map_values(|b: types::BoxView| b.text_confidence)
}

/// The text of one image: a space between the regions where two of them share a
/// height, a line break else.
pub open spec fn image_text(boxes: Seq<types::BoxView>) -> Seq<char> {
    strings::joined(
        box_texts(boxes),
        if on_one_line(boxes) {
            seq![' ']
        } else {
            seq!['\n']
        },
    )
}

/// What the regions of one image make together.
pub open spec fn aggregates(f: types::FrameView, boxes: Seq<types::BoxView>) -> bool {
    &&& f.text == image_text(boxes)
    &&& f.text_confidence == fixed::mean(text_confidences(boxes))
    &&& f.boxes == boxes
    &&& spans(f.x_range, xs(corners(boxes)))
    &&& spans(f.y_range, ys(corners(boxes)))
    &&& f.timestamp == 0
}

pub open spec fn span_of_all(s: Seq<int>) -> Span {
    if s.len() == 0 {
        Span { low: 0, high: 0 }
    } else {
        Span { low: least(s) as i64, high: greatest(s) as i64 }
    }
}

/// The frame that the regions of one image make together.
pub open spec fn aggregated(boxes: Seq<types::BoxView>) -> types::FrameView {
    types::FrameView {
        text: image_text(boxes),
        text_confidence: fixed::mean(text_confidences(boxes)),
        boxes,
        x_range: span_of_all(xs(corners(boxes))),
        y_range: span_of_all(ys(corners(boxes))),
        timestamp: 0,
    }
}

/// The regions of one image make one frame only.
pub proof fn lemma_aggregated(f: types::FrameView, boxes: Seq<types::BoxView>)
    requires
        aggregates(f, boxes),
    ensures
        f == aggregated(boxes),
{
}

/// The span of some numbers.
pub(crate) fn span_of(values: &[i64]) -> (r: Span)
    ensures
        spans(r, fixed::ints(values@)),
{
    if values.len() == 0 {
        return Span { low: 0, high: 0 };
    }
    let mut low: i64 = values[0];
    let mut high: i64 = values[0];
    let mut i: usize = 1;
    let ghost all = fixed::ints(values@);
    proof {
        assert(all.take(1) =~= seq![all[0]]);
    }
    while i < values.len()
        invariant
            1 <= i <= values@.len(),
            all == fixed::ints(values@),
            low == least(all.take(i as int)),
            high == greatest(all.take(i as int)),
        decreases values@.len() - i,
    {
        proof {
            assert(all.take(i + 1).drop_last() =~= all.take(i as int));
            assert(all.take(i + 1).last() == values@[i as int]);
        }
        low = min_i64(low, values[i]);
        high = max_i64(high, values[i]);
        i = i + 1;
    }
    proof {
        assert(all.take(values@.len() as int) =~= all);
    }
    Span { low, high }
}

fn corners_of(boxes: &[OcrBoxResult]) -> (r: Vec<Point>)
    ensures
        r@ == corners(types::box_views(boxes@)),
{
    let mut out: Vec<Point> = Vec::new();
    let mut i: usize = 0;
    let ghost all = types::box_views(boxes@);
    proof {
        assert(all.take(0) =~= Seq::<types::BoxView>::empty());
    }
    while i < boxes.len()
        invariant
            i <= boxes@.len(),
            all == types::box_views(boxes@),
            out@ == corners(all.take(i as int)),
        decreases boxes@.len() - i,
    {
        let ghost before = out@;
        let b = &boxes[i];
        proof {
            assert(all.take(i + 1).drop_last() =~= all.take(i as int));
            assert(all.take(i + 1).last() == b@);
        }
        out.push(b.bbox[0]);
        out.push(b.bbox[1]);
        out.push(b.bbox[2]);
        out.push(b.bbox[3]);
        proof {
            assert(out@ =~= before + b.bbox@);
        }
        i = i + 1;
    }
    proof {
        assert(all.take(boxes@.len() as int) =~= all);
    }
    out
}

/// The spans of all corners, across and down.
pub(crate) fn ranges_of(boxes: &[OcrBoxResult]) -> (r: (Span, Span))
    ensures
        spans(r.0, xs(corners(types::box_views(boxes@)))),
        spans(r.1, ys(corners(types::box_views(boxes@)))),
{
    let points = corners_of(boxes);
    let mut px: Vec<i64> = Vec::new();
    let mut py: Vec<i64> = Vec::new();
    let mut i: usize = 0;
    while i < points.len()
        invariant
            i <= points@.len(),
            px@.len() == i,
            py@.len() == i,
            forall|k: int| 0 <= k < i ==> #[trigger] px@[k] == points@[k].x,
            forall|k: int| 0 <= k < i ==> #[trigger] py@[k] == points@[k].y,
        decreases points@.len() - i,
    {
        px.push(points[i].x);
        py.push(points[i].y);
        i = i + 1;
    }
    proof {
        assert(fixed::ints(px@) =~= xs(points@));
        assert(fixed::ints(py@) =~= ys(points@));
    }
    (span_of(px.as_slice()), span_of(py.as_slice()))
}

/// The texts of some regions, in order.
pub(crate) fn texts_of(boxes: &[OcrBoxResult]) -> (r: Vec<String>)
    ensures
        strings::views(r@) == box_texts(types::box_views(boxes@)),
{
    let mut out: Vec<String> = Vec::new();
    let mut i: usize = 0;
    while i < boxes.len()
        invariant
            i <= boxes@.len(),
            out@.len() == i,
            forall|k: int| 0 <= k < i ==> (#[trigger] out@[k])@ == boxes@[k]@.text,
        decreases boxes@.len() - i,
    {
        out.push(boxes[i].text.clone());
        i = i + 1;
    }
    proof {
        assert(strings::views(out@) =~= box_texts(types::box_views(boxes@)));
    }
    out
}

/// The confidences of some regions, in order.
pub(crate) fn confidences_of(boxes: &[OcrBoxResult]) -> (r: Vec<i64>)
    ensures
        fixed::ints(r@) == text_confidences(types::box_views(boxes@)),
{
    let mut out: Vec<i64> = Vec::new();
    let mut i: usize = 0;
    while i < boxes.len()
        invariant
            i <= boxes@.len(),
            out@.len() == i,
            forall|k: int| 0 <= k < i ==> #[trigger] out@[k] == boxes@[k].text_confidence,
        decreases boxes@.len() - i,
    {
        out.push(boxes[i].text_confidence);
        i = i + 1;
    }
    proof {
        assert(fixed::ints(out@) =~= text_confidences(types::box_views(boxes@)));
    }
    out
}

fn find_one_line(boxes: &[OcrBoxResult]) -> (r: bool)
    ensures
        r == on_one_line(types::box_views(boxes@)),
{
    let ghost all = types::box_views(boxes@);
    let mut i: usize = 0;
    while i < boxes.len()
        invariant
            i <= boxes@.len(),
            all == types::box_views(boxes@),
            forall|a: int, b: int|
                0 <= a < i && a < b < all.len() ==> !#[trigger] beside(all[a], all[b]),
        decreases boxes@.len() - i,
    {
        let mut j: usize = i + 1;
        while j < boxes.len()
            invariant
                i < j <= boxes@.len(),
                all == types::box_views(boxes@),
                forall|b: int| i < b < j ==> !#[trigger] beside(all[i as int], all[b]),
            decreases boxes@.len() - j,
        {
            let a = &boxes[i];
            let b = &boxes[j];
            if a.y_range.high >= b.y_range.low && b.y_range.high >= a.y_range.low {
                proof {
                    assert(beside(all[i as int], all[j as int]));
                }
                return true;
            }
            j = j + 1;
        }
        i = i + 1;
    }
    false
}

/// Puts the regions of one image together: their text, the mean of their
/// confidences and the spans of their corners. No moment is set.
pub fn aggregate_boxes(boxes: &[OcrBoxResult]) -> (r: FrameResult)
    ensures
        aggregates(r@, types::box_views(boxes@)),
{
    let texts = texts_of(boxes);
    let mut sep = String::new();
    if find_one_line(boxes) {
        sep.push(' ');
        proof {
            assert(sep@ =~= seq![' ']);
        }
    } else {
        sep.push('\n');
        proof {
            assert(sep@ =~= seq!['\n']);
        }
    }
    let text = join(texts.as_slice(), sep.as_str());
    let confidences = confidences_of(boxes);
    let (x_range, y_range) = ranges_of(boxes);
    FrameResult {
        text,
        text_confidence: mean_of(confidences.as_slice()),
        boxes: duplicate_boxes(boxes),
        x_range,
        y_range,
        timestamp: 0,
    }
}

} // verus!
