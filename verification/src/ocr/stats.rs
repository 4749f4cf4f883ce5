//! Where the subtitles of a video usually stand, and how high their lines are.
use super::fixed;
use super::fixed::{floor_div, mean_of};
use super::types;
use super::types::{FrameResult, Span};
use crate::text::strings;
use crate::text::strings::is_blank;
use vstd::prelude::*;

verus! {

/// The largest coordinate, in billionths of a pixel, of which differences can be
/// taken.
pub const LIMIT: i64 = 4_000_000_000_000_000_000;

/// What the heights of some regions have in common.
#[derive(Clone, Copy, Debug, PartialEq, Eq, Structural)]
pub struct YStats {
    pub avg: Span,
    pub mode: Span,
    pub median: Span,
    pub avg_height: i64,
    pub median_height: i64,
    pub mode_height: i64,
}

impl Default for YStats {
    fn default() -> (r: YStats)
        ensures
            r == no_stats(),
    {
        YStats {
            avg: Span { low: 0, high: 0 },
            mode: Span { low: 0, high: 0 },
            median: Span { low: 0, high: 0 },
            avg_height: 0,
            median_height: 0,
            mode_height: 0,
        }
    }
}

pub open spec fn no_stats() -> YStats {
    YStats {
        avg: Span { low: 0, high: 0 },
        mode: Span { low: 0, high: 0 },
        median: Span { low: 0, high: 0 },
        avg_height: 0,
        median_height: 0,
        mode_height: 0,
    }
}

/// Where the centers of some regions stand across the image.
#[derive(Clone, Copy, Debug, PartialEq, Eq, Structural)]
pub struct XStats {
    pub avg: i64,
    pub mode: i64,
    pub median: i64,
}

/// Whether a region shows more than white space.
pub open spec fn shows_text(b: types::BoxView) -> bool {
    strings::trimmed(b.text).len() > 0
}

/// The spans, from top to bottom, of the regions that show a text.
pub open spec fn shown_in(boxes: Seq<types::BoxView>) -> Seq<Span>
    decreases boxes.len(),
{
    if boxes.len() == 0 {
        Seq::empty()
    } else if shows_text(boxes.last()) {
        shown_in(boxes.drop_last()).push(boxes.last().y_range)
    } else {
        shown_in(boxes.drop_last())
    }
}

pub open spec fn shown_spans(frames: Seq<types::FrameView>) -> Seq<Span>
    decreases frames.len(),
{
    if frames.len() == 0 {
        Seq::empty()
    } else {
        shown_spans(frames.drop_last()) + shown_in(frames.last().boxes)
    }
}

pub open spec fn tops(s: Seq<Span>) -> Seq<int> {
    s.map_values(|r: Span| r.low as int)
}

pub open spec fn bottoms(s: Seq<Span>) -> Seq<int> {
    s.map_values(|r: Span| r.high as int)
}

pub open spec fn heights(s: Seq<Span>) -> Seq<int> {
    s.map_values(|r: Span| r.high - r.low)
}

/// Ordered numbers with one more at its place.
pub open spec fn inserted(s: Seq<int>, x: int) -> Seq<int>
    decreases s.len(),
{
    if s.len() == 0 || s.last() <= x {
        s.push(x)
    } else {
        inserted(s.drop_last(), x).push(s.last())
    }
}

/// The numbers in ascending order.
pub open spec fn sorted(s: Seq<int>) -> Seq<int>
    decreases s.len(),
{
    if s.len() == 0 {
        s
    } else {
        inserted(sorted(s.drop_last()), s.last())
    }
}

/// The middle one of some numbers; the mean of the two middle ones, rounded
/// down, where their number is even.
pub open spec fn median(s: Seq<int>) -> int {
    let t = sorted(s);
    let m = t.len() as int / 2;
    if t.len() % 2 == 0 {
        (t[m - 1] + t[m]) / 2
    } else {
        t[m]
    }
}

/// The whole pixel next to a coordinate, away from zero from one half on.
pub open spec fn pixel(v: int) -> int {
    let n = (fixed::magnitude(v) + 500_000_000) / (fixed::ONE as int);
    fixed::clamped(
        if v < 0 {
            -n
        } else {
            n
        },
        i32::MIN as int,
        i32::MAX as int,
    )
}

/// How many of the numbers stand at a whole pixel.
pub open spec fn count_at(s: Seq<int>, k: int) -> nat
    decreases s.len(),
{
    if s.len() == 0 {
        0
    } else {
        count_at(s.drop_last(), k) + if pixel(s.last()) == k {
            1nat
        } else {
            0nat
        }
    }
}

/// The number whose pixel was the first to occur most often, and how often it
/// occurs.
pub open spec fn most_common(s: Seq<int>) -> (nat, int)
    decreases s.len(),
{
    if s.len() == 0 {
        (0, 0)
    } else {
        let before = most_common(s.drop_last());
        let n = count_at(s, pixel(s.last()));
        if n > before.0 {
            (n, s.last())
        } else {
            before
        }
    }
}

pub open spec fn same_pixels(a: Span, b: Span) -> bool {
    pixel(a.low as int) == pixel(b.low as int) && pixel(a.high as int) == pixel(b.high as int)
}

/// How many of the spans have the same whole pixels as the given one.
pub open spec fn count_like(s: Seq<Span>, r: Span) -> nat
    decreases s.len(),
{
    if s.len() == 0 {
        0
    } else {
        count_like(s.drop_last(), r) + if same_pixels(s.last(), r) {
            1nat
        } else {
            0nat
        }
    }
}

/// The span whose pixels were the first to occur most often, and how often they
/// occur.
pub open spec fn most_common_span(s: Seq<Span>) -> (nat, Span)
    decreases s.len(),
{
    if s.len() == 0 {
        (0, Span { low: 0, high: 0 })
    } else {
        let before = most_common_span(s.drop_last());
        let n = count_like(s, s.last());
        if n > before.0 {
            (n, s.last())
        } else {
            before
        }
    }
}

/// What is common to some spans.
pub open spec fn describes(r: YStats, s: Seq<Span>) -> bool {
    if s.len() == 0 {
        r == no_stats()
    } else {
        &&& r.avg.low == fixed::mean(tops(s))
        &&& r.avg.high == fixed::mean(bottoms(s))
        &&& r.median.low == median(tops(s))
        &&& r.median.high == median(bottoms(s))
        &&& r.mode == most_common_span(s).1
        &&& r.avg_height == fixed::mean(heights(s))
        &&& r.median_height == median(heights(s))
        &&& r.mode_height == most_common(sorted(heights(s))).1
    }
}

proof fn lemma_inserted(s: Seq<int>, x: int)
    requires
        forall|i: int, j: int| 0 <= i <= j < s.len() ==> #[trigger] s[i] <= #[trigger] s[j],
    ensures
        inserted(s, x).len() == s.len() + 1,
        inserted(s, x).to_multiset() == s.to_multiset().insert(x),
        forall|i: int, j: int|
            0 <= i <= j < s.len() + 1 ==> #[trigger] inserted(s, x)[i] <= #[trigger] inserted(
                s,
                x,
            )[j],
        s.len() > 0 && s.last() > x ==> inserted(s, x).last() == s.last(),
        s.len() == 0 || s.last() <= x ==> inserted(s, x).last() == x,
    decreases s.len(),
{
    broadcast use vstd::seq_lib::group_to_multiset_ensures;

    if s.len() == 0 || s.last() <= x {
        let r = s.push(x);
        assert forall|i: int, j: int| 0 <= i <= j < r.len() implies #[trigger] r[i]
            <= #[trigger] r[j] by {
            if j == s.len() && i < j {
                assert(s[i] <= s[s.len() - 1]);
            }
        }
    } else {
        let t = s.drop_last();
        assert forall|i: int, j: int| 0 <= i <= j < t.len() implies #[trigger] t[i]
            <= #[trigger] t[j] by {
            assert(t[i] == s[i] && t[j] == s[j]);
        }
        lemma_inserted(t, x);
        let u = inserted(t, x);
        let r = u.push(s.last());
        assert(t.push(s.last()) =~= s);
        assert(r.to_multiset() =~= s.to_multiset().insert(x));
        assert forall|i: int, j: int| 0 <= i <= j < r.len() implies #[trigger] r[i]
            <= #[trigger] r[j] by {
            if i < u.len() {
                assert(u[i] <= u[u.len() - 1]);
                if t.len() > 0 {
                    assert(t.last() == s[s.len() - 2]);
                    assert(s[s.len() - 2] <= s[s.len() - 1]);
                }
            }
        }
    }
}

/// Sorting keeps the numbers and puts them in ascending order.
pub proof fn sorting_orders(s: Seq<int>)
    ensures
        sorted(s).len() == s.len(),
        sorted(s).to_multiset() == s.to_multiset(),
        forall|i: int, j: int|
            0 <= i <= j < s.len() ==> #[trigger] sorted(s)[i] <= #[trigger] sorted(s)[j],
    decreases s.len(),
{
    broadcast use vstd::seq_lib::group_to_multiset_ensures;

    if s.len() > 0 {
        sorting_orders(s.drop_last());
        lemma_inserted(sorted(s.drop_last()), s.last());
        assert(s.drop_last().push(s.last()) =~= s);
    }
}

/// The pixel of the most common number occurs as often as said, and none occurs
/// more often.
pub proof fn most_common_occurs_most(s: Seq<int>)
    ensures
        s.len() > 0 ==> most_common(s).0 == count_at(s, pixel(most_common(s).1)),
        s.len() > 0 ==> most_common(s).0 > 0,
        forall|k: int| #[trigger] count_at(s, k) <= most_common(s).0,
    decreases s.len(),
{
    if s.len() > 0 {
        let t = s.drop_last();
        most_common_occurs_most(t);
        assert forall|k: int| #[trigger] count_at(s, k) <= most_common(s).0 by {
            assert(count_at(t, k) <= most_common(t).0);
        }
        if t.len() > 0 {
            assert(count_at(t, pixel(most_common(t).1)) == most_common(t).0);
        }
    }
}

/// The most common span occurs as often as said, and none occurs more often.
pub proof fn most_common_span_occurs_most(s: Seq<Span>)
    ensures
        s.len() > 0 ==> most_common_span(s).0 == count_like(s, most_common_span(s).1),
        s.len() > 0 ==> most_common_span(s).0 > 0,
        forall|r: Span| #[trigger] count_like(s, r) <= most_common_span(s).0,
    decreases s.len(),
{
    if s.len() > 0 {
        let t = s.drop_last();
        most_common_span_occurs_most(t);
        assert forall|r: Span| #[trigger] count_like(s, r) <= most_common_span(s).0 by {
            assert(count_like(t, r) <= most_common_span(t).0);
            if same_pixels(s.last(), r) {
                lemma_like(t, s.last(), r);
            }
        }
        if t.len() > 0 {
            assert(count_like(t, most_common_span(t).1) == most_common_span(t).0);
            if same_pixels(s.last(), most_common_span(t).1) {
                lemma_like(t, s.last(), most_common_span(t).1);
            }
        }
    }
}

proof fn lemma_like(s: Seq<Span>, a: Span, b: Span)
    requires
        same_pixels(a, b),
    ensures
        count_like(s, a) == count_like(s, b),
    decreases s.len(),
{
    if s.len() > 0 {
        lemma_like(s.drop_last(), a, b);
    }
}

/// Sorts numbers.
pub(crate) fn sort_values(values: &[i64]) -> (r: Vec<i64>)
    ensures
        fixed::ints(r@) == sorted(fixed::ints(values@)),
{
    let mut out: Vec<i64> = Vec::new();
    let mut i: usize = 0;
    let ghost all = fixed::ints(values@);
    proof {
        assert(fixed::ints(out@) =~= all.take(0));
    }
    while i < values.len()
        invariant
            i <= values@.len(),
            out@.len() == i,
            all == fixed::ints(values@),
            fixed::ints(out@) == sorted(all.take(i as int)),
        decreases values@.len() - i,
    {
        let x: i64 = values[i];
        let ghost s = fixed::ints(out@);
        proof {
            assert(all.take(i + 1).drop_last() =~= all.take(i as int));
            assert(all.take(i + 1).last() == x);
        }
        let mut p: usize = out.len();
        proof {
            assert(s.take(p as int) =~= s);
            assert(inserted(s, x as int) + s.skip(p as int) =~= inserted(s, x as int));
        }
        while p > 0 && out[p - 1] > x
            invariant
                p <= out@.len(),
                s == fixed::ints(out@),
                inserted(s, x as int) == inserted(s.take(p as int), x as int) + s.skip(p as int),
            decreases p,
        {
            proof {
                let t = s.take(p as int);
                assert(t.drop_last() =~= s.take(p - 1));
                assert(t.last() == out@[p - 1]);
                assert(inserted(s.take(p - 1), x as int).push(t.last()) + s.skip(p as int)
                    =~= inserted(s.take(p - 1), x as int) + s.skip(p - 1));
            }
            p = p - 1;
        }
        out.insert(p, x);
        proof {
            let t = s.take(p as int);
            assert(inserted(t, x as int) == t.push(x as int)) by {
                if p > 0 {
                    assert(t.last() == s[p - 1]);
                }
            }
            assert(fixed::ints(out@) =~= t.push(x as int) + s.skip(p as int));
        }
        i = i + 1;
    }
    proof {
        assert(all.take(values@.len() as int) =~= all);
    }
    out
}

fn median_of(values: &[i64]) -> (m: i64)
    requires
        values@.len() > 0,
    ensures
        m == median(fixed::ints(values@)),
{
    let t = sort_values(values);
    proof {
        sorting_orders(fixed::ints(values@));
        assert(fixed::ints(t@).len() == values@.len());
    }
    let k: usize = t.len() / 2;
    if t.len() % 2 == 0 {
        let sum: i128 = t[k - 1] as i128 + t[k] as i128;
        floor_div(sum, 2) as i64
    } else {
        t[k]
    }
}

fn pixel_of(v: i64) -> (k: i64)
    ensures
        k == pixel(v as int),
{
    let wide: i128 = v as i128;
    let n: i128 = if wide < 0 {
        let q: i128 = (500_000_000 - wide) / (fixed::ONE as i128);
        -q
    } else {
        (wide + 500_000_000) / (fixed::ONE as i128)
    };
    if n < -2_147_483_648 {
        -2_147_483_648
    } else if n > 2_147_483_647 {
        2_147_483_647
    } else {
        n as i64
    }
}

fn most_common_of(values: &[i64]) -> (r: i64)
    ensures
        r == most_common(fixed::ints(values@)).1,
{
    let ghost all = fixed::ints(values@);
    let mut best: usize = 0;
    let mut value: i64 = 0;
    let mut i: usize = 0;
    proof {
        assert(all.take(0) =~= Seq::<int>::empty());
    }
    while i < values.len()
        invariant
            i <= values@.len(),
            all == fixed::ints(values@),
            most_common(all.take(i as int)) == (best as nat, value as int),
        decreases values@.len() - i,
    {
        let key: i64 = pixel_of(values[i]);
        let mut n: usize = 0;
        let mut j: usize = 0;
        while j <= i
            invariant
                i < values@.len(),
                j <= i + 1,
                n <= j,
                all == fixed::ints(values@),
                n == count_at(all.take(j as int), key as int),
            decreases i + 1 - j,
        {
            proof {
                assert(all.take(j + 1).drop_last() =~= all.take(j as int));
                assert(all.take(j + 1).last() == values@[j as int]);
            }
            if pixel_of(values[j]) == key {
                n = n + 1;
            }
            j = j + 1;
        }
        proof {
            assert(all.take(i + 1).drop_last() =~= all.take(i as int));
            assert(all.take(i + 1).last() == values@[i as int]);
        }
        if n > best {
            best = n;
            value = values[i];
        }
        i = i + 1;
    }
    proof {
        assert(all.take(values@.len() as int) =~= all);
    }
    value
}

fn most_common_span_of(s: &[Span]) -> (r: Span)
    ensures
        r == most_common_span(s@).1,
{
    let mut best: usize = 0;
    let mut value = Span { low: 0, high: 0 };
    let mut i: usize = 0;
    proof {
        assert(s@.take(0) =~= Seq::<Span>::empty());
    }
    while i < s.len()
        invariant
            i <= s@.len(),
            most_common_span(s@.take(i as int)) == (best as nat, value),
        decreases s@.len() - i,
    {
        let low: i64 = pixel_of(s[i].low);
        let high: i64 = pixel_of(s[i].high);
        let mut n: usize = 0;
        let mut j: usize = 0;
        while j <= i
            invariant
                i < s@.len(),
                j <= i + 1,
                n <= j,
                low == pixel(s@[i as int].low as int),
                high == pixel(s@[i as int].high as int),
                n == count_like(s@.take(j as int), s@[i as int]),
            decreases i + 1 - j,
        {
            proof {
                assert(s@.take(j + 1).drop_last() =~= s@.take(j as int));
                assert(s@.take(j + 1).last() == s@[j as int]);
            }
            if pixel_of(s[j].low) == low && pixel_of(s[j].high) == high {
                n = n + 1;
            }
            j = j + 1;
        }
        proof {
            assert(s@.take(i + 1).drop_last() =~= s@.take(i as int));
            assert(s@.take(i + 1).last() == s@[i as int]);
        }
        if n > best {
            best = n;
            value = s[i];
        }
        i = i + 1;
    }
    proof {
        assert(s@.take(s@.len() as int) =~= s@);
    }
    value
}

/// Spans between coordinates of which differences can be taken.
pub open spec fn bounded(s: Seq<Span>) -> bool {
    forall|i: int|
        0 <= i < s.len() ==> -LIMIT <= (#[trigger] s[i]).low <= LIMIT && -LIMIT <= s[i].high
            <= LIMIT
}

fn collect_spans(frames: &[FrameResult]) -> (r: Vec<Span>)
    ensures
        r@ == shown_spans(types::frame_views(frames@)),
{
    let mut out: Vec<Span> = Vec::new();
    let ghost all = types::frame_views(frames@);
    let mut i: usize = 0;
    proof {
        assert(all.take(0) =~= Seq::<types::FrameView>::empty());
    }
    while i < frames.len()
        invariant
            i <= frames@.len(),
            all == types::frame_views(frames@),
            out@ == shown_spans(all.take(i as int)),
        decreases frames@.len() - i,
    {
        let boxes = &frames[i].boxes;
        let ghost before = out@;
        let ghost views = types::box_views(boxes@);
        let mut j: usize = 0;
        proof {
            assert(all.take(i + 1).drop_last() =~= all.take(i as int));
            assert(all.take(i + 1).last() == frames@[i as int]@);
            assert(views.take(0) =~= Seq::<types::BoxView>::empty());
            assert(before + shown_in(views.take(0)) =~= before);
        }
        while j < boxes.len()
            invariant
                j <= boxes@.len(),
                views == types::box_views(boxes@),
                out@ == before + shown_in(views.take(j as int)),
            decreases boxes@.len() - j,
        {
            proof {
                assert(views.take(j + 1).drop_last() =~= views.take(j as int));
                assert(views.take(j + 1).last() == boxes@[j as int]@);
            }
            if !is_blank(boxes[j].text.as_str()) {
                out.push(boxes[j].y_range);
                proof {
                    assert((before + shown_in(views.take(j as int))).push(boxes@[j as int].y_range)
                        =~= before + shown_in(views.take(j as int)).push(boxes@[j as int].y_range));
                }
            }
            j = j + 1;
        }
        proof {
            assert(views.take(boxes@.len() as int) =~= views);
        }
        i = i + 1;
    }
    proof {
        assert(all.take(frames@.len() as int) =~= all);
    }
    out
}

/// Where the regions with text usually stand, and how high they are; all zero
/// where there are none.
pub fn compute_box_y_stats(frames: &[FrameResult]) -> (r: YStats)
    requires
        bounded(shown_spans(types::frame_views(frames@))),
    ensures
        describes(r, shown_spans(types::frame_views(frames@))),
{
    let spans = collect_spans(frames);
    if spans.len() == 0 {
        return YStats::default();
    }
    let mut top: Vec<i64> = Vec::new();
    let mut bottom: Vec<i64> = Vec::new();
    let mut height: Vec<i64> = Vec::new();
    let mut i: usize = 0;
    while i < spans.len()
        invariant
            i <= spans@.len(),
            bounded(spans@),
            top@.len() == i,
            bottom@.len() == i,
            height@.len() == i,
            forall|k: int| 0 <= k < i ==> #[trigger] top@[k] == spans@[k].low,
            forall|k: int| 0 <= k < i ==> #[trigger] bottom@[k] == spans@[k].high,
            forall|k: int| 0 <= k < i ==> #[trigger] height@[k] == spans@[k].high - spans@[k].low,
        decreases spans@.len() - i,
    {
        let r = spans[i];
        proof {
            assert(-LIMIT <= spans@[i as int].low <= LIMIT);
        }
        top.push(r.low);
        bottom.push(r.high);
        height.push(r.high - r.low);
        i = i + 1;
    }
    proof {
        assert(fixed::ints(top@) =~= tops(spans@));
        assert(fixed::ints(bottom@) =~= bottoms(spans@));
        assert(fixed::ints(height@) =~= heights(spans@));
    }
    let ordered = sort_values(height.as_slice());
    YStats {
        avg: Span { low: mean_of(top.as_slice()), high: mean_of(bottom.as_slice()) },
        mode: most_common_span_of(spans.as_slice()),
        median: Span { low: median_of(top.as_slice()), high: median_of(bottom.as_slice()) },
        avg_height: mean_of(height.as_slice()),
        median_height: median_of(height.as_slice()),
        mode_height: most_common_of(ordered.as_slice()),
    }
}

/// The horizontal centers of the regions that show a text.
pub open spec fn centers_in(boxes: Seq<types::BoxView>) -> Seq<int>
    decreases boxes.len(),
{
    if boxes.len() == 0 {
        Seq::empty()
    } else if shows_text(boxes.last()) {
        centers_in(boxes.drop_last()).push(boxes.last().center.x as int)
    } else {
        centers_in(boxes.drop_last())
    }
}

pub open spec fn shown_centers(frames: Seq<types::FrameView>) -> Seq<int>
    decreases frames.len(),
{
    if frames.len() == 0 {
        Seq::empty()
    } else {
        shown_centers(frames.drop_last()) + centers_in(frames.last().boxes)
    }
}

/// What is common to some horizontal centers.
pub open spec fn describes_centers(r: XStats, s: Seq<int>) -> bool {
    if s.len() == 0 {
        r == (XStats { avg: 0, mode: 0, median: 0 })
    } else {
        &&& r.avg == fixed::mean(s)
        &&& r.median == median(s)
        &&& r.mode == most_common(s).1
    }
}

fn collect_centers(frames: &[FrameResult]) -> (r: Vec<i64>)
    ensures
        fixed::ints(r@) == shown_centers(types::frame_views(frames@)),
{
    let mut out: Vec<i64> = Vec::new();
    let ghost all = types::frame_views(frames@);
    let mut i: usize = 0;
    proof {
        assert(all.take(0) =~= Seq::<types::FrameView>::empty());
        assert(fixed::ints(out@) =~= Seq::<int>::empty());
    }
    while i < frames.len()
        invariant
            i <= frames@.len(),
            all == types::frame_views(frames@),
            fixed::ints(out@) == shown_centers(all.take(i as int)),
        decreases frames@.len() - i,
    {
        let boxes = &frames[i].boxes;
        let ghost before = fixed::ints(out@);
        let ghost views = types::box_views(boxes@);
        let mut j: usize = 0;
        proof {
            assert(all.take(i + 1).drop_last() =~= all.take(i as int));
            assert(all.take(i + 1).last() == frames@[i as int]@);
            assert(views.take(0) =~= Seq::<types::BoxView>::empty());
            assert(before + centers_in(views.take(0)) =~= before);
        }
        while j < boxes.len()
            invariant
                j <= boxes@.len(),
                views == types::box_views(boxes@),
                fixed::ints(out@) == before + centers_in(views.take(j as int)),
            decreases boxes@.len() - j,
        {
            let x: i64 = boxes[j].center.x;
            let ghost found = out@;
            proof {
                assert(views.take(j + 1).drop_last() =~= views.take(j as int));
                assert(views.take(j + 1).last() == boxes@[j as int]@);
            }
            if !is_blank(boxes[j].text.as_str()) {
                out.push(x);
                proof {
                    assert(fixed::ints(out@) =~= fixed::ints(found).push(x as int));
                    assert((before + centers_in(views.take(j as int))).push(x as int) =~= before
                        + centers_in(views.take(j as int)).push(x as int));
                }
            }
            j = j + 1;
        }
        proof {
            assert(views.take(boxes@.len() as int) =~= views);
        }
        i = i + 1;
    }
    proof {
        assert(all.take(frames@.len() as int) =~= all);
    }
    out
}

/// Where the centers of the regions with text usually stand across the image; all
/// zero where there are none.
pub fn compute_box_x_stats(frames: &[FrameResult]) -> (r: XStats)
    ensures
        describes_centers(r, shown_centers(types::frame_views(frames@))),
{
    let centers = collect_centers(frames);
    proof {
        assert(fixed::ints(centers@).len() == centers@.len());
    }
    if centers.len() == 0 {
        return XStats { avg: 0, mode: 0, median: 0 };
    }
    XStats {
        avg: mean_of(centers.as_slice()),
        mode: most_common_of(centers.as_slice()),
        median: median_of(centers.as_slice()),
    }
}

} // verus!
