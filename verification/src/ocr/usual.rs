//! What the usual place and height of the text say of its regions.
use super::continuity;
use super::fixed;
use super::stats;
use super::stats::{XStats, YStats};
use super::types::{BoxView, FrameView, Span};
use crate::text::strings;
use vstd::prelude::*;

verus! {

/// The regions with a text that is not blank count, each once and in order.
pub proof fn visible_regions_count(
    frames: Seq<FrameView>,
    f: FrameView,
    s: Seq<BoxView>,
    b: BoxView,
)
    ensures
        stats::shown_spans(Seq::empty()).len() == 0,
        stats::shown_spans(frames.push(f)) == stats::shown_spans(frames) + stats::shown_in(f.boxes),
        stats::shown_in(Seq::empty()).len() == 0,
        stats::shown_in(s.push(b)) == if strings::trimmed(b.text).len() > 0 {
            stats::shown_in(s).push(b.y_range)
        } else {
            stats::shown_in(s)
        },
        stats::shown_centers(Seq::empty()).len() == 0,
        stats::shown_centers(frames.push(f)) == stats::shown_centers(frames) + stats::centers_in(
            f.boxes,
        ),
        stats::centers_in(Seq::empty()).len() == 0,
        stats::centers_in(s.push(b)) == if strings::trimmed(b.text).len() > 0 {
            stats::centers_in(s).push(b.center.x as int)
        } else {
            stats::centers_in(s)
        },
{
    assert(frames.push(f).drop_last() =~= frames);
    assert(s.push(b).drop_last() =~= s);
}

/// Whether a number is the mean of some others, rounded down.
pub open spec fn is_mean(m: int, s: Seq<int>) -> bool {
    s.len() * m <= continuity::sum(s) < s.len() * (m + 1)
}

/// Whether a number stands in the middle of some others, which are odd in
/// number: it is one of them, and at most half of them are smaller, or larger.
pub open spec fn is_middle(m: int, s: Seq<int>) -> bool {
    &&& s.contains(m)
    &&& 2 * s.filter(|v: int| v < m).len() < s.len()
    &&& 2 * s.filter(|v: int| v > m).len() < s.len()
}

/// Whether two numbers stand in the middle of some others, which are even in
/// number: fewer than half of them are smaller than the first or larger than the
/// second, and no more than half are smaller than the second or larger than the
/// first.
pub open spec fn are_middle(a: int, b: int, s: Seq<int>) -> bool {
    &&& s.contains(a)
    &&& s.contains(b)
    &&& a <= b
    &&& 2 * s.filter(|v: int| v < a).len() < s.len()
    &&& 2 * s.filter(|v: int| v > b).len() < s.len()
    &&& 2 * s.filter(|v: int| v < b).len() <= s.len()
    &&& 2 * s.filter(|v: int| v > a).len() <= s.len()
}

/// Whether a number is the median of some others.
pub open spec fn is_median(m: int, s: Seq<int>) -> bool {
    if s.len() % 2 == 1 {
        is_middle(m, s)
    } else {
        exists|a: int, b: int| #[trigger] are_middle(a, b, s) && 0 <= a + b - 2 * m <= 1
    }
}

proof fn lemma_push_count(s: Seq<int>, x: int, p: spec_fn(int) -> bool)
    ensures
        s.push(x).filter(p).len() == s.filter(p).len() + if p(x) {
            1nat
        } else {
            0nat
        },
{
    reveal(Seq::filter);
    assert(s.push(x).drop_last() =~= s);
}

proof fn lemma_inserted_count(s: Seq<int>, x: int, p: spec_fn(int) -> bool)
    ensures
        stats::inserted(s, x).filter(p).len() == s.push(x).filter(p).len(),
    decreases s.len(),
{
    lemma_push_count(s, x, p);
    if s.len() > 0 && s.last() > x {
        let t = s.drop_last();
        lemma_inserted_count(t, x, p);
        lemma_push_count(t, x, p);
        lemma_push_count(stats::inserted(t, x), s.last(), p);
        lemma_push_count(t, s.last(), p);
        assert(t.push(s.last()) =~= s);
    }
}

proof fn lemma_sorted_count(s: Seq<int>, p: spec_fn(int) -> bool)
    ensures
        stats::sorted(s).filter(p).len() == s.filter(p).len(),
    decreases s.len(),
{
    if s.len() > 0 {
        let t = s.drop_last();
        let u = stats::sorted(t);
        lemma_sorted_count(t, p);
        lemma_inserted_count(u, s.last(), p);
        lemma_push_count(u, s.last(), p);
        lemma_push_count(t, s.last(), p);
        assert(t.push(s.last()) =~= s);
    }
}

proof fn lemma_first_only(s: Seq<int>, p: spec_fn(int) -> bool, m: int)
    requires
        0 <= m <= s.len(),
        forall|i: int| m <= i < s.len() ==> !p(#[trigger] s[i]),
    ensures
        s.filter(p).len() <= m,
    decreases s.len(),
{
    reveal(Seq::filter);
    s.lemma_filter_len(p);
    if m < s.len() {
        let t = s.drop_last();
        assert(forall|i: int| m <= i < t.len() ==> t[i] == #[trigger] s[i]);
        assert(!p(s[s.len() - 1]));
        lemma_first_only(t, p, m);
    }
}

proof fn lemma_last_only(s: Seq<int>, p: spec_fn(int) -> bool, m: int)
    requires
        0 <= m <= s.len(),
        forall|i: int| 0 <= i < m ==> !p(#[trigger] s[i]),
    ensures
        s.filter(p).len() <= s.len() - m,
    decreases s.len(),
{
    reveal(Seq::filter);
    if s.len() > 0 {
        let t = s.drop_last();
        assert(forall|i: int| 0 <= i < t.len() ==> t[i] == #[trigger] s[i]);
        if m < s.len() {
            lemma_last_only(t, p, m);
        } else {
            assert(!p(s[s.len() - 1]));
            lemma_last_only(t, p, m - 1);
        }
    }
}

proof fn lemma_sorted_among(s: Seq<int>, v: int)
    requires
        stats::sorted(s).contains(v),
    ensures
        s.contains(v),
{
    broadcast use vstd::seq_lib::group_to_multiset_ensures;

    stats::sorting_orders(s);
    assert(stats::sorted(s).to_multiset().count(v) > 0);
    assert(s.to_multiset().count(v) > 0);
}

/// The median of some numbers stands in their middle.
pub proof fn medians_stand_in_the_middle(s: Seq<int>)
    requires
        s.len() > 0,
    ensures
        is_median(stats::median(s), s),
{
    let t = stats::sorted(s);
    stats::sorting_orders(s);
    let n = s.len() as int;
    let m = n / 2;
    assert(t.contains(t[m]));
    lemma_sorted_among(s, t[m]);
    let hi = t[m];
    let below_hi = |v: int| v < hi;
    let above_hi = |v: int| v > hi;
    lemma_sorted_count(s, below_hi);
    lemma_sorted_count(s, above_hi);
    lemma_first_only(t, below_hi, m);
    assert(forall|i: int| 0 <= i < m + 1 ==> #[trigger] t[i] <= t[m]);
    lemma_last_only(t, above_hi, m + 1);
    if n % 2 == 0 {
        let lo = t[m - 1];
        assert(t.contains(lo));
        lemma_sorted_among(s, lo);
        let below_lo = |v: int| v < lo;
        let above_lo = |v: int| v > lo;
        lemma_sorted_count(s, below_lo);
        lemma_sorted_count(s, above_lo);
        assert(forall|i: int| m - 1 <= i < t.len() ==> t[m - 1] <= #[trigger] t[i]);
        lemma_first_only(t, below_lo, m - 1);
        assert(forall|i: int| 0 <= i < m ==> #[trigger] t[i] <= t[m - 1]);
        lemma_last_only(t, above_lo, m);
        assert(are_middle(lo, hi, s));
    } else {
        assert(is_middle(hi, s));
    }
}

/// A coordinate belongs to the pixel next to it, to the one further from zero
/// where two are.
pub proof fn coordinates_belong_to_the_next_pixel(v: int)
    requires
        -2_000_000_000_000_000_000 <= v <= 2_000_000_000_000_000_000,
    ensures
        v >= 0 ==> -500_000_000 <= v - 1_000_000_000 * stats::pixel(v) < 500_000_000,
        v <= 0 ==> -500_000_000 < v - 1_000_000_000 * stats::pixel(v) <= 500_000_000,
{
}

proof fn lemma_count_at(s: Seq<int>, k: int)
    ensures
        stats::count_at(s, k) == s.filter(|v: int| stats::pixel(v) == k).len(),
    decreases s.len(),
{
    reveal(Seq::filter);
    if s.len() > 0 {
        lemma_count_at(s.drop_last(), k);
    }
}

proof fn lemma_common_among(s: Seq<int>)
    requires
        s.len() > 0,
    ensures
        s.contains(stats::most_common(s).1),
    decreases s.len(),
{
    let t = s.drop_last();
    stats::most_common_occurs_most(s);
    if s.len() == 1 {
        assert(s[0] == s.last());
        assert(t =~= Seq::<int>::empty());
        assert(stats::most_common(t).0 == 0);
    } else {
        lemma_common_among(t);
        if stats::most_common(s).1 == s.last() {
            assert(s[s.len() - 1] == s.last());
        } else {
            let i = choose|i: int| 0 <= i < t.len() && t[i] == stats::most_common(t).1;
            assert(s[i] == t[i]);
        }
    }
}

/// Whether a number is one of some others, at the pixel where most of them
/// stand.
pub open spec fn is_mode(m: int, s: Seq<int>) -> bool {
    &&& s.contains(m)
    &&& forall|v: int| #[trigger]
        s.contains(v) ==> s.filter(|x: int| stats::pixel(x) == stats::pixel(v)).len() <= s.filter(
            |x: int| stats::pixel(x) == stats::pixel(m),
        ).len()
}

/// The most common number stands where most of them do.
pub proof fn modes_stand_where_most_do(s: Seq<int>)
    requires
        s.len() > 0,
    ensures
        is_mode(stats::most_common(s).1, s),
{
    stats::most_common_occurs_most(s);
    lemma_common_among(s);
    let m = stats::most_common(s).1;
    lemma_count_at(s, stats::pixel(m));
    assert forall|v: int| #[trigger] s.contains(v) implies s.filter(
        |x: int| stats::pixel(x) == stats::pixel(v),
    ).len() <= s.filter(|x: int| stats::pixel(x) == stats::pixel(m)).len() by {
        lemma_count_at(s, stats::pixel(v));
        assert(stats::count_at(s, stats::pixel(v)) <= stats::most_common(s).0);
    }
}

/// Whether two spans begin and end at the same pixels.
pub open spec fn alike(a: Span, b: Span) -> bool {
    &&& stats::pixel(a.low as int) == stats::pixel(b.low as int)
    &&& stats::pixel(a.high as int) == stats::pixel(b.high as int)
}

proof fn lemma_count_like(s: Seq<Span>, r: Span)
    ensures
        stats::count_like(s, r) == s.filter(|v: Span| alike(v, r)).len(),
    decreases s.len(),
{
    reveal(Seq::filter);
    if s.len() > 0 {
        lemma_count_like(s.drop_last(), r);
    }
}

proof fn lemma_span_among(s: Seq<Span>)
    requires
        s.len() > 0,
    ensures
        s.contains(stats::most_common_span(s).1),
    decreases s.len(),
{
    let t = s.drop_last();
    stats::most_common_span_occurs_most(s);
    if s.len() == 1 {
        assert(s[0] == s.last());
        assert(t =~= Seq::<Span>::empty());
        assert(stats::most_common_span(t).0 == 0);
    } else {
        lemma_span_among(t);
        if stats::most_common_span(s).1 == s.last() {
            assert(s[s.len() - 1] == s.last());
        } else {
            let i = choose|i: int| 0 <= i < t.len() && t[i] == stats::most_common_span(t).1;
            assert(s[i] == t[i]);
        }
    }
}

/// Whether a span is one of some others, and most of them begin and end at its
/// pixels.
pub open spec fn is_usual(m: Span, s: Seq<Span>) -> bool {
    &&& s.contains(m)
    &&& forall|v: Span| #[trigger]
        s.contains(v) ==> s.filter(|x: Span| alike(x, v)).len() <= s.filter(
            |x: Span| alike(x, m),
        ).len()
}

/// The most common span lies where most of them do.
pub proof fn usual_spans_lie_where_most_do(s: Seq<Span>)
    requires
        s.len() > 0,
    ensures
        is_usual(stats::most_common_span(s).1, s),
{
    stats::most_common_span_occurs_most(s);
    lemma_span_among(s);
    let m = stats::most_common_span(s).1;
    lemma_count_like(s, m);
    assert forall|v: Span| #[trigger] s.contains(v) implies s.filter(|x: Span| alike(x, v)).len()
        <= s.filter(|x: Span| alike(x, m)).len() by {
        lemma_count_like(s, v);
        assert(stats::count_like(s, v) <= stats::most_common_span(s).0);
    }
}

/// The usual rows of the text: means, medians and the most common ones, of the
/// upper borders, the lower borders and the heights of the regions.
pub proof fn usual_rows_describe_the_regions(r: YStats, s: Seq<Span>)
    requires
        stats::describes(r, s),
        s.len() > 0,
    ensures
        ({
            let tops = Seq::new(s.len(), |i: int| s[i].low as int);
            let bottoms = Seq::new(s.len(), |i: int| s[i].high as int);
            let heights = Seq::new(s.len(), |i: int| s[i].high - s[i].low);
            &&& is_mean(r.avg.low as int, tops)
            &&& is_mean(r.avg.high as int, bottoms)
            &&& is_mean(r.avg_height as int, heights)
            &&& is_median(r.median.low as int, tops)
            &&& is_median(r.median.high as int, bottoms)
            &&& is_median(r.median_height as int, heights)
            &&& is_usual(r.mode, s)
            &&& heights.contains(r.mode_height as int)
            &&& forall|v: int| #[trigger]
                heights.contains(v) ==> heights.filter(
                    |x: int| stats::pixel(x) == stats::pixel(v),
                ).len() <= heights.filter(
                    |x: int| stats::pixel(x) == stats::pixel(r.mode_height as int),
                ).len()
        }),
{
    let tops = Seq::new(s.len(), |i: int| s[i].low as int);
    let bottoms = Seq::new(s.len(), |i: int| s[i].high as int);
    let heights = Seq::new(s.len(), |i: int| s[i].high - s[i].low);
    assert(stats::tops(s) =~= tops);
    assert(stats::bottoms(s) =~= bottoms);
    assert(stats::heights(s) =~= heights);
    continuity::means_share_sums_out(tops);
    continuity::means_share_sums_out(bottoms);
    continuity::means_share_sums_out(heights);
    medians_stand_in_the_middle(tops);
    medians_stand_in_the_middle(bottoms);
    medians_stand_in_the_middle(heights);
    usual_spans_lie_where_most_do(s);
    let t = stats::sorted(heights);
    stats::sorting_orders(heights);
    modes_stand_where_most_do(t);
    let m = r.mode_height as int;
    lemma_sorted_among(heights, m);
    lemma_sorted_count(heights, |x: int| stats::pixel(x) == stats::pixel(m));
    assert forall|v: int| #[trigger] heights.contains(v) implies heights.filter(
        |x: int| stats::pixel(x) == stats::pixel(v),
    ).len() <= heights.filter(|x: int| stats::pixel(x) == stats::pixel(m)).len() by {
        broadcast use vstd::seq_lib::group_to_multiset_ensures;

        lemma_sorted_count(heights, |x: int| stats::pixel(x) == stats::pixel(v));
        assert(heights.to_multiset().count(v) > 0);
        assert(t.to_multiset().count(v) > 0);
        assert(t.contains(v));
    }
}

/// The usual columns of the text, in the same way.
pub proof fn usual_columns_describe_the_regions(r: XStats, s: Seq<int>)
    requires
        stats::describes_centers(r, s),
        s.len() > 0,
    ensures
        is_mean(r.avg as int, s),
        is_median(r.median as int, s),
        is_mode(r.mode as int, s),
{
    continuity::means_share_sums_out(s);
    medians_stand_in_the_middle(s);
    modes_stand_where_most_do(s);
}

} // verus!
