//! What the regions of one image come to, and which of them are kept.
use super::box_filter;
use super::boxes;
use super::continuity;
use super::fixed;
use super::image;
use super::image::OcrOptions;
use super::pipeline;
use super::segment_adjust;
use super::segment_filter;
use super::segments;
use super::types;
use super::types::{BoxView, FrameView, Point};
use crate::finder::precision;
use crate::text::pieces;
use crate::text::strings;
use vstd::prelude::*;

verus! {

/// Whether two regions lie, in part, at the same height.
pub open spec fn meet(a: BoxView, b: BoxView) -> bool {
    !(a.y_range.high < b.y_range.low) && !(b.y_range.high < a.y_range.low)
}

/// Whether two of the regions lie, in part, at the same height.
pub open spec fn some_meet(s: Seq<BoxView>) -> bool {
    exists|i: int, j: int| 0 <= i < j < s.len() && meet(#[trigger] s[i], #[trigger] s[j])
}

/// Whether a corner of one of the regions stands at a column.
pub open spec fn corner_column(s: Seq<BoxView>, x: int) -> bool {
    exists|i: int, k: int|
        0 <= i < s.len() && 0 <= k < s[i].bbox.len() && (#[trigger] s[i].bbox[k]).x == x
}

/// Whether a corner of one of the regions stands at a row.
pub open spec fn corner_row(s: Seq<BoxView>, y: int) -> bool {
    exists|i: int, k: int|
        0 <= i < s.len() && 0 <= k < s[i].bbox.len() && (#[trigger] s[i].bbox[k]).y == y
}

proof fn lemma_corners(s: Seq<BoxView>, p: Point)
    ensures
        boxes::corners(s).contains(p) <==> exists|i: int, k: int|
            0 <= i < s.len() && 0 <= k < s[i].bbox.len() && #[trigger] s[i].bbox[k] == p,
    decreases s.len(),
{
    let c = boxes::corners(s);
    if s.len() > 0 {
        let t = s.drop_last();
        let d = boxes::corners(t);
        lemma_corners(t, p);
        if c.contains(p) {
            let n = choose|n: int| 0 <= n < c.len() && c[n] == p;
            if n < d.len() {
                assert(d[n] == p);
                let (i, k) = choose|i: int, k: int|
                    0 <= i < t.len() && 0 <= k < t[i].bbox.len() && #[trigger] t[i].bbox[k] == p;
                assert(s[i].bbox[k] == p);
            } else {
                assert(s[s.len() - 1].bbox[n - d.len()] == p);
            }
        }
        if exists|i: int, k: int|
            0 <= i < s.len() && 0 <= k < s[i].bbox.len() && #[trigger] s[i].bbox[k] == p {
            let (i, k) = choose|i: int, k: int|
                0 <= i < s.len() && 0 <= k < s[i].bbox.len() && #[trigger] s[i].bbox[k] == p;
            if i < t.len() {
                assert(t[i].bbox[k] == p);
                let n = choose|n: int| 0 <= n < d.len() && d[n] == p;
                assert(c[n] == p);
            } else {
                assert(c[d.len() + k] == p);
            }
        }
    }
}

/// The frame of some regions reaches, across and down, from the first corner of
/// any of them to the last one, and no further.
pub proof fn frames_reach_round_their_regions(s: Seq<BoxView>, f: FrameView, i: int, k: int)
    requires
        boxes::aggregates(f, s),
        0 <= i < s.len(),
        0 <= k < s[i].bbox.len(),
    ensures
        f.x_range.low <= s[i].bbox[k].x <= f.x_range.high,
        f.y_range.low <= s[i].bbox[k].y <= f.y_range.high,
        corner_column(s, f.x_range.low as int),
        corner_column(s, f.x_range.high as int),
        corner_row(s, f.y_range.low as int),
        corner_row(s, f.y_range.high as int),
{
    let c = boxes::corners(s);
    let x = boxes::xs(c);
    let y = boxes::ys(c);
    lemma_corners(s, s[i].bbox[k]);
    let n = choose|n: int| 0 <= n < c.len() && c[n] == s[i].bbox[k];
    assert(x[n] == s[i].bbox[k].x && y[n] == s[i].bbox[k].y);
    boxes::span_is_tight(x);
    boxes::span_is_tight(y);
    lemma_column(s, f.x_range.low as int);
    lemma_column(s, f.x_range.high as int);
    lemma_row(s, f.y_range.low as int);
    lemma_row(s, f.y_range.high as int);
}

proof fn lemma_column(s: Seq<BoxView>, v: int)
    requires
        boxes::xs(boxes::corners(s)).contains(v),
    ensures
        corner_column(s, v),
{
    let c = boxes::corners(s);
    let n = choose|n: int| 0 <= n < c.len() && boxes::xs(c)[n] == v;
    assert(c.contains(c[n]));
    lemma_corners(s, c[n]);
    let (i, k) = choose|i: int, k: int|
        0 <= i < s.len() && 0 <= k < s[i].bbox.len() && #[trigger] s[i].bbox[k] == c[n];
    assert(s[i].bbox[k].x == v);
}

proof fn lemma_row(s: Seq<BoxView>, v: int)
    requires
        boxes::ys(boxes::corners(s)).contains(v),
    ensures
        corner_row(s, v),
{
    let c = boxes::corners(s);
    let n = choose|n: int| 0 <= n < c.len() && boxes::ys(c)[n] == v;
    assert(c.contains(c[n]));
    lemma_corners(s, c[n]);
    let (i, k) = choose|i: int, k: int|
        0 <= i < s.len() && 0 <= k < s[i].bbox.len() && #[trigger] s[i].bbox[k] == c[n];
    assert(s[i].bbox[k].y == v);
}

proof fn lemma_one_line(s: Seq<BoxView>)
    ensures
        boxes::on_one_line(s) == some_meet(s),
{
    if boxes::on_one_line(s) {
        let (i, j) = choose|i: int, j: int|
            0 <= i < j < s.len() && #[trigger] boxes::beside(s[i], s[j]);
        assert(meet(s[i], s[j]));
    }
    if some_meet(s) {
        let (i, j) = choose|i: int, j: int|
            0 <= i < j < s.len() && meet(#[trigger] s[i], #[trigger] s[j]);
        assert(boxes::beside(s[i], s[j]));
    }
}

/// The text of an image is that of its regions in their order: with spaces
/// between them where two of them lie at the same height, with line breaks where
/// all lie one below the other. How sure it is, is the mean of the regions.
pub proof fn images_read_region_by_region(s: Seq<BoxView>, f: FrameView)
    requires
        boxes::aggregates(f, s),
    ensures
        f.boxes == s,
        s.len() == 0 ==> f.text.len() == 0 && f.text_confidence == 0,
        s.len() == 1 ==> f.text == s[0].text && f.text_confidence == s[0].text_confidence,
        s.len() == 2 ==> f.text == s[0].text + (if meet(s[0], s[1]) {
            seq![' ']
        } else {
            seq!['\n']
        }) + s[1].text,
        f.text == strings::joined(
            Seq::new(s.len(), |i: int| s[i].text),
            if some_meet(s) {
                seq![' ']
            } else {
                seq!['\n']
            },
        ),
        s.len() > 0 ==> s.len() * f.text_confidence <= continuity::sum(
            Seq::new(s.len(), |i: int| s[i].text_confidence),
        ) < s.len() * (f.text_confidence + 1),
{
    lemma_one_line(s);
    let texts = Seq::new(s.len(), |i: int| s[i].text);
    let all = Seq::new(s.len(), |i: int| s[i].text_confidence);
    assert(boxes::box_texts(s) =~= texts);
    assert(boxes::text_confidences(s) =~= all);
    if s.len() > 0 {
        continuity::means_share_sums_out(all);
    }
    if s.len() == 1 {
        continuity::lemma_sum(all);
        assert(all.drop_last() =~= Seq::<int>::empty());
        assert(fixed::total(all.drop_last()) == 0);
        assert(all.last() == s[0].text_confidence);
        assert(fixed::total(all) == s[0].text_confidence);
        let m = fixed::mean(all);
        let t = fixed::total(all);
        assert(m == t) by (nonlinear_arith)
            requires
                all.len() * m <= t < all.len() * (m + 1),
                all.len() == 1,
        ;
        assert(texts[0] == s[0].text);
    }
    if s.len() == 2 {
        assert(texts =~= seq![s[0].text].push(s[1].text));
        let sep = if some_meet(s) {
            seq![' ']
        } else {
            seq!['\n']
        };
        pieces::texts_are_joined_in_order(seq![s[0].text], s[1].text, sep);
        pieces::texts_are_joined_in_order(seq![s[0].text], s[0].text, sep);
        if some_meet(s) {
            let (i, j) = choose|i: int, j: int|
                0 <= i < j < s.len() && meet(#[trigger] s[i], #[trigger] s[j]);
            assert(i == 0 && j == 1);
        } else if meet(s[0], s[1]) {
            assert(some_meet(s));
        }
    }
}

/// Whether a region, moved down by some rows, is one that is wanted.
pub open spec fn is_kept(b: BoxView, rows: int, h: int, opts: OcrOptions) -> bool {
    &&& strings::trimmed(b.text).len() > 0
    &&& b.text_confidence >= opts.text_score
    &&& opts.subtitle_only ==> {
        let y = b.center.y + rows * 1_000_000_000;
        85 * h * 1_000_000_000 <= 100 * y && 100 * y <= 99 * h * 1_000_000_000
    }
}

/// Each region is judged by itself, and the order stays.
pub proof fn regions_are_chosen_one_by_one(
    s: Seq<BoxView>,
    t: Seq<BoxView>,
    rows: int,
    h: int,
    opts: OcrOptions,
)
    ensures
        image::selected(s + t, rows, h, opts) == image::selected(s, rows, h, opts)
            + image::selected(t, rows, h, opts),
    decreases t.len(),
{
    if t.len() == 0 {
        assert(s + t =~= s);
        assert(image::selected(s, rows, h, opts) + image::selected(t, rows, h, opts)
            =~= image::selected(s, rows, h, opts));
    } else {
        assert((s + t).drop_last() =~= s + t.drop_last());
        assert((s + t).last() == t.last());
        regions_are_chosen_one_by_one(s, t.drop_last(), rows, h, opts);
        assert(image::selected(s + t, rows, h, opts) =~= image::selected(s, rows, h, opts)
            + image::selected(t, rows, h, opts));
    }
}

/// A region is kept if it has a text that is not blank, is sure enough and, where
/// only subtitles are wanted, lies near the lower border; it then stands as many
/// rows further down as were left out above it.
pub proof fn wanted_regions_are_kept_in_place(
    b: BoxView,
    rows: int,
    h: int,
    opts: OcrOptions,
    k: int,
)
    requires
        image::box_movable(b),
        0 <= rows <= u32::MAX,
        0 <= k < b.bbox.len(),
        opts.subtitle_only ==> image::movable(b.center.y as int),
    ensures
        ({
            let r = image::selected(seq![b], rows, h, opts);
            &&& !is_kept(b, rows, h, opts) ==> r.len() == 0
            &&& is_kept(b, rows, h, opts) ==> {
                &&& r.len() == 1
                &&& r[0].text == strings::trimmed(b.text)
                &&& r[0].text_confidence == b.text_confidence
                &&& r[0].box_confidence == b.box_confidence
                &&& r[0].center.x == b.center.x
                &&& r[0].center.y == b.center.y + rows * 1_000_000_000
                &&& r[0].bbox.len() == b.bbox.len()
                &&& r[0].bbox[k].x == b.bbox[k].x
                &&& r[0].bbox[k].y == b.bbox[k].y + rows * 1_000_000_000
            }
        }),
{
    let s = seq![b];
    assert(s.drop_last() =~= Seq::<BoxView>::empty());
    assert(image::selected(s.drop_last(), rows, h, opts).len() == 0);
    assert(s.last() == b);
    assert(image::movable(b.bbox[k].y as int));
    assert(image::movable(b.center.y as int));
}

/// Whether some regions stand from the left to the right.
pub open spec fn left_to_right(s: Seq<BoxView>) -> bool {
    forall|i: int, j: int|
        0 <= i < j < s.len() ==> (#[trigger] s[i]).bbox[0].x <= (#[trigger] s[j]).bbox[0].x
}

/// Whether some regions stand one below the other.
pub open spec fn top_down(s: Seq<BoxView>) -> bool {
    forall|i: int, j: int|
        0 <= i < j < s.len() ==> (#[trigger] s[i]).center.y < (#[trigger] s[j]).center.y
}

/// Whether the centers of all regions lie at most twenty pixels below or above
/// one another.
pub open spec fn on_a_row(s: Seq<BoxView>) -> bool {
    forall|i: int, j: int|
        0 <= i < s.len() && 0 <= j < s.len() ==> (#[trigger] s[i]).center.y - (
        #[trigger] s[j]).center.y <= 20_000_000_000
}

/// Whether the centers of any two regions lie more than twenty pixels below or
/// above one another.
pub open spec fn on_many_rows(s: Seq<BoxView>) -> bool {
    forall|i: int, j: int|
        0 <= i < j < s.len() ==> (#[trigger] s[i]).center.y - (#[trigger] s[j]).center.y
            > 20_000_000_000 || s[j].center.y - s[i].center.y > 20_000_000_000
}

/// Whether the centers of all regions lie at most twenty pixels above or below a
/// given one.
pub open spec fn level_with(s: Seq<BoxView>, x: BoxView) -> bool {
    forall|i: int|
        0 <= i < s.len() ==> (#[trigger] s[i]).center.y - x.center.y <= 20_000_000_000
            && x.center.y - s[i].center.y <= 20_000_000_000
}

/// Whether the centers of all regions lie more than twenty pixels above or below
/// a given one.
pub open spec fn off_the_row_of(s: Seq<BoxView>, x: BoxView) -> bool {
    forall|i: int|
        0 <= i < s.len() ==> (#[trigger] s[i]).center.y - x.center.y > 20_000_000_000
            || x.center.y - s[i].center.y > 20_000_000_000
}

proof fn lemma_among(s: Seq<BoxView>, x: BoxView, i: int)
    requires
        0 <= i < image::box_inserted(s, x).len(),
    ensures
        image::box_inserted(s, x)[i] == x || s.contains(image::box_inserted(s, x)[i]),
    decreases s.len(),
{
    let r = image::box_inserted(s, x);
    if s.len() == 0 || !image::comes_before(x, s.last()) {
        if i < s.len() {
            assert(s[i] == r[i]);
        }
    } else {
        let t = s.drop_last();
        let u = image::box_inserted(t, x);
        if i < u.len() {
            lemma_among(t, x, i);
            if u[i] != x {
                let n = choose|n: int| 0 <= n < t.len() && t[n] == u[i];
                assert(s[n] == u[i]);
            }
        } else {
            assert(s[s.len() - 1] == r[i]);
        }
    }
}

proof fn lemma_left_to_right(s: Seq<BoxView>, x: BoxView)
    requires
        left_to_right(s),
        level_with(s, x),
    ensures
        left_to_right(image::box_inserted(s, x)),
    decreases s.len(),
{
    let r = image::box_inserted(s, x);
    if s.len() > 0 {
        assert(s[s.len() - 1] == s.last());
        assert(level_with(s, x) ==> s[s.len() - 1].center.y - x.center.y <= 20_000_000_000);
    }
    if s.len() == 0 || !image::comes_before(x, s.last()) {
        assert forall|i: int, j: int| 0 <= i < j < r.len() implies (#[trigger] r[i]).bbox[0].x <= (
        #[trigger] r[j]).bbox[0].x by {
            assert(r[i] == s[i]);
            if j < s.len() {
                assert(r[j] == s[j]);
            } else if i < s.len() - 1 {
                assert(s[i].bbox[0].x <= s[s.len() - 1].bbox[0].x);
            }
        }
    } else {
        let t = s.drop_last();
        assert forall|i: int, j: int| 0 <= i < j < t.len() implies (#[trigger] t[i]).bbox[0].x <= (
        #[trigger] t[j]).bbox[0].x by {
            assert(t[i] == s[i] && t[j] == s[j]);
        }
        assert forall|i: int| 0 <= i < t.len() implies (#[trigger] t[i]).center.y - x.center.y
            <= 20_000_000_000 && x.center.y - t[i].center.y <= 20_000_000_000 by {
            assert(t[i] == s[i]);
        }
        lemma_left_to_right(t, x);
        let u = image::box_inserted(t, x);
        assert forall|i: int, j: int| 0 <= i < j < r.len() implies (#[trigger] r[i]).bbox[0].x <= (
        #[trigger] r[j]).bbox[0].x by {
            assert(r[i] == u[i]);
            if j < u.len() {
                assert(r[j] == u[j]);
            } else {
                lemma_among(t, x, i);
                if u[i] != x {
                    let n = choose|n: int| 0 <= n < t.len() && t[n] == u[i];
                    assert(s[n].bbox[0].x <= s[s.len() - 1].bbox[0].x);
                }
            }
        }
    }
}

proof fn lemma_top_down(s: Seq<BoxView>, x: BoxView)
    requires
        top_down(s),
        off_the_row_of(s, x),
    ensures
        top_down(image::box_inserted(s, x)),
    decreases s.len(),
{
    let r = image::box_inserted(s, x);
    if s.len() > 0 {
        assert(s[s.len() - 1] == s.last());
        assert(off_the_row_of(s, x) ==> s[s.len() - 1].center.y - x.center.y > 20_000_000_000
            || x.center.y - s[s.len() - 1].center.y > 20_000_000_000);
    }
    if s.len() == 0 || !image::comes_before(x, s.last()) {
        assert forall|i: int, j: int| 0 <= i < j < r.len() implies (#[trigger] r[i]).center.y < (
        #[trigger] r[j]).center.y by {
            assert(r[i] == s[i]);
            if j < s.len() {
                assert(r[j] == s[j]);
            } else if i < s.len() - 1 {
                assert(s[i].center.y < s[s.len() - 1].center.y);
            }
        }
    } else {
        let t = s.drop_last();
        assert forall|i: int, j: int| 0 <= i < j < t.len() implies (#[trigger] t[i]).center.y < (
        #[trigger] t[j]).center.y by {
            assert(t[i] == s[i] && t[j] == s[j]);
        }
        assert forall|i: int| 0 <= i < t.len() implies (#[trigger] t[i]).center.y - x.center.y
            > 20_000_000_000 || x.center.y - t[i].center.y > 20_000_000_000 by {
            assert(t[i] == s[i]);
        }
        lemma_top_down(t, x);
        let u = image::box_inserted(t, x);
        assert forall|i: int, j: int| 0 <= i < j < r.len() implies (#[trigger] r[i]).center.y < (
        #[trigger] r[j]).center.y by {
            assert(r[i] == u[i]);
            if j < u.len() {
                assert(r[j] == u[j]);
            } else {
                lemma_among(t, x, i);
                if u[i] != x {
                    let n = choose|n: int| 0 <= n < t.len() && t[n] == u[i];
                    assert(s[n].center.y < s[s.len() - 1].center.y);
                }
            }
        }
    }
}

proof fn lemma_order_among(s: Seq<BoxView>, i: int)
    requires
        0 <= i < image::in_order(s).len(),
    ensures
        s.contains(image::in_order(s)[i]),
    decreases s.len(),
{
    if s.len() > 0 {
        let t = s.drop_last();
        lemma_among(image::in_order(t), s.last(), i);
        let v = image::in_order(s)[i];
        if v == s.last() {
            assert(s[s.len() - 1] == v);
        } else {
            let n = choose|n: int| 0 <= n < image::in_order(t).len() && image::in_order(t)[n] == v;
            lemma_order_among(t, n);
            let m = choose|m: int| 0 <= m < t.len() && t[m] == v;
            assert(s[m] == v);
        }
    }
}

/// The regions of one row of text are read from the left to the right.
pub proof fn rows_are_read_from_the_left(s: Seq<BoxView>)
    requires
        on_a_row(s),
    ensures
        image::in_order(s).to_multiset() == s.to_multiset(),
        left_to_right(image::in_order(s)),
    decreases s.len(),
{
    image::ordering_keeps_regions(s);
    if s.len() > 0 {
        let t = s.drop_last();
        assert forall|i: int, j: int| 0 <= i < t.len() && 0 <= j < t.len() implies (
        #[trigger] t[i]).center.y - (#[trigger] t[j]).center.y <= 20_000_000_000 by {
            assert(t[i] == s[i] && t[j] == s[j]);
        }
        rows_are_read_from_the_left(t);
        let o = image::in_order(t);
        let x = s.last();
        assert forall|i: int| 0 <= i < o.len() implies (#[trigger] o[i]).center.y - x.center.y
            <= 20_000_000_000 && x.center.y - o[i].center.y <= 20_000_000_000 by {
            lemma_order_among(t, i);
            let m = choose|m: int| 0 <= m < t.len() && t[m] == o[i];
            assert(s[m] == o[i] && s[s.len() - 1] == x);
        }
        lemma_left_to_right(o, x);
    }
}

/// Regions that each stand on a row of their own are read from the top down.
pub proof fn rows_are_read_from_the_top(s: Seq<BoxView>)
    requires
        on_many_rows(s),
    ensures
        image::in_order(s).to_multiset() == s.to_multiset(),
        top_down(image::in_order(s)),
    decreases s.len(),
{
    image::ordering_keeps_regions(s);
    if s.len() > 0 {
        let t = s.drop_last();
        assert forall|i: int, j: int| 0 <= i < j < t.len() implies (#[trigger] t[i]).center.y - (
        #[trigger] t[j]).center.y > 20_000_000_000 || t[j].center.y - t[i].center.y
            > 20_000_000_000 by {
            assert(t[i] == s[i] && t[j] == s[j]);
        }
        rows_are_read_from_the_top(t);
        let o = image::in_order(t);
        let x = s.last();
        assert forall|i: int| 0 <= i < o.len() implies (#[trigger] o[i]).center.y - x.center.y
            > 20_000_000_000 || x.center.y - o[i].center.y > 20_000_000_000 by {
            lemma_order_among(t, i);
            let m = choose|m: int| 0 <= m < t.len() && t[m] == o[i];
            assert(s[m] == o[i] && s[s.len() - 1] == x);
        }
        lemma_top_down(o, x);
    }
}

proof fn lemma_unmarked(s: Seq<BoxView>, marks: Seq<bool>)
    requires
        marks.len() == s.len(),
    ensures
        box_filter::unmarked(s, marks).len() <= s.len(),
        (forall|i: int| 0 <= i < s.len() ==> !#[trigger] marks[i]) ==> box_filter::unmarked(s, marks)
            == s,
        (forall|i: int| 0 <= i < s.len() ==> #[trigger] marks[i]) ==> box_filter::unmarked(s, marks)
            == Seq::<BoxView>::empty(),
        (exists|i: int| 0 <= i < s.len() && !#[trigger] marks[i]) ==> box_filter::unmarked(s, marks).len()
            > 0,
        (exists|i: int| 0 <= i < s.len() && #[trigger] marks[i]) ==> box_filter::unmarked(s, marks).len()
            < s.len(),
    decreases s.len(),
{
    if s.len() == 0 {
        assert(s =~= Seq::<BoxView>::empty());
    } else {
        let t = s.drop_last();
        let m = marks.drop_last();
        lemma_same_marks(t, marks, m);
        lemma_unmarked(t, m);
        assert forall|i: int| 0 <= i < m.len() implies m[i] == #[trigger] marks[i] by {}
        assert(t.push(s.last()) =~= s);
        let last = marks[s.len() - 1];
        if exists|i: int| 0 <= i < s.len() && !#[trigger] marks[i] {
            let i = choose|i: int| 0 <= i < s.len() && !#[trigger] marks[i];
            if i < t.len() {
                assert(!m[i]);
            }
        }
        if exists|i: int| 0 <= i < s.len() && #[trigger] marks[i] {
            let i = choose|i: int| 0 <= i < s.len() && #[trigger] marks[i];
            if i < t.len() {
                assert(m[i]);
            }
        }
        if forall|i: int| 0 <= i < s.len() ==> !#[trigger] marks[i] {
            assert(forall|i: int| 0 <= i < t.len() ==> !#[trigger] m[i]);
        }
        if forall|i: int| 0 <= i < s.len() ==> #[trigger] marks[i] {
            assert(forall|i: int| 0 <= i < t.len() ==> #[trigger] m[i]);
        }
    }
}

proof fn lemma_same_marks(s: Seq<BoxView>, a: Seq<bool>, b: Seq<bool>)
    requires
        s.len() <= a.len(),
        s.len() <= b.len(),
        forall|i: int| 0 <= i < s.len() ==> #[trigger] a[i] == b[i],
    ensures
        box_filter::unmarked(s, a) == box_filter::unmarked(s, b),
    decreases s.len(),
{
    if s.len() > 0 {
        assert(a[s.len() - 1] == b[s.len() - 1]);
        lemma_same_marks(s.drop_last(), a, b);
    }
}

/// Marked regions go, the others stay in their order.
pub proof fn marked_regions_go(s: Seq<BoxView>, marks: Seq<bool>, b: BoxView, mark: bool)
    requires
        marks.len() == s.len(),
    ensures
        box_filter::unmarked(s.push(b), marks.push(mark)) == if mark {
            box_filter::unmarked(s, marks)
        } else {
            box_filter::unmarked(s, marks).push(b)
        },
        box_filter::unmarked(Seq::<BoxView>::empty(), marks).len() == 0,
{
    assert(s.push(b).drop_last() =~= s);
    lemma_same_marks(s, marks.push(mark), marks);
}

/// A frame with no marked region stays as it is, one with marked regions only
/// goes, and one with both becomes what its other regions make, at its own
/// moment.
pub proof fn frames_lose_their_marked_regions(f: FrameView, marks: Seq<bool>)
    requires
        marks.len() == f.boxes.len(),
        f.boxes.len() > 0,
    ensures
        (forall|i: int| 0 <= i < marks.len() ==> !#[trigger] marks[i]) ==> box_filter::cleaned(
            f,
            marks,
        ) == Some(f),
        (forall|i: int| 0 <= i < marks.len() ==> #[trigger] marks[i]) <==> box_filter::cleaned(
            f,
            marks,
        ) is None,
        (exists|i: int| 0 <= i < marks.len() && #[trigger] marks[i]) && (exists|i: int|
            0 <= i < marks.len() && !#[trigger] marks[i]) ==> {
            let left = box_filter::unmarked(f.boxes, marks);
            let r = box_filter::cleaned(f, marks)->0;
            &&& 0 < left.len() < f.boxes.len()
            &&& boxes::aggregates(FrameView { timestamp: 0, ..r }, left)
            &&& r.timestamp == f.timestamp
        },
{
    lemma_unmarked(f.boxes, marks);
    let left = box_filter::unmarked(f.boxes, marks);
    if 0 < left.len() < f.boxes.len() {
        let r = box_filter::cleaned(f, marks)->0;
        lemma_spans(left);
        assert(FrameView { timestamp: 0, ..r } =~= boxes::aggregated(left));
    }
}

proof fn lemma_spans(s: Seq<BoxView>)
    ensures
        boxes::aggregates(boxes::aggregated(s), s),
{
    let c = boxes::corners(s);
    let x = boxes::xs(c);
    let y = boxes::ys(c);
    if c.len() > 0 {
        boxes::span_is_tight(x);
        boxes::span_is_tight(y);
        let a = choose|n: int| 0 <= n < x.len() && x[n] == boxes::least(x);
        let b = choose|n: int| 0 <= n < x.len() && x[n] == boxes::greatest(x);
        let d = choose|n: int| 0 <= n < y.len() && y[n] == boxes::least(y);
        let e = choose|n: int| 0 <= n < y.len() && y[n] == boxes::greatest(y);
        assert(boxes::least(x) == c[a].x && boxes::greatest(x) == c[b].x);
        assert(boxes::least(y) == c[d].y && boxes::greatest(y) == c[e].y);
    }
}

/// The frames are cleaned one by one, and their order stays.
pub proof fn frames_are_cleaned_one_by_one(
    frames: Seq<FrameView>,
    marks: Seq<Seq<bool>>,
    f: FrameView,
    mark: Seq<bool>,
)
    requires
        marks.len() == frames.len(),
    ensures
        box_filter::all_cleaned(frames.push(f), marks.push(mark)) == match box_filter::cleaned(
            f,
            mark,
        ) {
            None => box_filter::all_cleaned(frames, marks),
            Some(r) => box_filter::all_cleaned(frames, marks).push(r),
        },
{
    assert(frames.push(f).drop_last() =~= frames);
    lemma_same_frames(frames, marks.push(mark), marks);
}

proof fn lemma_same_frames(frames: Seq<FrameView>, a: Seq<Seq<bool>>, b: Seq<Seq<bool>>)
    requires
        frames.len() <= a.len(),
        frames.len() <= b.len(),
        forall|i: int| 0 <= i < frames.len() ==> #[trigger] a[i] == b[i],
    ensures
        box_filter::all_cleaned(frames, a) == box_filter::all_cleaned(frames, b),
    decreases frames.len(),
{
    if frames.len() > 0 {
        assert(a[frames.len() - 1] == b[frames.len() - 1]);
        lemma_same_frames(frames.drop_last(), a, b);
    }
}

/// Whether a segment is sure enough: by its adjusted confidence where it has one,
/// by its own else.
pub open spec fn is_sure(x: segment_adjust::AdjustedView, threshold: int) -> bool {
    ||| x.adjusted is Some && x.adjusted->0 >= threshold
    ||| x.adjusted is None && x.base.text_confidence >= threshold
}

/// Each segment is kept or dropped by itself: kept if it is sure enough, or if
/// the threshold is not above zero.
pub proof fn sure_segments_are_kept(
    s: Seq<segment_adjust::AdjustedView>,
    x: segment_adjust::AdjustedView,
    threshold: int,
)
    ensures
        segment_filter::kept(Seq::empty(), threshold).len() == 0,
        segment_filter::kept(s.push(x), threshold) == if threshold <= 0 || is_sure(x, threshold) {
            segment_filter::kept(s, threshold).push(x)
        } else {
            segment_filter::kept(s, threshold)
        },
{
    reveal(Seq::filter);
    assert(s.push(x).drop_last() =~= s);
    assert(s.push(x).last() == x);
}

/// With no time within which a text has to be followed by another one, a segment
/// of a single frame counts as standing alone.
pub proof fn without_a_threshold_single_frames_stand_alone(
    seg: types::SegmentView,
    times: Seq<int>,
)
    ensures
        segment_adjust::lonely_penalty(seg, times, 0) == if seg.frame_count == Some(1int) {
            1_000_000_000int
        } else {
            0
        },
{
}

/// If only the lower part of an image is looked at, it begins six tenths down, at
/// most one row off; else at the top.
pub proof fn the_lower_part_begins_six_tenths_down(h: int)
    requires
        0 <= h < 16_777_216,
    ensures
        image::first_row(h, false) == 0,
        6 * h - 10 <= 10 * image::first_row(h, true) <= 6 * h + 10,
{
    let f = image::six_tenths();
    precision::parts_are_products(f, h as nat);
    vstd::arithmetic::power2::lemma2_to64();
    let r = image::first_row(h, true);
    let a = f.product(h as nat) as int;
    assert(f.mant * h == 10_066_330 * h);
    assert(r * 16_777_216 <= a < (r + 1) * 16_777_216);
}

/// The given height of a video counts before the noted one; without either it is
/// not known.
pub proof fn given_heights_count_first(a: u32, b: Option<u32>)
    ensures
        pipeline::known_height(Some(a), b) == Some(a * 1_000_000_000),
        pipeline::known_height(None, Some(a)) == Some(a * 1_000_000_000),
        pipeline::known_height(None, None) is None,
{
}

/// Two known confidences are averaged, rounded down; a single one counts alone.
pub proof fn known_confidences_are_averaged(a: int, b: int)
    ensures
        0 <= a + b - 2 * segments::merged_confidence(Some(a), Some(b)) <= 1,
        segments::merged_confidence(Some(a), None) == a,
        segments::merged_confidence(None, Some(b)) == b,
        segments::merged_confidence(None, None) == 0,
{
}

} // verus!
