//! What happens with the regions that an engine finds in one image before they
//! are put together: places, white space, selection and order.
use super::fixed;
use super::types;
use super::types::{OcrBoxResult, Point};
use crate::finder::single::Single;
use crate::text::strings;
use crate::text::strings::{char_count, trim};
use vstd::prelude::*;

verus! {

/// What is recognised and kept.
#[derive(Clone, Copy, Debug)]
pub struct OcrOptions {
    /// Only the lower part of the image is looked at.
    pub bottom_only: bool,
    /// Only regions near the lower border are kept.
    pub subtitle_only: bool,
    /// Regions that others cover are removed.
    pub use_nms: bool,
    /// The least confidence, in billionths.
    pub text_score: i64,
    /// Regions are straightened before they are read.
    pub use_warp_crop: bool,
}

impl Default for OcrOptions {
    fn default() -> (r: OcrOptions)
        ensures
            r.bottom_only,
            !r.subtitle_only,
            r.use_nms,
            r.text_score == 500_000_000,
            !r.use_warp_crop,
    {
        OcrOptions {
            bottom_only: true,
            subtitle_only: false,
            use_nms: true,
            text_score: 500_000_000,
            use_warp_crop: false,
        }
    }
}

/// Six tenths, as a single-precision fraction.
pub open spec fn six_tenths() -> Single {
    Single { mant: 10_066_330, shift: 24 }
}

/// The first row that is looked at.
pub open spec fn first_row(h: int, bottom_only: bool) -> int {
    if bottom_only {
        six_tenths().part_of(h as nat) as int
    } else {
        0
    }
}

/// The first row of an image of `h` rows that is looked at: that after six tenths
/// of the rows, or the first one.
pub fn roi_offset(h: u32, opts: &OcrOptions) -> (r: u64)
    ensures
        r == first_row(h as int, opts.bottom_only),
{
    if opts.bottom_only {
        let f = Single { mant: 10_066_330, shift: 24 };
        f.part(h)
    } else {
        0
    }
}

pub open spec fn moved(p: Point, rows: int) -> Point {
    Point { x: p.x, y: (p.y + rows * fixed::ONE) as i64 }
}

/// A region at its place in the whole image, without white space around its
/// text.
pub open spec fn placed(b: types::BoxView, rows: int) -> types::BoxView {
    types::BoxView {
        text: strings::trimmed(b.text),
        bbox: b.bbox.map_values(|p: Point| moved(p, rows)),
        center: moved(b.center, rows),
        ..b
    }
}

/// Whether the center of a region lies between 85 and 99 hundredths of the
/// height of the image.
pub open spec fn near_bottom(b: types::BoxView, h: int) -> bool {
    85 * h * fixed::ONE <= 100 * b.center.y <= 99 * h * fixed::ONE
}

/// Whether a region is kept: with a text, sure enough, and near the lower border
/// if only subtitles are wanted.
pub open spec fn wanted(b: types::BoxView, h: int, opts: OcrOptions) -> bool {
    &&& opts.subtitle_only ==> near_bottom(b, h)
    &&& b.text.len() > 0
    &&& b.text_confidence >= opts.text_score
}

/// The regions that are kept, at their places in the whole image.
pub open spec fn selected(
    s: Seq<types::BoxView>,
    rows: int,
    h: int,
    opts: OcrOptions,
) -> Seq<types::BoxView>
    decreases s.len(),
{
    if s.len() == 0 {
        s
    } else {
        let before = selected(s.drop_last(), rows, h, opts);
        let b = placed(s.last(), rows);
        if wanted(b, h, opts) {
            before.push(b)
        } else {
            before
        }
    }
}

/// Coordinates, in billionths of a pixel, that can be moved down an image.
pub open spec fn movable(v: int) -> bool {
    -4_000_000_000_000_000_000 <= v <= 4_000_000_000_000_000_000
}

pub open spec fn box_movable(b: types::BoxView) -> bool {
    &&& movable(b.center.y as int)
    &&& forall|i: int| 0 <= i < b.bbox.len() ==> movable((#[trigger] b.bbox[i]).y as int)
}

fn move_point(p: Point, rows: u32) -> (r: Point)
    requires
        movable(p.y as int),
    ensures
        r == moved(p, rows as int),
{
    Point { x: p.x, y: p.y + (rows as i64) * fixed::ONE }
}

fn place(b: &OcrBoxResult, rows: u32) -> (r: OcrBoxResult)
    requires
        box_movable(b@),
    ensures
        r@ == placed(b@, rows as int),
{
    proof {
        let c = b@.bbox;
        assert(c.len() == 4);
        assert(movable(c[0].y as int));
        assert(movable(c[1].y as int));
        assert(movable(c[2].y as int));
        assert(movable(c[3].y as int));
    }
    let bbox: [Point; 4] = [
        move_point(b.bbox[0], rows),
        move_point(b.bbox[1], rows),
        move_point(b.bbox[2], rows),
        move_point(b.bbox[3], rows),
    ];
    proof {
        assert(bbox@ =~= b.bbox@.map_values(|p: Point| moved(p, rows as int)));
    }
    OcrBoxResult {
        text: trim(b.text.as_str()),
        text_confidence: b.text_confidence,
        box_confidence: b.box_confidence,
        bbox,
        x_range: b.x_range,
        y_range: b.y_range,
        center: move_point(b.center, rows),
    }
}

fn is_wanted(b: &OcrBoxResult, h: u32, opts: &OcrOptions) -> (r: bool)
    ensures
        r == wanted(b@, h as int, *opts),
{
    if opts.subtitle_only {
        let y: i128 = 100 * (b.center.y as i128);
        let low: i128 = 85_000_000_000 * (h as i128);
        let high: i128 = 99_000_000_000 * (h as i128);
        if y < low || y > high {
            return false;
        }
    }
    char_count(b.text.as_str()) > 0 && b.text_confidence >= opts.text_score
}

/// Moves the regions found in the lower part of an image, from row `rows` on, to
/// their places in the whole image of `h` rows, and keeps the wanted ones.
pub fn select_boxes(results: &[OcrBoxResult], rows: u32, h: u32, opts: &OcrOptions) -> (r: Vec<
    OcrBoxResult,
>)
    requires
        forall|i: int| 0 <= i < results@.len() ==> box_movable((#[trigger] results@[i])@),
    ensures
        types::box_views(r@) == selected(
            types::box_views(results@),
            rows as int,
            h as int,
            *opts,
        ),
{
    let ghost all = types::box_views(results@);
    let mut out: Vec<OcrBoxResult> = Vec::new();
    let mut i: usize = 0;
    proof {
        assert(all.take(0) =~= Seq::<types::BoxView>::empty());
        assert(types::box_views(out@) =~= all.take(0));
    }
    while i < results.len()
        invariant
            i <= results@.len(),
            all == types::box_views(results@),
            forall|k: int| 0 <= k < results@.len() ==> box_movable((#[trigger] results@[k])@),
            types::box_views(out@) == selected(all.take(i as int), rows as int, h as int, *opts),
        decreases results@.len() - i,
    {
        proof {
            assert(all.take(i + 1).drop_last() =~= all.take(i as int));
            assert(all.take(i + 1).last() == results@[i as int]@);
        }
        let b = place(&results[i], rows);
        if is_wanted(&b, h, opts) {
            proof {
                assert(types::box_views(out@.push(b)) =~= types::box_views(out@).push(b@));
            }
            out.push(b);
        }
        i = i + 1;
    }
    proof {
        assert(all.take(results@.len() as int) =~= all);
    }
    out
}

/// Twenty pixels.
pub const SAME_LINE: i64 = 20_000_000_000;

/// Whether a region comes before another one: higher up where the centers are
/// more than twenty pixels apart, further left else.
pub open spec fn comes_before(a: types::BoxView, b: types::BoxView) -> bool {
    if fixed::magnitude(a.center.y - b.center.y) > SAME_LINE {
        a.center.y < b.center.y
    } else {
        a.bbox[0].x < b.bbox[0].x
    }
}

/// Regions with one more, moved forward past those that it comes before.
pub open spec fn box_inserted(s: Seq<types::BoxView>, x: types::BoxView) -> Seq<types::BoxView>
    decreases s.len(),
{
    if s.len() == 0 || !comes_before(x, s.last()) {
        s.push(x)
    } else {
        box_inserted(s.drop_last(), x).push(s.last())
    }
}

/// The regions in reading order.
pub open spec fn in_order(s: Seq<types::BoxView>) -> Seq<types::BoxView>
    decreases s.len(),
{
    if s.len() == 0 {
        s
    } else {
        box_inserted(in_order(s.drop_last()), s.last())
    }
}

fn is_before(a: &OcrBoxResult, b: &OcrBoxResult) -> (r: bool)
    ensures
        r == comes_before(a@, b@),
{
    let ya: i128 = a.center.y as i128;
    let yb: i128 = b.center.y as i128;
    let apart: i128 = if ya < yb {
        yb - ya
    } else {
        ya - yb
    };
    if apart > SAME_LINE as i128 {
        ya < yb
    } else {
        a.bbox[0].x < b.bbox[0].x
    }
}

/// Puts regions in reading order.
pub fn sort_boxes(boxes: &[OcrBoxResult]) -> (r: Vec<OcrBoxResult>)
    ensures
        types::box_views(r@) == in_order(types::box_views(boxes@)),
{
    let ghost all = types::box_views(boxes@);
    let mut out: Vec<OcrBoxResult> = Vec::new();
    let mut i: usize = 0;
    proof {
        assert(types::box_views(out@) =~= all.take(0));
    }
    while i < boxes.len()
        invariant
            i <= boxes@.len(),
            out@.len() == i,
            all == types::box_views(boxes@),
            types::box_views(out@) == in_order(all.take(i as int)),
        decreases boxes@.len() - i,
    {
        let x = boxes[i].duplicate();
        let ghost s = types::box_views(out@);
        let ghost xv = x@;
        proof {
            assert(all.take(i + 1).drop_last() =~= all.take(i as int));
            assert(all.take(i + 1).last() == xv);
        }
        let mut p: usize = out.len();
        proof {
            assert(s.take(p as int) =~= s);
            assert(box_inserted(s, xv) + s.skip(p as int) =~= box_inserted(s, xv));
        }
        while p > 0 && is_before(&x, &out[p - 1])
            invariant
                p <= out@.len(),
                s == types::box_views(out@),
                x@ == xv,
                box_inserted(s, xv) == box_inserted(s.take(p as int), xv) + s.skip(p as int),
            decreases p,
        {
            proof {
                let t = s.take(p as int);
                assert(t.drop_last() =~= s.take(p - 1));
                assert(t.last() == out@[p - 1]@);
                assert(box_inserted(s.take(p - 1), xv).push(t.last()) + s.skip(p as int)
                    =~= box_inserted(s.take(p - 1), xv) + s.skip(p - 1));
            }
            p = p - 1;
        }
        out.insert(p, x);
        proof {
            let t = s.take(p as int);
            assert(box_inserted(t, xv) == t.push(xv)) by {
                if p > 0 {
                    assert(t.last() == s[p - 1]);
                }
            }
            assert(types::box_views(out@) =~= t.push(xv) + s.skip(p as int));
        }
        i = i + 1;
    }
    proof {
        assert(all.take(boxes@.len() as int) =~= all);
    }
    out
}

proof fn lemma_box_inserted(s: Seq<types::BoxView>, x: types::BoxView)
    ensures
        box_inserted(s, x).len() == s.len() + 1,
        box_inserted(s, x).to_multiset() == s.to_multiset().insert(x),
    decreases s.len(),
{
    broadcast use vstd::seq_lib::group_to_multiset_ensures;

    if s.len() > 0 && comes_before(x, s.last()) {
        lemma_box_inserted(s.drop_last(), x);
        assert(s.drop_last().push(s.last()) =~= s);
        assert(box_inserted(s, x).to_multiset() =~= s.to_multiset().insert(x));
    }
}

/// Ordering loses and invents no region.
pub proof fn ordering_keeps_regions(s: Seq<types::BoxView>)
    ensures
        in_order(s).len() == s.len(),
        in_order(s).to_multiset() == s.to_multiset(),
    decreases s.len(),
{
    broadcast use vstd::seq_lib::group_to_multiset_ensures;

    if s.len() > 0 {
        ordering_keeps_regions(s.drop_last());
        lemma_box_inserted(in_order(s.drop_last()), s.last());
        assert(s.drop_last().push(s.last()) =~= s);
    }
}

proof fn lemma_selected(s: Seq<types::BoxView>, rows: int, h: int, opts: OcrOptions)
    ensures
        selected(s, rows, h, opts).len() <= s.len(),
        forall|i: int|
            0 <= i < selected(s, rows, h, opts).len() ==> wanted(
                #[trigger] selected(s, rows, h, opts)[i],
                h,
                opts,
            ),
    decreases s.len(),
{
    if s.len() > 0 {
        lemma_selected(s.drop_last(), rows, h, opts);
        let before = selected(s.drop_last(), rows, h, opts);
        let r = selected(s, rows, h, opts);
        assert forall|i: int| 0 <= i < r.len() implies wanted(#[trigger] r[i], h, opts) by {
            if i < before.len() {
                assert(r[i] == before[i]);
            }
        }
    }
}

/// Every kept region has a text, is sure enough, and lies near the lower border
/// if only subtitles are wanted.
pub proof fn kept_regions_are_wanted(
    s: Seq<types::BoxView>,
    rows: int,
    h: int,
    opts: OcrOptions,
    i: int,
)
    requires
        0 <= i < selected(s, rows, h, opts).len(),
    ensures
        wanted(selected(s, rows, h, opts)[i], h, opts),
{
    lemma_selected(s, rows, h, opts);
    let _ = selected(s, rows, h, opts)[i];
}

} // verus!
