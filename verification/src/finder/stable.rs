//! Cleaning strips and bands a second time changes nothing.

use super::filter;
use super::grid;
use super::laws;
use super::runs;
use super::strip;
use super::strip::StripLimits;
use vstd::prelude::*;

verus! {

/// Whether two images differ at most in rows `a..b`.
pub open spec fn same_outside(im: Seq<u8>, other: Seq<u8>, w: int, a: int, b: int) -> bool {
    &&& im.len() == other.len()
    &&& forall|i: int|
        0 <= i < im.len() && !(a <= grid::row(i, w) < b) ==> #[trigger] other[i] == im[i]
}

/// Whether two images are the same in rows `a..b`.
pub open spec fn same_inside(im: Seq<u8>, other: Seq<u8>, w: int, a: int, b: int) -> bool {
    &&& im.len() == other.len()
    &&& forall|i: int|
        0 <= i < im.len() && a <= grid::row(i, w) < b ==> #[trigger] other[i] == im[i]
}

/// Whether segments hold all white columns of a strip.
spec fn covered(im: Seq<u8>, segs: Seq<(i32, i32)>, top: int, l: StripLimits) -> bool {
    forall|x: int|
        0 <= x < l.w && #[trigger] strip::white_column(im, top, l, x) ==> exists|i: int|
            0 <= i < segs.len() && runs::in_run(#[trigger] segs[i], x)
}

/// Whether a strip has no white column.
spec fn blank(im: Seq<u8>, top: int, l: StripLimits) -> bool {
    forall|x: int| 0 <= x < l.w ==> !#[trigger] strip::white_column(im, top, l, x)
}

/// What holds while a strip is cleaned: only the strip changes, and the segments
/// left, in order, hold all that is white in it.
spec fn held(
    im0: Seq<u8>,
    im: Seq<u8>,
    segs: Seq<(i32, i32)>,
    top: int,
    l: StripLimits,
) -> bool {
    &&& same_outside(im0, im, l.w as int, top, top + l.segh)
    &&& runs::separated(segs, l.w as int)
    &&& covered(im, segs, top, l)
}

proof fn lemma_start(im: Seq<u8>, top: int, l: StripLimits)
    requires
        l.wf(),
    ensures
        held(im, im, strip::strip_segments(im, top, l), top, l),
        blank(im, top, l) <==> strip::strip_segments(im, top, l).len() == 0,
{
    let marks = Seq::new(l.w as nat, |x: int| strip::white_column(im, top, l, x));
    runs::runs_cover(marks);
    let segs = strip::strip_segments(im, top, l);
    assert forall|x: int| 0 <= x < l.w && #[trigger] strip::white_column(
        im,
        top,
        l,
        x,
    ) implies exists|i: int| 0 <= i < segs.len() && runs::in_run(#[trigger] segs[i], x) by {
        assert(marks[x]);
    }
    if segs.len() > 0 {
        let x = segs[0].0 as int;
        assert(runs::in_run(segs[0], x));
        assert(marks[x]);
        assert(strip::white_column(im, top, l, x));
    }
}

/// Blanking columns leaves no white in them, and changes only the strip.
proof fn lemma_cleared(
    im0: Seq<u8>,
    im: Seq<u8>,
    top: int,
    l: StripLimits,
    a: int,
    b: int,
)
    requires
        l.wf(),
        l.fits(im, top),
        same_outside(im0, im, l.w as int, top, top + l.segh),
    ensures
        same_outside(
            im0,
            strip::cleared(im, top, l, a, b),
            l.w as int,
            top,
            top + l.segh,
        ),
        forall|x: int|
            0 <= x < l.w && #[trigger] strip::white_column(
                strip::cleared(im, top, l, a, b),
                top,
                l,
                x,
            ) ==> strip::white_column(im, top, l, x) && !(a <= x <= b),
{
    let w = l.w as int;
    let r = strip::cleared(im, top, l, a, b);
    assert forall|x: int| 0 <= x < w && #[trigger] strip::white_column(
        r,
        top,
        l,
        x,
    ) implies strip::white_column(im, top, l, x) && !(a <= x <= b) by {
        let y = choose|y: int| top <= y < top + l.segh && #[trigger] grid::at(r, w, x, y) == 255;
        let h = top + l.segh;
        grid::lemma_at(x, y, w, h);
        assert(w * h == h * w) by (nonlinear_arith);
        let i = y * w + x;
        assert(r[i] == 255);
        assert(grid::at(im, w, x, y) == 255);
    }
}

proof fn lemma_take_out(
    im0: Seq<u8>,
    im: Seq<u8>,
    segs: Seq<(i32, i32)>,
    top: int,
    l: StripLimits,
    k: int,
)
    requires
        l.wf(),
        l.fits(im, top),
        held(im0, im, segs, top, l),
        0 <= k < segs.len(),
    ensures
        held(
            im0,
            strip::take_out(im, segs, top, l, k).0,
            strip::take_out(im, segs, top, l, k).1,
            top,
            l,
        ),
        strip::take_out(im, segs, top, l, k).1.len() == segs.len() - 1,
{
    let (im1, segs1) = strip::take_out(im, segs, top, l, k);
    lemma_cleared(im0, im, top, l, segs[k].0 as int, segs[k].1 as int);
    assert forall|x: int| 0 <= x < l.w && #[trigger] strip::white_column(
        im1,
        top,
        l,
        x,
    ) implies exists|i: int| 0 <= i < segs1.len() && runs::in_run(#[trigger] segs1[i], x) by {
        assert(strip::white_column(im, top, l, x));
        let i = choose|i: int| 0 <= i < segs.len() && runs::in_run(#[trigger] segs[i], x);
        assert(i != k);
        let j = if i < k {
            i
        } else {
            i - 1
        };
        assert(segs1[j] == segs[i]);
    }
    assert forall|i: int, j: int| 0 <= i < j < segs1.len() implies (#[trigger] segs1[i]).1 + 1 < (
    #[trigger] segs1[j]).0 by {
        let a = if i < k {
            i
        } else {
            i + 1
        };
        let b = if j < k {
            j
        } else {
            j + 1
        };
        assert(segs1[i] == segs[a] && segs1[j] == segs[b]);
    }
    assert forall|i: int| 0 <= i < segs1.len() implies 0 <= (#[trigger] segs1[i]).0 <= segs1[i].1
        < l.w by {
        let a = if i < k {
            i
        } else {
            i + 1
        };
        assert(segs1[i] == segs[a]);
    }
}

/// Blanking everything from the first to the last segment leaves no white.
proof fn lemma_blank_all(
    im0: Seq<u8>,
    im: Seq<u8>,
    segs: Seq<(i32, i32)>,
    top: int,
    l: StripLimits,
)
    requires
        l.wf(),
        l.fits(im, top),
        held(im0, im, segs, top, l),
        segs.len() > 0,
    ensures
        same_outside(
            im0,
            strip::blank_all(im, segs, top, l),
            l.w as int,
            top,
            top + l.segh,
        ),
        blank(strip::blank_all(im, segs, top, l), top, l),
{
    let r = strip::blank_all(im, segs, top, l);
    let last = segs[segs.len() - 1];
    lemma_cleared(im0, im, top, l, segs[0].0 as int, last.1 as int);
    assert forall|x: int| 0 <= x < l.w implies !#[trigger] strip::white_column(r, top, l, x) by {
        if strip::white_column(r, top, l, x) {
            let i = choose|i: int| 0 <= i < segs.len() && runs::in_run(#[trigger] segs[i], x);
            if i > 0 {
                assert(segs[0].1 + 1 < segs[i].0);
            }
            if i < segs.len() - 1 {
                assert(segs[i].1 + 1 < last.0);
            }
        }
    }
}

/// The outcome of a step that takes out segments: what holds goes on holding, and
/// a step that keeps their number keeps everything.
proof fn lemma_closed_up(
    im0: Seq<u8>,
    im: Seq<u8>,
    segs: Seq<(i32, i32)>,
    top: int,
    l: StripLimits,
)
    requires
        l.wf(),
        l.fits(im, top),
        held(im0, im, segs, top, l),
    ensures
        ({
            let r = strip::closed_up(im, segs, top, l);
            &&& held(im0, r.0, r.1, top, l)
            &&& r.1.len() <= segs.len()
            &&& segs.len() > 0 ==> r.1.len() > 0
            &&& r.1.len() == segs.len() ==> r == (im, segs)
        }),
    decreases segs.len(),
{
    if segs.len() > 0 && exists|i: int|
        0 < i < segs.len() && #[trigger] strip::gap(segs, i) > l.btd_max {
        let k = strip::farthest(segs, l);
        lemma_take_out(im0, im, segs, top, l, k);
        let (im1, segs1) = strip::take_out(im, segs, top, l, k);
        lemma_closed_up(im0, im1, segs1, top, l);
    }
}

proof fn lemma_trimmed(
    im0: Seq<u8>,
    im: Seq<u8>,
    segs: Seq<(i32, i32)>,
    top: int,
    l: StripLimits,
)
    requires
        l.wf(),
        l.fits(im, top),
        held(im0, im, segs, top, l),
        segs.len() > 0,
    ensures
        match strip::trimmed(im, segs, top, l) {
            (im1, None) => same_outside(im0, im1, l.w as int, top, top + l.segh) && blank(
                im1,
                top,
                l,
            ),
            (im1, Some(segs1)) => held(im0, im1, segs1, top, l) && 0 < segs1.len() < segs.len(),
        },
    decreases segs.len(),
{
    if segs.len() <= 1 {
        lemma_blank_all(im0, im, segs, top, l);
    } else {
        let k = strip::outlier(segs, l);
        lemma_take_out(im0, im, segs, top, l, k);
        let (im1, segs1) = strip::take_out(im, segs, top, l, k);
        if segs1[0].0 >= l.centre() || segs1.last().1 <= l.centre() {
            lemma_blank_all(im0, im1, segs1, top, l);
        } else if strip::offset(segs1, l) > l.to_max2 {
            lemma_trimmed(im0, im1, segs1, top, l);
        }
    }
}

proof fn lemma_thickened(
    im0: Seq<u8>,
    im: Seq<u8>,
    segs: Seq<(i32, i32)>,
    top: int,
    l: StripLimits,
)
    requires
        l.wf(),
        l.fits(im, top),
        held(im0, im, segs, top, l),
    ensures
        ({
            let r = strip::thickened(im, segs, top, l);
            &&& held(im0, r.0, r.1, top, l)
            &&& r.1.len() <= segs.len()
            &&& r.1.len() == segs.len() ==> r == (im, segs)
        }),
    decreases segs.len(),
{
    if segs.len() > 1 && l.mpd.above(
        strip::total_width(segs) as nat,
        (segs.last().1 - segs[0].0 + 1) as nat,
    ) {
        let k = strip::farthest(segs, l);
        lemma_take_out(im0, im, segs, top, l, k);
        let (im1, segs1) = strip::take_out(im, segs, top, l, k);
        lemma_thickened(im0, im1, segs1, top, l);
    }
}

proof fn lemma_sharpened(
    im0: Seq<u8>,
    ne: Seq<u8>,
    im: Seq<u8>,
    segs: Seq<(i32, i32)>,
    top: int,
    l: StripLimits,
)
    requires
        l.wf(),
        l.fits(im, top),
        held(im0, im, segs, top, l),
    ensures
        match strip::sharpened(im, ne, segs, top, l) {
            (im1, None) => same_outside(im0, im1, l.w as int, top, top + l.segh) && blank(
                im1,
                top,
                l,
            ),
            (im1, Some(segs1)) => {
                &&& held(im0, im1, segs1, top, l)
                &&& 0 < segs1.len() <= segs.len()
                &&& segs1.len() == segs.len() ==> im1 == im && segs1 == segs
            },
        },
    decreases segs.len(),
{
    if segs.len() > 0 {
        let points = strip::edge_points(ne, segs, top, l.w as int, l.segh as nat);
        if points < l.mpn {
            lemma_blank_all(im0, im, segs, top, l);
        } else if l.mpned.above(points, (strip::total_width(segs) * l.segh) as nat) {
            let k = strip::farthest(segs, l);
            lemma_take_out(im0, im, segs, top, l, k);
            let (im1, segs1) = strip::take_out(im, segs, top, l, k);
            lemma_sharpened(im0, ne, im1, segs1, top, l);
        }
    }
}

/// A round that leaves no segment leaves a blank strip. One that leaves all of
/// them changes nothing.
proof fn lemma_round(im: Seq<u8>, ne: Seq<u8>, top: int, l: StripLimits)
    requires
        l.wf(),
        l.fits(im, top),
    ensures
        same_outside(im, strip::round(im, ne, top, l).0, l.w as int, top, top + l.segh),
        match strip::round(im, ne, top, l) {
            (im1, None) => blank(im1, top, l),
            (im1, Some(segs1)) => segs1.len() == strip::strip_segments(im, top, l).len() ==> im1
                == im,
        },
{
    let segs = strip::strip_segments(im, top, l);
    lemma_start(im, top, l);
    if segs.len() > 0 {
        lemma_closed_up(im, im, segs, top, l);
        let (im1, segs1) = strip::closed_up(im, segs, top, l);
        if strip::offset(segs1, l) > l.to_max2 {
            lemma_trimmed(im, im1, segs1, top, l);
        }
        if let (im2, Some(segs2)) = strip::centred(im1, segs1, top, l) {
            if strip::torn(segs2) {
                lemma_blank_all(im, im2, segs2, top, l);
            } else {
                lemma_thickened(im, im2, segs2, top, l);
                let (im3, segs3) = strip::thickened(im2, segs2, top, l);
                lemma_sharpened(im, ne, im3, segs3, top, l);
            }
        }
    }
}

// ---------------------------------------------------------------------------
// Which segments are left depends on the segments alone
// ---------------------------------------------------------------------------
proof fn lemma_same_closed_up(
    a: Seq<u8>,
    b: Seq<u8>,
    segs: Seq<(i32, i32)>,
    top: int,
    l: StripLimits,
)
    ensures
        strip::closed_up(a, segs, top, l).1 == strip::closed_up(b, segs, top, l).1,
    decreases segs.len(),
{
    if segs.len() > 0 && exists|i: int|
        0 < i < segs.len() && #[trigger] strip::gap(segs, i) > l.btd_max {
        let k = strip::farthest(segs, l);
        lemma_same_closed_up(
            strip::take_out(a, segs, top, l, k).0,
            strip::take_out(b, segs, top, l, k).0,
            segs.remove(k),
            top,
            l,
        );
    }
}

proof fn lemma_same_trimmed(
    a: Seq<u8>,
    b: Seq<u8>,
    segs: Seq<(i32, i32)>,
    top: int,
    l: StripLimits,
)
    ensures
        strip::trimmed(a, segs, top, l).1 == strip::trimmed(b, segs, top, l).1,
    decreases segs.len(),
{
    if segs.len() > 1 {
        let k = strip::outlier(segs, l);
        lemma_same_trimmed(
            strip::take_out(a, segs, top, l, k).0,
            strip::take_out(b, segs, top, l, k).0,
            segs.remove(k),
            top,
            l,
        );
    }
}

proof fn lemma_same_thickened(
    a: Seq<u8>,
    b: Seq<u8>,
    segs: Seq<(i32, i32)>,
    top: int,
    l: StripLimits,
)
    ensures
        strip::thickened(a, segs, top, l).1 == strip::thickened(b, segs, top, l).1,
    decreases segs.len(),
{
    if segs.len() > 1 {
        let k = strip::farthest(segs, l);
        lemma_same_thickened(
            strip::take_out(a, segs, top, l, k).0,
            strip::take_out(b, segs, top, l, k).0,
            segs.remove(k),
            top,
            l,
        );
    }
}

proof fn lemma_same_sharpened(
    a: Seq<u8>,
    b: Seq<u8>,
    ne: Seq<u8>,
    segs: Seq<(i32, i32)>,
    top: int,
    l: StripLimits,
)
    ensures
        strip::sharpened(a, ne, segs, top, l).1 == strip::sharpened(b, ne, segs, top, l).1,
    decreases segs.len(),
{
    if segs.len() > 0 {
        let k = strip::farthest(segs, l);
        lemma_same_sharpened(
            strip::take_out(a, segs, top, l, k).0,
            strip::take_out(b, segs, top, l, k).0,
            ne,
            segs.remove(k),
            top,
            l,
        );
    }
}

/// Images that are the same in the strip have the same segments in it, and a round
/// leaves the same of them.
proof fn lemma_same_round(a: Seq<u8>, b: Seq<u8>, ne: Seq<u8>, top: int, l: StripLimits)
    requires
        l.wf(),
        l.fits(a, top),
        same_inside(a, b, l.w as int, top, top + l.segh),
    ensures
        strip::strip_segments(a, top, l) == strip::strip_segments(b, top, l),
        strip::round(a, ne, top, l).1 == strip::round(b, ne, top, l).1,
{
    let w = l.w as int;
    let h = top + l.segh;
    assert(w * h == h * w) by (nonlinear_arith);
    assert forall|x: int| 0 <= x < w implies strip::white_column(a, top, l, x)
        == strip::white_column(b, top, l, x) by {
        assert forall|y: int| top <= y < top + l.segh implies grid::at(a, w, x, y) == grid::at(
            b,
            w,
            x,
            y,
        ) by {
            grid::lemma_at(x, y, w, h);
            assert(b[y * w + x] == a[y * w + x]);
        }
    }
    assert(Seq::new(l.w as nat, |x: int| strip::white_column(a, top, l, x)) =~= Seq::new(
        l.w as nat,
        |x: int| strip::white_column(b, top, l, x),
    ));
    let segs = strip::strip_segments(a, top, l);
    let (a1, segs1) = strip::closed_up(a, segs, top, l);
    let (b1, _) = strip::closed_up(b, segs, top, l);
    lemma_same_closed_up(a, b, segs, top, l);
    lemma_same_trimmed(a1, b1, segs1, top, l);
    let (a2, some2) = strip::centred(a1, segs1, top, l);
    let (b2, _) = strip::centred(b1, segs1, top, l);
    if let Some(segs2) = some2 {
        lemma_same_thickened(a2, b2, segs2, top, l);
        let (a3, segs3) = strip::thickened(a2, segs2, top, l);
        let (b3, _) = strip::thickened(b2, segs2, top, l);
        lemma_same_sharpened(a3, b3, ne, segs3, top, l);
    }
}

/// A blank strip stays as it is, without text.
proof fn lemma_blank_stays(im: Seq<u8>, ne: Seq<u8>, top: int, l: StripLimits)
    requires
        l.wf(),
        l.fits(im, top),
        blank(im, top, l),
    ensures
        strip::strip_filtered(im, ne, top, l) == (im, false),
{
    lemma_start(im, top, l);
}

/// A strip that has been cleaned stays as it is, and shows text if it did before.
/// Cleaning a strip changes only the strip.
pub proof fn cleaned_strips_stay(im: Seq<u8>, ne: Seq<u8>, top: int, l: StripLimits)
    requires
        l.wf(),
        l.fits(im, top),
    ensures
        ({
            let r = strip::strip_filtered(im, ne, top, l);
            &&& strip::strip_filtered(r.0, ne, top, l) == r
            &&& same_outside(im, r.0, l.w as int, top, top + l.segh)
        }),
    decreases grid::whites(im),
{
    strip::lemma_round(im, ne, top, l);
    lemma_round(im, ne, top, l);
    match strip::round(im, ne, top, l) {
        (im1, None) => {
            lemma_blank_stays(im1, ne, top, l);
        },
        (im1, Some(segs1)) => {
            if segs1.len() != strip::strip_segments(im, top, l).len() {
                cleaned_strips_stay(im1, ne, top, l);
            }
        },
    }
}

/// Whether a strip has been cleaned depends on the strip alone.
proof fn lemma_stays_elsewhere(a: Seq<u8>, b: Seq<u8>, ne: Seq<u8>, top: int, l: StripLimits)
    requires
        l.wf(),
        l.fits(a, top),
        same_inside(a, b, l.w as int, top, top + l.segh),
        strip::strip_filtered(a, ne, top, l).0 == a,
    ensures
        strip::strip_filtered(b, ne, top, l) == (b, strip::strip_filtered(a, ne, top, l).1),
{
    lemma_same_round(a, b, ne, top, l);
    strip::lemma_round(a, ne, top, l);
    lemma_round(a, ne, top, l);
    lemma_round(b, ne, top, l);
    match strip::round(a, ne, top, l) {
        (a1, None) => {
            lemma_start(a, top, l);
            lemma_start(b, top, l);
            lemma_blank_stays(b, ne, top, l);
        },
        (a1, Some(segs1)) => {
            if segs1.len() != strip::strip_segments(a, top, l).len() {
                strip::lemma_strip_filtered(a1, ne, top, l);
                lemma_not_more_whites(a1, a);
            }
        },
    }
}

/// Blanking pixels leaves no more white ones.
proof fn lemma_not_more_whites(a: Seq<u8>, b: Seq<u8>)
    requires
        grid::only_cleared(a, b),
    ensures
        grid::whites(b) <= grid::whites(a),
    decreases a.len(),
{
    if a.len() > 0 {
        assert(b[a.len() - 1] == a[a.len() - 1] || b[a.len() - 1] == 0);
        assert forall|i: int| 0 <= i < a.drop_last().len() implies #[trigger] b.drop_last()[i]
            == a.drop_last()[i] || b.drop_last()[i] == 0 by {
            assert(b[i] == a[i] || b[i] == 0);
        }
        lemma_not_more_whites(a.drop_last(), b.drop_last());
    }
}

// ---------------------------------------------------------------------------
// Bands
// ---------------------------------------------------------------------------
/// Whether each of the first `count` strips has been cleaned.
spec fn all_stay(im: Seq<u8>, ne: Seq<u8>, top: int, count: nat, l: StripLimits) -> bool {
    forall|k: int|
        0 <= k < count ==> (#[trigger] strip::strip_filtered(im, ne, top + k * l.segh, l)).0 == im
}

/// Whether the first `count` strips lie in the image.
spec fn all_fit(im: Seq<u8>, top: int, count: nat, l: StripLimits) -> bool {
    forall|k: int| 0 <= k < count ==> #[trigger] l.fits(im, top + k * l.segh)
}

/// Strips that have been cleaned stay as they are.
proof fn lemma_strips_stay(im: Seq<u8>, ne: Seq<u8>, top: int, count: nat, l: StripLimits)
    requires
        all_stay(im, ne, top, count, l),
    ensures
        filter::strips_filtered(im, ne, top, count, l).0 == im,
    decreases count,
{
    if count > 0 {
        lemma_strips_stay(im, ne, top, (count - 1) as nat, l);
        assert(strip::strip_filtered(im, ne, top + (count - 1) * l.segh, l).0 == im);
    }
}

/// Whether strips have been cleaned, and which of them show text, depends on them
/// alone.
proof fn lemma_strips_elsewhere(
    a: Seq<u8>,
    b: Seq<u8>,
    ne: Seq<u8>,
    top: int,
    count: nat,
    l: StripLimits,
)
    requires
        l.wf(),
        all_fit(a, top, count, l),
        all_stay(a, ne, top, count, l),
        same_inside(a, b, l.w as int, top, top + count * l.segh),
    ensures
        all_stay(b, ne, top, count, l),
        filter::strips_filtered(b, ne, top, count, l) == (
            b,
            filter::strips_filtered(a, ne, top, count, l).1,
        ),
    decreases count,
{
    if count > 0 {
        let c = (count - 1) as nat;
        let last = top + c * l.segh;
        assert(count * l.segh == c * l.segh + l.segh && c * l.segh >= 0) by (nonlinear_arith)
            requires
                count == c + 1,
                c >= 0,
                l.segh >= 0,
        ;
        lemma_strips_elsewhere(a, b, ne, top, c, l);
        lemma_strips_stay(a, ne, top, c, l);
        assert(l.fits(a, last));
        assert(strip::strip_filtered(a, ne, last, l).0 == a);
        lemma_stays_elsewhere(a, b, ne, last, l);
        assert forall|k: int| 0 <= k < count implies (#[trigger] strip::strip_filtered(
            b,
            ne,
            top + k * l.segh,
            l,
        )).0 == b by {
            if k == c {
                assert(top + k * l.segh == last);
            }
        }
    }
}

/// Strips that have just been cleaned, one after the other, have all been cleaned.
/// Nothing else has changed.
proof fn lemma_strips_cleaned(im: Seq<u8>, ne: Seq<u8>, top: int, count: nat, l: StripLimits)
    requires
        l.wf(),
        all_fit(im, top, count, l),
    ensures
        ({
            let r = filter::strips_filtered(im, ne, top, count, l);
            &&& all_stay(r.0, ne, top, count, l)
            &&& filter::strips_filtered(r.0, ne, top, count, l) == r
            &&& same_outside(im, r.0, l.w as int, top, top + count * l.segh)
        }),
    decreases count,
{
    if count > 0 {
        let c = (count - 1) as nat;
        let last = top + c * l.segh;
        assert(count * l.segh == c * l.segh + l.segh && c * l.segh >= 0) by (nonlinear_arith)
            requires
                count == c + 1,
                c >= 0,
                l.segh >= 0,
        ;
        lemma_strips_cleaned(im, ne, top, c, l);
        let (im1, text1) = filter::strips_filtered(im, ne, top, c, l);
        assert forall|k: int| 0 <= k < c implies #[trigger] l.fits(im1, top + k * l.segh) by {
            assert(l.fits(im, top + k * l.segh));
        }
        assert(l.fits(im, last));
        cleaned_strips_stay(im1, ne, last, l);
        let (im2, text2) = strip::strip_filtered(im1, ne, last, l);
        lemma_strips_elsewhere(im1, im2, ne, top, c, l);
        assert forall|k: int| 0 <= k < count implies (#[trigger] strip::strip_filtered(
            im2,
            ne,
            top + k * l.segh,
            l,
        )).0 == im2 by {
            if k == c {
                assert(top + k * l.segh == last);
            }
        }
    }
}

/// The first row below a band and its strips.
pub open spec fn band_end(lb: int, le: int, h: int, segh: int) -> int {
    let below = lb + filter::strip_count(lb, le, h, segh) * segh;
    if below <= le {
        le + 1
    } else {
        below
    }
}

proof fn lemma_band_fits(im: Seq<u8>, lb: int, le: int, h: int, l: StripLimits)
    requires
        l.wf(),
        grid::frame_size(l.w as int, h),
        im.len() == l.w * h,
        0 <= lb,
        le < h,
    ensures
        filter::strip_count(lb, le, h, l.segh as int) >= 0,
        all_fit(im, lb, filter::strip_count(lb, le, h, l.segh as int) as nat, l),
{
    let count = filter::strip_count(lb, le, h, l.segh as int);
    filter::lemma_count_nonnegative(lb, le, h, l.segh as int);
    grid::lemma_sides(l.w as int, h);
    assert forall|k: int| 0 <= k < count implies #[trigger] l.fits(im, lb + k * l.segh) by {
        filter::lemma_strip_in_band(lb, le, h, l.w as int, l.segh as int, k);
    }
}

/// Whether a band has been cleaned.
spec fn band_stays(im: Seq<u8>, ne: Seq<u8>, lb: int, le: int, h: int, l: StripLimits) -> bool {
    let count = filter::strip_count(lb, le, h, l.segh as int);
    &&& all_stay(im, ne, lb, count as nat, l)
    &&& filter::rows_cleared(im, l.w as int, lb + count * l.segh, le) == im
}

/// A band that has just been cleaned has been cleaned, and nothing else has
/// changed.
proof fn lemma_band_cleaned(
    im: Seq<u8>,
    ne: Seq<u8>,
    lb: int,
    le: int,
    h: int,
    l: StripLimits,
)
    requires
        l.wf(),
        grid::frame_size(l.w as int, h),
        im.len() == l.w * h,
        0 <= lb,
        le < h,
    ensures
        ({
            let r = filter::band_filtered(im, ne, lb, le, h, l);
            &&& band_stays(r.0, ne, lb, le, h, l)
            &&& filter::band_filtered(r.0, ne, lb, le, h, l) == r
            &&& same_outside(im, r.0, l.w as int, lb, band_end(lb, le, h, l.segh as int))
        }),
{
    let w = l.w as int;
    let count = filter::strip_count(lb, le, h, l.segh as int);
    lemma_band_fits(im, lb, le, h, l);
    lemma_strips_cleaned(im, ne, lb, count as nat, l);
    let (im1, text) = filter::strips_filtered(im, ne, lb, count as nat, l);
    let below = lb + count * l.segh;
    let r = filter::rows_cleared(im1, w, below, le);
    assert(filter::rows_cleared(r, w, below, le) =~= r);
    lemma_band_fits(im1, lb, le, h, l);
    assert(same_inside(im1, r, w, lb, below));
    lemma_strips_elsewhere(im1, r, ne, lb, count as nat, l);
    assert(0 <= count * l.segh) by (nonlinear_arith)
        requires
            0 <= count,
            0 <= l.segh,
    ;
}

/// Whether a band has been cleaned, and whether it shows text, depends on it alone.
proof fn lemma_band_elsewhere(
    a: Seq<u8>,
    b: Seq<u8>,
    ne: Seq<u8>,
    lb: int,
    le: int,
    h: int,
    l: StripLimits,
)
    requires
        l.wf(),
        grid::frame_size(l.w as int, h),
        a.len() == l.w * h,
        0 <= lb,
        le < h,
        band_stays(a, ne, lb, le, h, l),
        same_inside(a, b, l.w as int, lb, band_end(lb, le, h, l.segh as int)),
    ensures
        band_stays(b, ne, lb, le, h, l),
        filter::band_filtered(b, ne, lb, le, h, l) == (
            b,
            filter::band_filtered(a, ne, lb, le, h, l).1,
        ),
{
    let w = l.w as int;
    let count = filter::strip_count(lb, le, h, l.segh as int);
    let below = lb + count * l.segh;
    lemma_band_fits(a, lb, le, h, l);
    assert(0 <= count * l.segh) by (nonlinear_arith)
        requires
            0 <= count,
            0 <= l.segh,
    ;
    assert(same_inside(a, b, w, lb, below));
    lemma_strips_elsewhere(a, b, ne, lb, count as nat, l);
    let r = filter::rows_cleared(b, w, below, le);
    assert forall|i: int| 0 <= i < b.len() implies r[i] == b[i] by {
        if below <= grid::row(i, w) <= le {
            assert(filter::rows_cleared(a, w, below, le)[i] == a[i]);
            assert(b[i] == a[i]);
        }
    }
    assert(r =~= b);
}

/// Whether no two of the first `n` bands, with their strips, have a row in common.
pub open spec fn bands_apart(lb: Seq<i32>, le: Seq<i32>, n: int, h: int, segh: int) -> bool {
    forall|i: int, j: int|
        0 <= i < n && 0 <= j < n && i != j ==> band_end(
            (#[trigger] lb[i]) as int,
            le[i] as int,
            h,
            segh,
        ) <= (#[trigger] lb[j]) || band_end(lb[j] as int, le[j] as int, h, segh) <= lb[i]
}

spec fn all_bands_stay(
    im: Seq<u8>,
    ne: Seq<u8>,
    lb: Seq<i32>,
    le: Seq<i32>,
    n: nat,
    h: int,
    l: StripLimits,
) -> bool {
    forall|k: int|
        0 <= k < n ==> band_stays(im, ne, (#[trigger] lb[k]) as int, le[k] as int, h, l)
}

/// Whether bands have been cleaned, and which show text, depends on them alone.
proof fn lemma_bands_elsewhere(
    a: Seq<u8>,
    b: Seq<u8>,
    ne: Seq<u8>,
    lb: Seq<i32>,
    le: Seq<i32>,
    n: nat,
    h: int,
    l: StripLimits,
)
    requires
        l.wf(),
        grid::frame_size(l.w as int, h),
        a.len() == l.w * h,
        filter::bands_fit(lb, le, n as int, h),
        all_bands_stay(a, ne, lb, le, n, h, l),
        forall|k: int|
            0 <= k < n ==> same_inside(
                a,
                b,
                l.w as int,
                (#[trigger] lb[k]) as int,
                band_end(lb[k] as int, le[k] as int, h, l.segh as int),
            ),
        a.len() == b.len(),
    ensures
        all_bands_stay(b, ne, lb, le, n, h, l),
        filter::bands_filtered(b, ne, lb, le, n, h, l) == (
            b,
            filter::bands_filtered(a, ne, lb, le, n, h, l).1,
        ),
    decreases n,
{
    if n > 0 {
        let m = (n - 1) as nat;
        let x = lb[n - 1] as int;
        let y = le[n - 1] as int;
        lemma_all_bands_stay(a, ne, lb, le, m, h, l);
        lemma_bands_elsewhere(a, b, ne, lb, le, m, h, l);
        assert(band_stays(a, ne, x, y, h, l));
        assert(same_inside(a, b, l.w as int, x, band_end(x, y, h, l.segh as int)));
        lemma_band_elsewhere(a, b, ne, x, y, h, l);
        assert forall|k: int| 0 <= k < n implies band_stays(
            b,
            ne,
            (#[trigger] lb[k]) as int,
            le[k] as int,
            h,
            l,
        ) by {
            if k < m {
                assert(band_stays(b, ne, lb[k] as int, le[k] as int, h, l));
            }
        }
    }
}

/// Bands that have been cleaned stay as they are.
proof fn lemma_all_bands_stay(
    im: Seq<u8>,
    ne: Seq<u8>,
    lb: Seq<i32>,
    le: Seq<i32>,
    n: nat,
    h: int,
    l: StripLimits,
)
    requires
        all_bands_stay(im, ne, lb, le, n, h, l),
    ensures
        filter::bands_filtered(im, ne, lb, le, n, h, l).0 == im,
    decreases n,
{
    if n > 0 {
        let m = (n - 1) as nat;
        lemma_all_bands_stay(im, ne, lb, le, m, h, l);
        let x = lb[n - 1] as int;
        let y = le[n - 1] as int;
        assert(band_stays(im, ne, x, y, h, l));
        lemma_strips_stay(im, ne, x, filter::strip_count(x, y, h, l.segh as int) as nat, l);
    }
}

proof fn lemma_bands_cleaned(
    im: Seq<u8>,
    ne: Seq<u8>,
    lb: Seq<i32>,
    le: Seq<i32>,
    n: nat,
    h: int,
    l: StripLimits,
)
    requires
        l.wf(),
        grid::frame_size(l.w as int, h),
        im.len() == l.w * h,
        filter::bands_fit(lb, le, n as int, h),
        bands_apart(lb, le, n as int, h, l.segh as int),
    ensures
        ({
            let r = filter::bands_filtered(im, ne, lb, le, n, h, l);
            &&& r.0.len() == im.len()
            &&& all_bands_stay(r.0, ne, lb, le, n, h, l)
            &&& filter::bands_filtered(r.0, ne, lb, le, n, h, l) == r
        }),
    decreases n,
{
    if n > 0 {
        let m = (n - 1) as nat;
        let x = lb[n - 1] as int;
        let y = le[n - 1] as int;
        let w = l.w as int;
        lemma_bands_cleaned(im, ne, lb, le, m, h, l);
        let (im1, text1) = filter::bands_filtered(im, ne, lb, le, m, h, l);
        lemma_band_cleaned(im1, ne, x, y, h, l);
        let (im2, text2) = filter::band_filtered(im1, ne, x, y, h, l);
        assert forall|k: int| 0 <= k < m implies same_inside(
            im1,
            im2,
            w,
            (#[trigger] lb[k]) as int,
            band_end(lb[k] as int, le[k] as int, h, l.segh as int),
        ) by {
            let _ = lb[n - 1];
        }
        lemma_bands_elsewhere(im1, im2, ne, lb, le, m, h, l);
        assert forall|k: int| 0 <= k < n implies band_stays(
            im2,
            ne,
            (#[trigger] lb[k]) as int,
            le[k] as int,
            h,
            l,
        ) by {
            if k < m {
                assert(band_stays(im2, ne, lb[k] as int, le[k] as int, h, l));
            }
        }
    }
}

/// Cleaning bands a second time changes nothing and finds text again, if the bands
/// with their strips have no row in common. One band never has.
pub proof fn cleaned_bands_stay(
    im: Seq<u8>,
    ne: Seq<u8>,
    lb: Seq<i32>,
    le: Seq<i32>,
    n: nat,
    h: int,
    l: StripLimits,
)
    requires
        l.wf(),
        grid::frame_size(l.w as int, h),
        im.len() == l.w * h,
        filter::bands_fit(lb, le, n as int, h),
        n <= 1 || bands_apart(lb, le, n as int, h, l.segh as int),
    ensures
        filter::bands_filtered(
            filter::bands_filtered(im, ne, lb, le, n, h, l).0,
            ne,
            lb,
            le,
            n,
            h,
            l,
        ) == filter::bands_filtered(im, ne, lb, le, n, h, l),
{
    lemma_bands_cleaned(im, ne, lb, le, n, h, l);
}

// ---------------------------------------------------------------------------
// Text and white pixels
// ---------------------------------------------------------------------------
/// A cleaned strip shows text just when it has a white column.
proof fn lemma_text_is_white(im: Seq<u8>, ne: Seq<u8>, top: int, l: StripLimits)
    requires
        l.wf(),
        l.fits(im, top),
    ensures
        strip::strip_filtered(im, ne, top, l).1 <==> !blank(
            strip::strip_filtered(im, ne, top, l).0,
            top,
            l,
        ),
    decreases grid::whites(im),
{
    strip::lemma_round(im, ne, top, l);
    lemma_round(im, ne, top, l);
    lemma_start(im, top, l);
    if let (im1, Some(segs1)) = strip::round(im, ne, top, l) {
        if segs1.len() != strip::strip_segments(im, top, l).len() {
            lemma_text_is_white(im1, ne, top, l);
        }
    }
}

/// Cleaned strips show text just when one of them has a white column.
proof fn lemma_strips_text(im: Seq<u8>, ne: Seq<u8>, top: int, count: nat, l: StripLimits)
    requires
        l.wf(),
        all_fit(im, top, count, l),
        all_stay(im, ne, top, count, l),
    ensures
        filter::strips_filtered(im, ne, top, count, l).1 <==> exists|k: int|
            0 <= k < count && !blank(im, #[trigger] (top + k * l.segh), l),
    decreases count,
{
    if count > 0 {
        let c = count - 1;
        lemma_strips_text(im, ne, top, c as nat, l);
        lemma_strips_stay(im, ne, top, c as nat, l);
        assert(l.fits(im, top + c * l.segh));
        lemma_text_is_white(im, ne, top + c * l.segh, l);
        assert(strip::strip_filtered(im, ne, top + c * l.segh, l).0 == im);
    }
}

/// Cleaning the whole image as one band finds text just when a white pixel is left.
pub proof fn text_is_found_where_white_is_left(
    im: Seq<u8>,
    ne: Seq<u8>,
    lb: Seq<i32>,
    le: Seq<i32>,
    h: int,
    l: StripLimits,
)
    requires
        l.wf(),
        grid::frame_size(l.w as int, h),
        im.len() == l.w * h,
        lb.len() >= 1,
        le.len() >= 1,
        lb[0] == 0,
        le[0] == h - 1,
    ensures
        filter::bands_filtered(im, ne, lb, le, 1, h, l).1 <==> laws::shows_white(
            filter::bands_filtered(im, ne, lb, le, 1, h, l).0,
        ),
{
    let w = l.w as int;
    let segh = l.segh as int;
    let count = filter::strip_count(0, h - 1, h, segh);
    assert(filter::bands_filtered(im, ne, lb, le, 0, h, l) == (im, false));
    assert(filter::bands_filtered(im, ne, lb, le, 1, h, l) == filter::band_filtered(
        im,
        ne,
        0,
        h - 1,
        h,
        l,
    ));
    let (r, text) = filter::band_filtered(im, ne, 0, h - 1, h, l);
    lemma_band_cleaned(im, ne, 0, h - 1, h, l);
    lemma_band_fits(r, 0, h - 1, h, l);
    lemma_strips_text(r, ne, 0, count as nat, l);
    if text {
        let k = choose|k: int| 0 <= k < count && !blank(r, #[trigger] (0 + k * l.segh), l);
        let top = k * segh;
        let x = choose|x: int| 0 <= x < w && #[trigger] strip::white_column(r, top, l, x);
        let y = choose|y: int| top <= y < top + segh && #[trigger] grid::at(r, w, x, y) == 255;
        filter::lemma_strip_in_band(0, h - 1, h, w, segh, k);
        grid::lemma_at(x, y, w, h);
        assert(r[y * w + x] == 255);
    }
    if laws::shows_white(r) {
        let i = choose|i: int| 0 <= i < r.len() && #[trigger] r[i] == 255;
        grid::lemma_of(i, w, h);
        let x = grid::col(i, w);
        let y = grid::row(i, w);
        let below = count * segh;
        if below <= y {
            assert(filter::rows_cleared(r, w, 0 + below, h - 1)[i] == r[i]);
        }
        let k = y / segh;
        vstd::arithmetic::div_mod::lemma_fundamental_div_mod(y, segh);
        assert(k * segh == segh * k) by (nonlinear_arith);
        assert(0 <= k < count) by (nonlinear_arith)
            requires
                0 <= y < count * segh,
                segh >= 1,
                y == segh * k + y % segh,
                0 <= y % segh < segh,
        ;
        let top = 0 + k * l.segh;
        assert(grid::at(r, w, x, y) == 255);
        assert(strip::white_column(r, top, l, x));
        assert(!blank(r, 0 + k * l.segh, l));
    }
}

} // verus!
