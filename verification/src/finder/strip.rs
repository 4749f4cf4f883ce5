//! Cleaning of one horizontal strip of a text band.
//!
//! A strip is a few rows high. Its white columns form segments. Segments are
//! taken out of the strip, always one of the two outermost, until those left
//! stand close together, near the centre of the frame, densely and on enough
//! edges.

use super::grid;
use super::params::Params;
use super::runs;
use super::runs::find_runs;
use super::single::Single;
use vstd::prelude::*;

verus! {

/// The limits for segments in a frame of a given width.
#[derive(Clone, Copy)]
pub struct StripLimits {
    /// Width of the frame.
    pub w: usize,
    /// Height of a strip.
    pub segh: usize,
    /// Largest distance of neighbouring segments.
    pub btd_max: i64,
    /// Twice the largest offset from the centre.
    pub to_max2: i64,
    /// Minimal number of edge points.
    pub mpn: usize,
    /// Minimal density of text columns.
    pub mpd: Single,
    /// Minimal density of edge points.
    pub mpned: Single,
}

/// `n`, or the largest 32-bit signed number where `n` is larger.
pub open spec fn cap31(n: nat) -> int {
    if n <= 0x7fff_ffff {
        n as int
    } else {
        0x7fff_ffff
    }
}

/// The distance of `a` from zero.
pub open spec fn dist(a: int) -> int {
    if a < 0 {
        -a
    } else {
        a
    }
}

impl StripLimits {
    pub open spec fn wf(self) -> bool {
        &&& 1 <= self.w <= 0x7fff_ffff
        &&& 1 <= self.segh <= 0x7fff_ffff
        &&& 0 <= self.btd_max <= 0x7fff_ffff
        &&& 0 <= self.to_max2 <= 0xffff_fffe
        &&& self.mpn <= 0x7fff_ffff
        &&& self.mpd.wf()
        &&& self.mpned.wf()
    }

    /// The limits that the parameters give in a frame of width `w`.
    pub open spec fn given_by(p: Params, w: int) -> StripLimits {
        StripLimits {
            w: w as usize,
            segh: p.segh,
            btd_max: cap31(p.btd.part_of(w as nat)) as i64,
            to_max2: (2 * cap31(p.to.part_of(w as nat))) as i64,
            mpn: p.mpn,
            mpd: p.mpd,
            mpned: p.mpned,
        }
    }

    /// The middle column.
    pub open spec fn centre(self) -> int {
        (self.w - 1) / 2
    }

    /// Whether rows `top..top + segh` lie in the image.
    pub open spec fn fits(self, im: Seq<u8>, top: int) -> bool {
        &&& 0 <= top
        &&& (top + self.segh) * self.w <= im.len() <= 0x7fff_ffff
    }
}

/// Whether a column of the strip has a white pixel.
pub open spec fn white_column(im: Seq<u8>, top: int, l: StripLimits, x: int) -> bool {
    exists|y: int| top <= y < top + l.segh && #[trigger] grid::at(im, l.w as int, x, y) == 255
}

/// The segments of a strip: the maximal runs of columns with a white pixel.
pub open spec fn strip_segments(im: Seq<u8>, top: int, l: StripLimits) -> Seq<(i32, i32)> {
    runs::runs(Seq::new(l.w as nat, |x: int| white_column(im, top, l, x)))
}

/// The image with columns `a..=b` of the strip blanked.
pub open spec fn cleared(im: Seq<u8>, top: int, l: StripLimits, a: int, b: int) -> Seq<u8> {
    Seq::new(
        im.len(),
        |i: int|
            if top <= grid::row(i, l.w as int) < top + l.segh && a <= grid::col(i, l.w as int)
                <= b {
                0u8
            } else {
                im[i]
            },
    )
}

/// Whether a segment lies in the right half, or too far off the centre to the right.
pub open spec fn too_right(s: (i32, i32), l: StripLimits) -> bool {
    (s.0 + s.1 - l.centre() * 2) * 2 >= l.to_max2 || s.0 >= l.centre()
}

/// Which of the two outermost segments is to go.
pub open spec fn farthest(segs: Seq<(i32, i32)>, l: StripLimits) -> int {
    let first = segs[0];
    let last = segs.last();
    let off_first = dist(first.0 + first.1 - (l.w - 1));
    let off_last = dist(last.0 + last.1 - (l.w - 1));
    if too_right(last, l) || (off_first <= l.to_max2 && last.1 - last.0 < first.1 - first.0)
        || off_last > off_first {
        segs.len() - 1
    } else {
        0
    }
}

/// The distance of segment `i` from the one before it.
pub open spec fn gap(segs: Seq<(i32, i32)>, i: int) -> int {
    segs[i].0 - segs[i - 1].1
}

/// Takes segment `k` out of the strip.
pub open spec fn take_out(
    im: Seq<u8>,
    segs: Seq<(i32, i32)>,
    top: int,
    l: StripLimits,
    k: int,
) -> (Seq<u8>, Seq<(i32, i32)>) {
    (cleared(im, top, l, segs[k].0 as int, segs[k].1 as int), segs.remove(k))
}

/// Blanks everything from the first to the last segment.
pub open spec fn blank_all(
    im: Seq<u8>,
    segs: Seq<(i32, i32)>,
    top: int,
    l: StripLimits,
) -> Seq<u8> {
    cleared(im, top, l, segs[0].0 as int, segs.last().1 as int)
}

/// While neighbours stand too far apart, the farther outermost segment goes.
pub open spec fn closed_up(im: Seq<u8>, segs: Seq<(i32, i32)>, top: int, l: StripLimits) -> (
    Seq<u8>,
    Seq<(i32, i32)>,
)
    decreases segs.len(),
{
    if segs.len() > 0 && exists|i: int| 0 < i < segs.len() && #[trigger] gap(segs, i) > l.btd_max {
        let (im1, segs1) = take_out(im, segs, top, l, farthest(segs, l));
        closed_up(im1, segs1, top, l)
    } else {
        (im, segs)
    }
}

/// How far the segments, taken as a whole, are off the centre.
pub open spec fn offset(segs: Seq<(i32, i32)>, l: StripLimits) -> int {
    dist(segs.last().1 + segs[0].0 - (l.w - 1))
}

/// The outermost segment without which the others are nearer to the centre.
pub open spec fn outlier(segs: Seq<(i32, i32)>, l: StripLimits) -> int {
    let n = segs.len() as int;
    let without_last = dist(segs[n - 2].1 + segs[0].0 - (l.w - 1));
    let without_first = dist(segs[n - 1].1 + segs[1].0 - (l.w - 1));
    if without_last > without_first {
        0
    } else {
        n - 1
    }
}

/// Outermost segments go until the others are centred. Nothing is left when
/// they never are, or when only one half of the frame still has segments.
pub open spec fn trimmed(im: Seq<u8>, segs: Seq<(i32, i32)>, top: int, l: StripLimits) -> (
    Seq<u8>,
    Option<Seq<(i32, i32)>>,
)
    decreases segs.len(),
{
    if segs.len() <= 1 {
        (blank_all(im, segs, top, l), None)
    } else {
        let (im1, segs1) = take_out(im, segs, top, l, outlier(segs, l));
        if segs1[0].0 >= l.centre() || segs1.last().1 <= l.centre() {
            (blank_all(im1, segs1, top, l), None)
        } else if offset(segs1, l) <= l.to_max2 {
            (im1, Some(segs1))
        } else {
            trimmed(im1, segs1, top, l)
        }
    }
}

/// The segments brought near the centre.
pub open spec fn centred(im: Seq<u8>, segs: Seq<(i32, i32)>, top: int, l: StripLimits) -> (
    Seq<u8>,
    Option<Seq<(i32, i32)>>,
) {
    if offset(segs, l) <= l.to_max2 {
        (im, Some(segs))
    } else {
        trimmed(im, segs, top, l)
    }
}

/// The width of a segment.
pub open spec fn width(s: (i32, i32)) -> int {
    s.1 - s.0 + 1
}

/// Whether there are just two segments, farther apart than either is wide.
pub open spec fn torn(segs: Seq<(i32, i32)>) -> bool {
    segs.len() == 2 && gap(segs, 1) - 1 > width(segs[0]) && gap(segs, 1) - 1 > width(segs[1])
}

/// The number of columns in all segments.
pub open spec fn total_width(segs: Seq<(i32, i32)>) -> int
    decreases segs.len(),
{
    if segs.len() == 0 {
        0
    } else {
        total_width(segs.drop_last()) + width(segs.last())
    }
}

/// While the columns between the outermost segments are too sparse, the farther
/// outermost segment goes.
pub open spec fn thickened(im: Seq<u8>, segs: Seq<(i32, i32)>, top: int, l: StripLimits) -> (
    Seq<u8>,
    Seq<(i32, i32)>,
)
    decreases segs.len(),
{
    if segs.len() > 1 && l.mpd.above(
        total_width(segs) as nat,
        (segs.last().1 - segs[0].0 + 1) as nat,
    ) {
        let (im1, segs1) = take_out(im, segs, top, l, farthest(segs, l));
        thickened(im1, segs1, top, l)
    } else {
        (im, segs)
    }
}

/// The number of white pixels among `im[a..b]`.
pub open spec fn count_white(im: Seq<u8>, a: int, b: int) -> nat
    decreases b - a,
{
    if a >= b {
        0
    } else {
        count_white(im, a, b - 1) + if im[b - 1] == 255 {
            1nat
        } else {
            0
        }
    }
}

/// The number of edge points under the segments, in the row that starts at `base`.
pub open spec fn row_points(ne: Seq<u8>, base: int, segs: Seq<(i32, i32)>) -> nat
    decreases segs.len(),
{
    if segs.len() == 0 {
        0
    } else {
        row_points(ne, base, segs.drop_last()) + count_white(
            ne,
            base + segs.last().0,
            base + segs.last().1 + 1,
        )
    }
}

/// The number of edge points under the segments in the first `rows` rows of a strip.
pub open spec fn edge_points(
    ne: Seq<u8>,
    segs: Seq<(i32, i32)>,
    top: int,
    w: int,
    rows: nat,
) -> nat
    decreases rows,
{
    if rows == 0 {
        0
    } else {
        edge_points(ne, segs, top, w, (rows - 1) as nat) + row_points(
            ne,
            (top + rows - 1) * w,
            segs,
        )
    }
}

/// While the edge points are too sparse, the farther outermost segment goes.
/// Nothing is left when there are too few of them.
pub open spec fn sharpened(
    im: Seq<u8>,
    ne: Seq<u8>,
    segs: Seq<(i32, i32)>,
    top: int,
    l: StripLimits,
) -> (Seq<u8>, Option<Seq<(i32, i32)>>)
    decreases segs.len(),
{
    if segs.len() == 0 {
        (im, None)
    } else {
        let points = edge_points(ne, segs, top, l.w as int, l.segh as nat);
        if points < l.mpn {
            (blank_all(im, segs, top, l), None)
        } else if l.mpned.above(points, (total_width(segs) * l.segh) as nat) {
            let (im1, segs1) = take_out(im, segs, top, l, farthest(segs, l));
            sharpened(im1, ne, segs1, top, l)
        } else {
            (im, Some(segs))
        }
    }
}

/// Centred segments checked for distance, text columns and edge points.
pub open spec fn settled(
    im: Seq<u8>,
    ne: Seq<u8>,
    segs: Seq<(i32, i32)>,
    top: int,
    l: StripLimits,
) -> (Seq<u8>, Option<Seq<(i32, i32)>>) {
    if torn(segs) {
        (blank_all(im, segs, top, l), None)
    } else {
        let (im1, segs1) = thickened(im, segs, top, l);
        sharpened(im1, ne, segs1, top, l)
    }
}

/// One round of cleaning: the strip's image, and the segments left in it.
pub open spec fn round(im: Seq<u8>, ne: Seq<u8>, top: int, l: StripLimits) -> (
    Seq<u8>,
    Option<Seq<(i32, i32)>>,
) {
    let segs = strip_segments(im, top, l);
    if segs.len() == 0 {
        (im, None)
    } else {
        let (im1, segs1) = closed_up(im, segs, top, l);
        match centred(im1, segs1, top, l) {
            (im2, None) => (im2, None),
            (im2, Some(segs2)) => settled(im2, ne, segs2, top, l),
        }
    }
}

/// What the rounds keep of the strip they started from: the image only loses
/// pixels, the segments are some of those at the start, in their order, and a
/// segment that is gone took a white pixel with it.
pub open spec fn kept(
    im0: Seq<u8>,
    segs0: Seq<(i32, i32)>,
    im: Seq<u8>,
    segs: Seq<(i32, i32)>,
    w: int,
) -> bool {
    &&& grid::only_cleared(im0, im)
    &&& runs::separated(segs, w)
    &&& forall|i: int| 0 <= i < segs.len() ==> segs0.contains(#[trigger] segs[i])
    &&& segs.len() <= segs0.len()
    &&& segs.len() < segs0.len() ==> lost_white(im0, im)
}

/// Whether a white pixel has been blanked.
pub open spec fn lost_white(im0: Seq<u8>, im: Seq<u8>) -> bool {
    exists|i: int| 0 <= i < im0.len() && #[trigger] im0[i] == 255 && im[i] == 0
}

proof fn lemma_start(im: Seq<u8>, top: int, l: StripLimits)
    requires
        l.wf(),
    ensures
        kept(im, strip_segments(im, top, l), im, strip_segments(im, top, l), l.w as int),
        forall|i: int|
            0 <= i < strip_segments(im, top, l).len() ==> white_column(
                im,
                top,
                l,
                (#[trigger] strip_segments(im, top, l)[i]).0 as int,
            ),
{
    let marks = Seq::new(l.w as nat, |x: int| white_column(im, top, l, x));
    runs::runs_cover(marks);
    let segs = strip_segments(im, top, l);
    assert forall|i: int| 0 <= i < segs.len() implies white_column(
        im,
        top,
        l,
        (#[trigger] segs[i]).0 as int,
    ) by {
        assert(runs::in_run(segs[i], segs[i].0 as int));
        assert(marks[segs[i].0 as int]);
    }
}

/// Taking out a segment.
proof fn lemma_take_out(
    im0: Seq<u8>,
    segs0: Seq<(i32, i32)>,
    im: Seq<u8>,
    segs: Seq<(i32, i32)>,
    top: int,
    l: StripLimits,
    k: int,
)
    requires
        l.wf(),
        l.fits(im0, top),
        segs0 == strip_segments(im0, top, l),
        kept(im0, segs0, im, segs, l.w as int),
        0 <= k < segs.len(),
    ensures
        kept(
            im0,
            segs0,
            take_out(im, segs, top, l, k).0,
            take_out(im, segs, top, l, k).1,
            l.w as int,
        ),
{
    let (im1, segs1) = take_out(im, segs, top, l, k);
    let w = l.w as int;
    lemma_start(im0, top, l);
    assert(segs0.contains(segs[k]));
    let j = choose|j: int| 0 <= j < segs0.len() && segs0[j] == segs[k];
    let x = segs[k].0 as int;
    assert(white_column(im0, top, l, segs0[j].0 as int));
    let y = choose|y: int| top <= y < top + l.segh && #[trigger] grid::at(im0, w, x, y) == 255;
    let h = top + l.segh;
    grid::lemma_at(x, y, w, h);
    let i = y * w + x;
    assert(w * h == h * w) by (nonlinear_arith);
    assert(i < im0.len());
    assert(im0[i] == 255);
    assert(im1[i] == 0);
    assert(lost_white(im0, im1));
    assert forall|i: int| 0 <= i < segs1.len() implies segs0.contains(#[trigger] segs1[i]) by {
        if i < k {
            assert(segs1[i] == segs[i]);
        } else {
            assert(segs1[i] == segs[i + 1]);
        }
    }
    assert forall|i: int, j: int| 0 <= i < j < segs1.len() implies (#[trigger] segs1[i]).1 + 1 < (
    #[trigger] segs1[j]).0 by {
        let a = if i < k {
            i
        } else {
            i + 1
        };
        let b = if j < k {
            j
        } else {
            j + 1
        };
        assert(segs1[i] == segs[a]);
        assert(segs1[j] == segs[b]);
    }
    assert forall|i: int| 0 <= i < segs1.len() implies 0 <= (#[trigger] segs1[i]).0 <= segs1[i].1
        < w by {
        let a = if i < k {
            i
        } else {
            i + 1
        };
        assert(segs1[i] == segs[a]);
    }
}

proof fn lemma_closed_up(
    im0: Seq<u8>,
    segs0: Seq<(i32, i32)>,
    im: Seq<u8>,
    segs: Seq<(i32, i32)>,
    top: int,
    l: StripLimits,
)
    requires
        l.wf(),
        l.fits(im0, top),
        segs0 == strip_segments(im0, top, l),
        kept(im0, segs0, im, segs, l.w as int),
    ensures
        kept(
            im0,
            segs0,
            closed_up(im, segs, top, l).0,
            closed_up(im, segs, top, l).1,
            l.w as int,
        ),
        segs.len() > 0 ==> closed_up(im, segs, top, l).1.len() > 0,
    decreases segs.len(),
{
    if segs.len() > 0 && exists|i: int| 0 < i < segs.len() && #[trigger] gap(segs, i) > l.btd_max {
        let k = farthest(segs, l);
        lemma_take_out(im0, segs0, im, segs, top, l, k);
        let (im1, segs1) = take_out(im, segs, top, l, k);
        lemma_closed_up(im0, segs0, im1, segs1, top, l);
    }
}

proof fn lemma_trimmed(
    im0: Seq<u8>,
    segs0: Seq<(i32, i32)>,
    im: Seq<u8>,
    segs: Seq<(i32, i32)>,
    top: int,
    l: StripLimits,
)
    requires
        l.wf(),
        l.fits(im0, top),
        segs0 == strip_segments(im0, top, l),
        kept(im0, segs0, im, segs, l.w as int),
        segs.len() > 0,
    ensures
        grid::only_cleared(im0, trimmed(im, segs, top, l).0),
        trimmed(im, segs, top, l).1 matches Some(s) ==> s.len() > 0 && kept(
            im0,
            segs0,
            trimmed(im, segs, top, l).0,
            s,
            l.w as int,
        ),
    decreases segs.len(),
{
    if segs.len() > 1 {
        let k = outlier(segs, l);
        lemma_take_out(im0, segs0, im, segs, top, l, k);
        let (im1, segs1) = take_out(im, segs, top, l, k);
        if !(segs1[0].0 >= l.centre() || segs1.last().1 <= l.centre()) && offset(segs1, l)
            > l.to_max2 {
            lemma_trimmed(im0, segs0, im1, segs1, top, l);
        }
    }
}

proof fn lemma_thickened(
    im0: Seq<u8>,
    segs0: Seq<(i32, i32)>,
    im: Seq<u8>,
    segs: Seq<(i32, i32)>,
    top: int,
    l: StripLimits,
)
    requires
        l.wf(),
        l.fits(im0, top),
        segs0 == strip_segments(im0, top, l),
        kept(im0, segs0, im, segs, l.w as int),
    ensures
        kept(
            im0,
            segs0,
            thickened(im, segs, top, l).0,
            thickened(im, segs, top, l).1,
            l.w as int,
        ),
    decreases segs.len(),
{
    if segs.len() > 1 && l.mpd.above(
        total_width(segs) as nat,
        (segs.last().1 - segs[0].0 + 1) as nat,
    ) {
        let k = farthest(segs, l);
        lemma_take_out(im0, segs0, im, segs, top, l, k);
        let (im1, segs1) = take_out(im, segs, top, l, k);
        lemma_thickened(im0, segs0, im1, segs1, top, l);
    }
}

proof fn lemma_sharpened(
    im0: Seq<u8>,
    ne: Seq<u8>,
    segs0: Seq<(i32, i32)>,
    im: Seq<u8>,
    segs: Seq<(i32, i32)>,
    top: int,
    l: StripLimits,
)
    requires
        l.wf(),
        l.fits(im0, top),
        segs0 == strip_segments(im0, top, l),
        kept(im0, segs0, im, segs, l.w as int),
    ensures
        grid::only_cleared(im0, sharpened(im, ne, segs, top, l).0),
        sharpened(im, ne, segs, top, l).1 matches Some(s) ==> s.len() > 0 && kept(
            im0,
            segs0,
            sharpened(im, ne, segs, top, l).0,
            s,
            l.w as int,
        ),
    decreases segs.len(),
{
    if segs.len() > 0 {
        let points = edge_points(ne, segs, top, l.w as int, l.segh as nat);
        if points >= l.mpn && l.mpned.above(points, (total_width(segs) * l.segh) as nat) {
            let k = farthest(segs, l);
            lemma_take_out(im0, segs0, im, segs, top, l, k);
            let (im1, segs1) = take_out(im, segs, top, l, k);
            lemma_sharpened(im0, ne, segs0, im1, segs1, top, l);
        }
    }
}

/// A round only blanks pixels, and when it leaves other than all segments it
/// leaves fewer white pixels.
pub proof fn lemma_round(im: Seq<u8>, ne: Seq<u8>, top: int, l: StripLimits)
    requires
        l.wf(),
        l.fits(im, top),
    ensures
        grid::only_cleared(im, round(im, ne, top, l).0),
        round(im, ne, top, l).1 matches Some(s) && s.len() != strip_segments(im, top, l).len()
            ==> grid::whites(round(im, ne, top, l).0) < grid::whites(im),
{
    let segs = strip_segments(im, top, l);
    lemma_start(im, top, l);
    if segs.len() > 0 {
        lemma_closed_up(im, segs, im, segs, top, l);
        let (im1, segs1) = closed_up(im, segs, top, l);
        if offset(segs1, l) > l.to_max2 {
            lemma_trimmed(im, segs, im1, segs1, top, l);
        }
        if let (im2, Some(segs2)) = centred(im1, segs1, top, l) {
            if !torn(segs2) {
                lemma_thickened(im, segs, im2, segs2, top, l);
                let (im3, segs3) = thickened(im2, segs2, top, l);
                lemma_sharpened(im, ne, segs, im3, segs3, top, l);
                if let (im4, Some(segs4)) = sharpened(im3, ne, segs3, top, l) {
                    if segs4.len() != segs.len() {
                        let i = choose|i: int|
                            0 <= i < im.len() && #[trigger] im[i] == 255 && im4[i] == 0;
                        grid::lemma_fewer_whites(im, im4, i);
                    }
                }
            }
        }
    }
}

/// A strip cleaned in rounds until a round leaves all segments, or none. The
/// second part says whether text is left.
pub open spec fn strip_filtered(im: Seq<u8>, ne: Seq<u8>, top: int, l: StripLimits) -> (
    Seq<u8>,
    bool,
)
    decreases grid::whites(im),
    when l.wf() && l.fits(im, top)
{
    proof {
        lemma_round(im, ne, top, l);
    }
    match round(im, ne, top, l) {
        (im1, None) => (im1, false),
        (im1, Some(segs1)) => if segs1.len() == strip_segments(im, top, l).len() {
            (im1, true)
        } else {
            strip_filtered(im1, ne, top, l)
        },
    }
}

/// Cleaning a strip only blanks pixels.
pub proof fn lemma_strip_filtered(im: Seq<u8>, ne: Seq<u8>, top: int, l: StripLimits)
    requires
        l.wf(),
        l.fits(im, top),
    ensures
        grid::only_cleared(im, strip_filtered(im, ne, top, l).0),
    decreases grid::whites(im),
{
    lemma_round(im, ne, top, l);
    if let (im1, Some(segs1)) = round(im, ne, top, l) {
        if segs1.len() != strip_segments(im, top, l).len() {
            lemma_strip_filtered(im1, ne, top, l);
        }
    }
}

/// A product with the frame width or height, as a 32-bit count.
pub fn part31(f: Single, n: usize) -> (r: i64)
    requires
        f.wf(),
        n <= 0x7fff_ffff,
    ensures
        r == cap31(f.part_of(n as nat)),
        0 <= r <= 0x7fff_ffff,
{
    let part: u64 = f.part(n as u32);
    if part <= 0x7fff_ffff {
        part as i64
    } else {
        0x7fff_ffff
    }
}

/// The limits that the parameters give in a frame of width `w`.
pub fn strip_limits(p: &Params, w: usize) -> (l: StripLimits)
    requires
        p.wf(),
        1 <= w <= 0x7fff_ffff,
    ensures
        l.wf(),
        l == StripLimits::given_by(*p, w as int),
{
    let btd_max: i64 = part31(p.btd, w);
    let to_max: i64 = part31(p.to, w);
    StripLimits {
        w,
        segh: p.segh,
        btd_max,
        to_max2: 2 * to_max,
        mpn: p.mpn,
        mpd: p.mpd,
        mpned: p.mpned,
    }
}

proof fn lemma_fits(im: Seq<u8>, top: int, l: StripLimits)
    requires
        l.wf(),
        l.fits(im, top),
    ensures
        top + l.segh <= im.len(),
        l.segh * l.w <= im.len(),
{
    let w = l.w as int;
    assert(top + l.segh <= (top + l.segh) * w) by (nonlinear_arith)
        requires
            w >= 1,
            top + l.segh >= 0,
    ;
    assert(l.segh * w <= (top + l.segh) * w) by (nonlinear_arith)
        requires
            w >= 1,
            top >= 0,
    ;
}

proof fn lemma_strip_row(im: Seq<u8>, top: int, l: StripLimits, y: int)
    requires
        l.wf(),
        l.fits(im, top),
        top <= y < top + l.segh,
    ensures
        0 <= y * l.w,
        y * l.w + l.w <= im.len(),
{
    let w = l.w as int;
    assert(0 <= y * w && y * w + w <= (top + l.segh) * w) by (nonlinear_arith)
        requires
            w >= 1,
            0 <= y < top + l.segh,
    ;
}

/// The segments of a strip.
fn segments(im: &[u8], top: usize, l: &StripLimits) -> (segs: Vec<(i32, i32)>)
    requires
        l.wf(),
        l.fits(im@, top as int),
    ensures
        segs@ == strip_segments(im@, top as int, *l),
{
    let ghost t = top as int;
    let mut marks: Vec<bool> = Vec::new();
    proof {
        lemma_fits(im@, t, *l);
    }
    let bottom: usize = top + l.segh;
    let mut x: usize = 0;
    while x < l.w
        invariant
            l.wf(),
            l.fits(im@, t),
            t == top,
            bottom == t + l.segh,
            x <= l.w,
            marks@ == Seq::new(x as nat, |k: int| white_column(im@, t, *l, k)),
        decreases l.w - x,
    {
        let mut found: bool = false;
        let mut y: usize = top;
        while y < bottom && !found
            invariant
                l.wf(),
                l.fits(im@, t),
                t == top,
                bottom == t + l.segh,
                x < l.w,
                top <= y <= bottom,
                found ==> white_column(im@, t, *l, x as int),
                !found ==> forall|k: int|
                    t <= k < y ==> #[trigger] grid::at(im@, l.w as int, x as int, k) != 255,
            decreases bottom - y, (if found { 0int } else { 1int }),
        {
            proof {
                lemma_strip_row(im@, t, *l, y as int);
            }
            if im[y * l.w + x] == 255 {
                found = true;
                proof {
                    assert(grid::at(im@, l.w as int, x as int, y as int) == 255);
                }
            } else {
                y = y + 1;
            }
        }
        marks.push(found);
        x = x + 1;
    }
    find_runs(marks.as_slice())
}

/// Blanks columns `a..=b` of a strip.
fn clear_columns(im: &mut [u8], top: usize, l: &StripLimits, a: i32, b: i32)
    requires
        l.wf(),
        l.fits(old(im)@, top as int),
        0 <= a <= b < l.w,
    ensures
        final(im)@ == cleared(old(im)@, top as int, *l, a as int, b as int),
{
    let ghost t = top as int;
    let ghost w = l.w as int;
    let ghost before = im@;
    proof {
        lemma_fits(im@, t, *l);
    }
    let bottom: usize = top + l.segh;
    let mut y: usize = top;
    while y < bottom
        invariant
            l.wf(),
            l.fits(before, t),
            t == top,
            w == l.w,
            bottom == t + l.segh,
            top <= y <= bottom,
            0 <= a <= b < l.w,
            im@.len() == before.len(),
            forall|i: int|
                0 <= i < im@.len() ==> #[trigger] im@[i] == if t <= grid::row(i, w) < y && a
                    <= grid::col(i, w) <= b {
                    0u8
                } else {
                    before[i]
                },
        decreases bottom - y,
    {
        proof {
            lemma_strip_row(before, t, *l, y as int);
        }
        let base: usize = y * l.w;
        let mut x: usize = a as usize;
        while x <= b as usize
            invariant
                l.wf(),
                l.fits(before, t),
                t == top,
                w == l.w,
                bottom == t + l.segh,
                top <= y < bottom,
                0 <= a <= b < l.w,
                base == y * w,
                base + w <= before.len() <= 0x7fff_ffff,
                a <= x <= b + 1,
                im@.len() == before.len(),
                forall|i: int|
                    0 <= i < im@.len() ==> #[trigger] im@[i] == if (t <= grid::row(i, w) < y && a
                        <= grid::col(i, w) <= b) || (grid::row(i, w) == y && a <= grid::col(i, w)
                        < x) {
                        0u8
                    } else {
                        before[i]
                    },
            decreases b + 1 - x,
        {
            let ghost prev = im@;
            im[base + x] = 0;
            proof {
                let k = base + x;
                grid::lemma_at(x as int, y as int, w, y + 1);
                assert forall|i: int| 0 <= i < im@.len() implies #[trigger] im@[i] == if (t
                    <= grid::row(i, w) < y && a <= grid::col(i, w) <= b) || (grid::row(i, w) == y
                    && a <= grid::col(i, w) < x + 1) {
                    0u8
                } else {
                    before[i]
                } by {
                    if i != k {
                        assert(im@[i] == prev[i]);
                        if grid::row(i, w) == y && grid::col(i, w) == x {
                            vstd::arithmetic::div_mod::lemma_fundamental_div_mod(i, w);
                            vstd::arithmetic::mul::lemma_mul_is_commutative(w, i / w);
                        }
                    }
                }
            }
            x = x + 1;
        }
        y = y + 1;
    }
    assert(im@ =~= cleared(before, t, *l, a as int, b as int));
}

/// Takes segment `k` out of a strip.
fn drop_segment(
    im: &mut [u8],
    segs: &mut Vec<(i32, i32)>,
    top: usize,
    l: &StripLimits,
    k: usize,
)
    requires
        l.wf(),
        l.fits(old(im)@, top as int),
        k < old(segs)@.len(),
        runs::separated(old(segs)@, l.w as int),
    ensures
        (final(im)@, final(segs)@) == take_out(old(im)@, old(segs)@, top as int, *l, k as int),
        final(im)@.len() == old(im)@.len(),
{
    let s: (i32, i32) = segs[k];
    clear_columns(im, top, l, s.0, s.1);
    segs.remove(k);
}

/// Blanks everything from the first to the last segment.
fn drop_all(im: &mut [u8], segs: &Vec<(i32, i32)>, top: usize, l: &StripLimits)
    requires
        l.wf(),
        l.fits(old(im)@, top as int),
        segs@.len() > 0,
        runs::separated(segs@, l.w as int),
    ensures
        final(im)@ == blank_all(old(im)@, segs@, top as int, *l),
{
    let n: usize = segs.len();
    clear_columns(im, top, l, segs[0].0, segs[n - 1].1);
}

/// The distance of `a` from zero.
fn magnitude(a: i64) -> (r: i64)
    requires
        a > i64::MIN,
    ensures
        r == dist(a as int),
{
    if a < 0 {
        -a
    } else {
        a
    }
}

/// Whether a segment lies in the right half, or too far off the centre to the right.
pub fn is_too_right(lb: i32, le: i32, to_max2: i64, centre: i64) -> (r: bool)
    requires
        0 <= centre <= 0x7fff_ffff,
    ensures
        r == ((lb + le - centre * 2) * 2 >= to_max2 || lb >= centre),
{
    (lb as i64 + le as i64 - centre * 2) * 2 >= to_max2 || lb as i64 >= centre
}

/// Which of the two outermost segments is to go.
fn farthest_from_center(segs: &Vec<(i32, i32)>, l: &StripLimits) -> (k: usize)
    requires
        l.wf(),
        segs@.len() > 0,
        runs::separated(segs@, l.w as int),
    ensures
        k == farthest(segs@, *l),
        k < segs@.len(),
{
    let n: usize = segs.len();
    let first: (i32, i32) = segs[0];
    let last: (i32, i32) = segs[n - 1];
    let c2: i64 = (l.w - 1) as i64;
    let centre: i64 = ((l.w - 1) / 2) as i64;
    let off_first: i64 = magnitude(first.0 as i64 + first.1 as i64 - c2);
    let off_last: i64 = magnitude(last.0 as i64 + last.1 as i64 - c2);
    if is_too_right(last.0, last.1, l.to_max2, centre) || (off_first <= l.to_max2 && last.1 - last.0
        < first.1 - first.0) || off_last > off_first {
        n - 1
    } else {
        0
    }
}

/// Takes segments out while neighbours stand too far apart.
fn close_up(
    im: &mut [u8],
    segs: &mut Vec<(i32, i32)>,
    top: usize,
    l: &StripLimits,
    Ghost(im0): Ghost<Seq<u8>>,
)
    requires
        l.wf(),
        l.fits(im0, top as int),
        old(segs)@.len() > 0,
        kept(im0, strip_segments(im0, top as int, *l), old(im)@, old(segs)@, l.w as int),
    ensures
        (final(im)@, final(segs)@) == closed_up(old(im)@, old(segs)@, top as int, *l),
        kept(im0, strip_segments(im0, top as int, *l), final(im)@, final(segs)@, l.w as int),
        final(segs)@.len() > 0,
{
    let ghost t = top as int;
    let ghost segs0 = strip_segments(im0, t, *l);
    let ghost goal = closed_up(im@, segs@, t, *l);
    loop
        invariant
            l.wf(),
            l.fits(im0, t),
            t == top,
            segs0 == strip_segments(im0, t, *l),
            segs@.len() > 0,
            kept(im0, segs0, im@, segs@, l.w as int),
            goal == closed_up(im@, segs@, t, *l),
        ensures
            goal == (im@, segs@),
            segs@.len() > 0,
            kept(im0, segs0, im@, segs@, l.w as int),
        decreases segs@.len(),
    {
        let n: usize = segs.len();
        let mut wide: bool = false;
        let mut i: usize = 1;
        while i < n && !wide
            invariant
                n == segs@.len(),
                runs::separated(segs@, l.w as int),
                1 <= i,
                i <= n,
                wide ==> exists|j: int|
                    0 < j < segs@.len() && #[trigger] gap(segs@, j) > l.btd_max,
                !wide ==> forall|j: int| 0 < j < i ==> #[trigger] gap(segs@, j) <= l.btd_max,
            decreases n - i, (if wide { 0int } else { 1int }),
        {
            if segs[i].0 as i64 - segs[i - 1].1 as i64 > l.btd_max {
                wide = true;
                proof {
                    assert(gap(segs@, i as int) > l.btd_max);
                }
            } else {
                i = i + 1;
            }
        }
        if !wide {
            break;
        }
        let k: usize = farthest_from_center(segs, l);
        proof {
            lemma_take_out(im0, segs0, im@, segs@, t, *l, k as int);
        }
        drop_segment(im, segs, top, l, k);
    }
}

/// Takes outermost segments out until the others are centred. False when
/// nothing is left.
fn trim(
    im: &mut [u8],
    segs: &mut Vec<(i32, i32)>,
    top: usize,
    l: &StripLimits,
    Ghost(im0): Ghost<Seq<u8>>,
) -> (some: bool)
    requires
        l.wf(),
        l.fits(im0, top as int),
        old(segs)@.len() > 0,
        kept(im0, strip_segments(im0, top as int, *l), old(im)@, old(segs)@, l.w as int),
    ensures
        some ==> trimmed(old(im)@, old(segs)@, top as int, *l) == (
            final(im)@,
            Some(final(segs)@),
        ),
        !some ==> trimmed(old(im)@, old(segs)@, top as int, *l) == (
            final(im)@,
            None::<Seq<(i32, i32)>>,
        ),
        final(im)@.len() == old(im)@.len(),
        some ==> final(segs)@.len() > 0 && kept(
            im0,
            strip_segments(im0, top as int, *l),
            final(im)@,
            final(segs)@,
            l.w as int,
        ),
{
    let ghost t = top as int;
    let ghost segs0 = strip_segments(im0, t, *l);
    let ghost goal = trimmed(im@, segs@, t, *l);
    let c2: i64 = (l.w - 1) as i64;
    let centre: i64 = ((l.w - 1) / 2) as i64;
    while segs.len() > 1
        invariant
            l.wf(),
            l.fits(im0, t),
            t == top,
            segs0 == strip_segments(im0, t, *l),
            segs@.len() > 0,
            c2 == l.w - 1,
            centre == l.centre(),
            kept(im0, segs0, im@, segs@, l.w as int),
            im0.len() == old(im)@.len(),
            goal == trimmed(old(im)@, old(segs)@, t, *l),
            goal == trimmed(im@, segs@, t, *l),
        decreases segs@.len(),
    {
        let n: usize = segs.len();
        let without_last: i64 = magnitude(segs[n - 2].1 as i64 + segs[0].0 as i64 - c2);
        let without_first: i64 = magnitude(segs[n - 1].1 as i64 + segs[1].0 as i64 - c2);
        let k: usize = if without_last > without_first {
            0
        } else {
            n - 1
        };
        proof {
            lemma_take_out(im0, segs0, im@, segs@, t, *l, k as int);
        }
        drop_segment(im, segs, top, l, k);
        let m: usize = segs.len();
        let lb: i64 = segs[0].0 as i64;
        let le: i64 = segs[m - 1].1 as i64;
        if lb >= centre || le <= centre {
            drop_all(im, segs, top, l);
            return false;
        }
        if magnitude(le + lb - c2) <= l.to_max2 {
            return true;
        }
    }
    drop_all(im, segs, top, l);
    false
}

proof fn lemma_total_width(segs: Seq<(i32, i32)>, n: int)
    requires
        runs::separated(segs, n),
        n >= 0,
    ensures
        0 <= total_width(segs) <= n,
        segs.len() > 0 ==> total_width(segs) <= segs.last().1 + 1,
    decreases segs.len(),
{
    if segs.len() > 0 {
        let s = segs.drop_last();
        assert(forall|i: int| 0 <= i < s.len() ==> s[i] == segs[i]);
        lemma_total_width(s, n);
        assert(0 <= segs[segs.len() - 1].0);
        if s.len() > 0 {
            assert(segs[s.len() - 1].1 + 1 < segs[segs.len() - 1].0);
        }
    }
}

/// The number of columns in all segments.
fn sum_widths(segs: &Vec<(i32, i32)>, Ghost(n): Ghost<int>) -> (s: i64)
    requires
        runs::separated(segs@, n),
        0 <= n <= 0x7fff_ffff,
    ensures
        s == total_width(segs@),
        0 <= s <= n,
{
    let mut s: i64 = 0;
    let mut i: usize = 0;
    while i < segs.len()
        invariant
            i <= segs@.len(),
            runs::separated(segs@, n),
            0 <= n <= 0x7fff_ffff,
            s == total_width(segs@.take(i as int)),
            0 <= s <= n,
        decreases segs@.len() - i,
    {
        proof {
            let part = segs@.take(i + 1);
            assert(part.drop_last() =~= segs@.take(i as int));
            assert(runs::separated(part, n));
            lemma_total_width(part, n);
        }
        s = s + (segs[i].1 as i64 - segs[i].0 as i64 + 1);
        i = i + 1;
    }
    proof {
        assert(segs@.take(i as int) =~= segs@);
    }
    s
}

/// Takes segments out while the columns between them are too sparse.
fn thicken(
    im: &mut [u8],
    segs: &mut Vec<(i32, i32)>,
    top: usize,
    l: &StripLimits,
    Ghost(im0): Ghost<Seq<u8>>,
)
    requires
        l.wf(),
        l.fits(im0, top as int),
        old(segs)@.len() > 0,
        kept(im0, strip_segments(im0, top as int, *l), old(im)@, old(segs)@, l.w as int),
    ensures
        (final(im)@, final(segs)@) == thickened(old(im)@, old(segs)@, top as int, *l),
        final(segs)@.len() > 0,
        kept(im0, strip_segments(im0, top as int, *l), final(im)@, final(segs)@, l.w as int),
{
    let ghost t = top as int;
    let ghost segs0 = strip_segments(im0, t, *l);
    let ghost goal = thickened(im@, segs@, t, *l);
    while segs.len() > 1
        invariant_except_break
            goal == thickened(im@, segs@, t, *l),
        invariant
            l.wf(),
            l.fits(im0, t),
            t == top,
            segs0 == strip_segments(im0, t, *l),
            segs@.len() > 0,
            kept(im0, segs0, im@, segs@, l.w as int),
        ensures
            goal == (im@, segs@),
        decreases segs@.len(),
    {
        let n: usize = segs.len();
        let s: i64 = sum_widths(segs, Ghost(l.w as int));
        let span: i64 = segs[n - 1].1 as i64 - segs[0].0 as i64 + 1;
        proof {
            assert(segs@[0].1 + 1 < segs@[n - 1].0);
        }
        if !l.mpd.is_above(s as u32, span as u32) {
            break;
        }
        let k: usize = farthest_from_center(segs, l);
        proof {
            lemma_take_out(im0, segs0, im@, segs@, t, *l, k as int);
        }
        drop_segment(im, segs, top, l, k);
    }
}

proof fn lemma_count_white(im: Seq<u8>, a: int, b: int)
    requires
        a <= b,
    ensures
        count_white(im, a, b) <= b - a,
    decreases b - a,
{
    if a < b {
        lemma_count_white(im, a, b - 1);
    }
}

proof fn lemma_row_points(ne: Seq<u8>, base: int, segs: Seq<(i32, i32)>, n: int)
    requires
        runs::separated(segs, n),
    ensures
        row_points(ne, base, segs) <= total_width(segs),
    decreases segs.len(),
{
    if segs.len() > 0 {
        let s = segs.drop_last();
        assert(forall|i: int| 0 <= i < s.len() ==> s[i] == segs[i]);
        lemma_row_points(ne, base, s, n);
        let last = segs[segs.len() - 1];
        lemma_count_white(ne, base + last.0, base + last.1 + 1);
    }
}

/// The number of edge points under the segments in the row that starts at `base`.
fn count_row(ne: &[u8], base: usize, segs: &Vec<(i32, i32)>, w: usize) -> (r: u64)
    requires
        runs::separated(segs@, w as int),
        base + w <= ne@.len() <= 0x7fff_ffff,
        w <= 0x7fff_ffff,
    ensures
        r == row_points(ne@, base as int, segs@),
        r <= total_width(segs@) <= w,
{
    let mut r: u64 = 0;
    let mut k: usize = 0;
    while k < segs.len()
        invariant
            k <= segs@.len(),
            runs::separated(segs@, w as int),
            base + w <= ne@.len() <= 0x7fff_ffff,
            w <= 0x7fff_ffff,
            r == row_points(ne@, base as int, segs@.take(k as int)),
            r <= w,
        decreases segs@.len() - k,
    {
        let ghost part = segs@.take(k + 1);
        proof {
            assert(part.drop_last() =~= segs@.take(k as int));
            assert(runs::separated(part, w as int));
            lemma_row_points(ne@, base as int, part, w as int);
            lemma_total_width(part, w as int);
        }
        proof {
            assert(0 <= segs@[k as int].0 <= segs@[k as int].1 < w);
        }
        let end: usize = base + segs[k].1 as usize;
        let start: usize = base + segs[k].0 as usize;
        let mut i: usize = start;
        let mut c: u64 = 0;
        while i <= end
            invariant
                base + w <= ne@.len(),
                start <= i <= end + 1,
                end < base + w,
                w <= 0x7fff_ffff,
                c == count_white(ne@, start as int, i as int),
                c <= i - start,
                start >= base,
            decreases end + 1 - i,
        {
            if ne[i] == 255 {
                c = c + 1;
            }
            i = i + 1;
        }
        proof {
            assert(part.last() == segs@[k as int]);
        }
        r = r + c;
        k = k + 1;
    }
    proof {
        assert(segs@.take(k as int) =~= segs@);
        lemma_row_points(ne@, base as int, segs@, w as int);
        lemma_total_width(segs@, w as int);
    }
    r
}

/// The number of edge points under the segments of a strip.
fn count_edge_points(ne: &[u8], segs: &Vec<(i32, i32)>, top: usize, l: &StripLimits) -> (r: u64)
    requires
        l.wf(),
        l.fits(ne@, top as int),
        runs::separated(segs@, l.w as int),
    ensures
        r == edge_points(ne@, segs@, top as int, l.w as int, l.segh as nat),
        r <= total_width(segs@) * l.segh <= ne@.len(),
{
    let ghost t = top as int;
    let mut r: u64 = 0;
    let mut y: usize = 0;
    let ghost tw = total_width(segs@);
    proof {
        lemma_fits(ne@, t, *l);
        lemma_total_width(segs@, l.w as int);
        assert(tw * 0 == 0);
    }
    while y < l.segh
        invariant
            l.wf(),
            l.fits(ne@, t),
            t == top,
            top + l.segh <= ne@.len(),
            runs::separated(segs@, l.w as int),
            y <= l.segh,
            tw == total_width(segs@),
            0 <= tw <= l.w,
            l.segh * l.w <= ne@.len(),
            r == edge_points(ne@, segs@, t, l.w as int, y as nat),
            r <= tw * y,
        decreases l.segh - y,
    {
        proof {
            lemma_strip_row(ne@, t, *l, t + y);
            assert(tw * (y + 1) == tw * y + tw) by (nonlinear_arith);
            assert(tw * (y + 1) <= l.segh * l.w) by (nonlinear_arith)
                requires
                    0 <= tw <= l.w,
                    0 <= y + 1 <= l.segh,
            ;
        }
        let c: u64 = count_row(ne, (top + y) * l.w, segs, l.w);
        r = r + c;
        y = y + 1;
    }
    proof {
        assert(tw * l.segh <= l.segh * l.w) by (nonlinear_arith)
            requires
                0 <= tw <= l.w,
                0 <= l.segh,
        ;
    }
    r
}

/// Takes segments out while edge points are too sparse. False when nothing is left.
fn sharpen(
    im: &mut [u8],
    ne: &[u8],
    segs: &mut Vec<(i32, i32)>,
    top: usize,
    l: &StripLimits,
    Ghost(im0): Ghost<Seq<u8>>,
) -> (some: bool)
    requires
        l.wf(),
        l.fits(im0, top as int),
        ne@.len() == im0.len(),
        kept(im0, strip_segments(im0, top as int, *l), old(im)@, old(segs)@, l.w as int),
    ensures
        some ==> sharpened(old(im)@, ne@, old(segs)@, top as int, *l) == (
            final(im)@,
            Some(final(segs)@),
        ),
        !some ==> sharpened(old(im)@, ne@, old(segs)@, top as int, *l) == (
            final(im)@,
            None::<Seq<(i32, i32)>>,
        ),
        final(im)@.len() == old(im)@.len(),
{
    let ghost t = top as int;
    let ghost segs0 = strip_segments(im0, t, *l);
    let ghost goal = sharpened(im@, ne@, segs@, t, *l);
    while segs.len() > 0
        invariant
            l.wf(),
            l.fits(im0, t),
            t == top,
            segs0 == strip_segments(im0, t, *l),
            ne@.len() == im0.len(),
            kept(im0, segs0, im@, segs@, l.w as int),
            im0.len() == old(im)@.len(),
            goal == sharpened(old(im)@, ne@, old(segs)@, t, *l),
            goal == sharpened(im@, ne@, segs@, t, *l),
        decreases segs@.len(),
    {
        let s: i64 = sum_widths(segs, Ghost(l.w as int));
        let points: u64 = count_edge_points(ne, segs, top, l);
        if points < l.mpn as u64 {
            drop_all(im, segs, top, l);
            return false;
        }
        let area: u64 = s as u64 * l.segh as u64;
        if !l.mpned.is_above(points as u32, area as u32) {
            return true;
        }
        let k: usize = farthest_from_center(segs, l);
        proof {
            lemma_take_out(im0, segs0, im@, segs@, t, *l, k as int);
        }
        drop_segment(im, segs, top, l, k);
    }
    false
}

/// Checks centred segments for distance, text columns and edge points. False
/// when nothing is left.
fn settle(
    im: &mut [u8],
    ne: &[u8],
    segs: &mut Vec<(i32, i32)>,
    top: usize,
    l: &StripLimits,
    Ghost(im0): Ghost<Seq<u8>>,
) -> (some: bool)
    requires
        l.wf(),
        l.fits(im0, top as int),
        ne@.len() == im0.len(),
        old(segs)@.len() > 0,
        kept(im0, strip_segments(im0, top as int, *l), old(im)@, old(segs)@, l.w as int),
    ensures
        some ==> settled(old(im)@, ne@, old(segs)@, top as int, *l) == (
            final(im)@,
            Some(final(segs)@),
        ),
        !some ==> settled(old(im)@, ne@, old(segs)@, top as int, *l) == (
            final(im)@,
            None::<Seq<(i32, i32)>>,
        ),
        final(im)@.len() == old(im)@.len(),
{
    if segs.len() == 2 {
        let a: (i32, i32) = segs[0];
        let b: (i32, i32) = segs[1];
        let space: i64 = b.0 as i64 - a.1 as i64 - 1;
        if space > a.1 as i64 - a.0 as i64 + 1 && space > b.1 as i64 - b.0 as i64 + 1 {
            drop_all(im, segs, top, l);
            return false;
        }
    }
    thicken(im, segs, top, l, Ghost(im0));
    sharpen(im, ne, segs, top, l, Ghost(im0))
}

/// One round of cleaning. The number of segments at the start and at the end.
fn clean_once(im: &mut [u8], ne: &[u8], top: usize, l: &StripLimits) -> (r: Option<(usize, usize)>)
    requires
        l.wf(),
        l.fits(old(im)@, top as int),
        ne@.len() == old(im)@.len(),
    ensures
        final(im)@ == round(old(im)@, ne@, top as int, *l).0,
        final(im)@.len() == old(im)@.len(),
        match r {
            None => round(old(im)@, ne@, top as int, *l).1 is None,
            Some((n, m)) => {
                &&& n == strip_segments(old(im)@, top as int, *l).len()
                &&& round(old(im)@, ne@, top as int, *l).1 matches Some(segs)
                &&& segs.len() == m
            },
        },
{
    let ghost t = top as int;
    let ghost im0 = im@;
    let mut segs: Vec<(i32, i32)> = segments(im, top, l);
    let n: usize = segs.len();
    if n == 0 {
        return None;
    }
    proof {
        lemma_start(im0, t, *l);
    }
    close_up(im, &mut segs, top, l, Ghost(im0));
    let m: usize = segs.len();
    let c2: i64 = (l.w - 1) as i64;
    proof {
        assert(0 <= segs@[0].0 && segs@[m - 1].1 < l.w);
        assert(segs@.last() == segs@[m - 1]);
    }
    let off: i64 = magnitude(segs[m - 1].1 as i64 + segs[0].0 as i64 - c2);
    if off > l.to_max2 {
        if !trim(im, &mut segs, top, l, Ghost(im0)) {
            return None;
        }
    }
    if settle(im, ne, &mut segs, top, l, Ghost(im0)) {
        Some((n, segs.len()))
    } else {
        None
    }
}

/// Cleans a strip in rounds until a round leaves all segments, or none. True
/// when text is left.
pub fn filter_strip(im: &mut [u8], ne: &[u8], top: usize, l: &StripLimits) -> (text: bool)
    requires
        l.wf(),
        l.fits(old(im)@, top as int),
        ne@.len() == old(im)@.len(),
    ensures
        (final(im)@, text) == strip_filtered(old(im)@, ne@, top as int, *l),
        final(im)@.len() == old(im)@.len(),
{
    let ghost t = top as int;
    let ghost goal = strip_filtered(im@, ne@, t, *l);
    let ghost len = im@.len();
    loop
        invariant
            l.wf(),
            t == top,
            l.fits(im@, t),
            ne@.len() == im@.len(),
            im@.len() == len,
            len == old(im)@.len(),
            goal == strip_filtered(old(im)@, ne@, t, *l),
            goal == strip_filtered(im@, ne@, t, *l),
        decreases grid::whites(im@),
    {
        proof {
            lemma_round(im@, ne@, t, *l);
        }
        match clean_once(im, ne, top, l) {
            None => {
                return false;
            },
            Some((n, m)) => {
                if n == m {
                    return true;
                }
            },
        }
    }
}

} // verus!
