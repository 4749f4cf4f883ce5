//! Filtering of the text areas of a frame.
//!
//! The areas are cleaned strip by strip, joined again with the figures they
//! belong to, freed of small symbols and extended to whole lines.

use super::figure;
use super::figure::{connected_components, Figure};
use super::grid;
use super::imgops;
use super::imgops::{copy, dilate, intersect_two_images_inplace, overwrite};
use super::lines;
use super::lines::{find_busy_rows, find_text_lines, merge_lines, TextLine};
use super::params::Params;
use super::strip;
use super::strip::{filter_strip, part31, strip_limits, StripLimits};
use vstd::prelude::*;

verus! {

/// The first `count` strips of a band, cleaned from the top down. The second
/// part says whether a strip has text left.
pub open spec fn strips_filtered(
    im: Seq<u8>,
    ne: Seq<u8>,
    top: int,
    count: nat,
    l: StripLimits,
) -> (Seq<u8>, bool)
    decreases count,
{
    if count == 0 {
        (im, false)
    } else {
        let (im1, text1) = strips_filtered(im, ne, top, (count - 1) as nat, l);
        let (im2, text2) = strip::strip_filtered(im1, ne, top + (count - 1) * l.segh, l);
        (im2, text1 || text2)
    }
}

/// The number of whole strips in the rows `lb..=le` of an image of height `h`.
/// A last strip may reach below `le`, but not into the last row of the image.
pub open spec fn strip_count(lb: int, le: int, h: int, segh: int) -> int {
    if lb > le {
        0
    } else if le + segh <= h - 1 {
        (le + segh - lb) / segh
    } else {
        (h - 1 - lb) / segh
    }
}

/// The image with rows `a..=b` blanked.
pub open spec fn rows_cleared(im: Seq<u8>, w: int, a: int, b: int) -> Seq<u8> {
    Seq::new(
        im.len(),
        |i: int|
            if a <= grid::row(i, w) <= b {
                0u8
            } else {
                im[i]
            },
    )
}

/// A band cleaned strip by strip, its rows below the last strip blanked.
pub open spec fn band_filtered(
    im: Seq<u8>,
    ne: Seq<u8>,
    lb: int,
    le: int,
    h: int,
    l: StripLimits,
) -> (Seq<u8>, bool) {
    let count = strip_count(lb, le, h, l.segh as int);
    let (im1, text) = strips_filtered(im, ne, lb, count as nat, l);
    (rows_cleared(im1, l.w as int, lb + count * l.segh, le), text)
}

/// The first `n` bands cleaned one after the other. The second part says
/// whether a band has text left.
pub open spec fn bands_filtered(
    im: Seq<u8>,
    ne: Seq<u8>,
    lb: Seq<i32>,
    le: Seq<i32>,
    n: nat,
    h: int,
    l: StripLimits,
) -> (Seq<u8>, bool)
    decreases n,
{
    if n == 0 {
        (im, false)
    } else {
        let (im1, text1) = bands_filtered(im, ne, lb, le, (n - 1) as nat, h, l);
        let (im2, text2) = band_filtered(im1, ne, lb[n - 1] as int, le[n - 1] as int, h, l);
        (im2, text1 || text2)
    }
}

/// Bands of rows that begin in the frame or below, and end in it or above.
pub open spec fn bands_fit(lb: Seq<i32>, le: Seq<i32>, n: int, h: int) -> bool {
    &&& n <= lb.len()
    &&& n <= le.len()
    &&& forall|k: int| 0 <= k < n ==> 0 <= #[trigger] lb[k]
    &&& forall|k: int| 0 <= k < n ==> #[trigger] le[k] < h
}

pub proof fn lemma_strip_in_band(lb: int, le: int, h: int, w: int, segh: int, k: int)
    requires
        0 <= lb,
        le < h,
        segh >= 1,
        w >= 1,
        0 <= k < strip_count(lb, le, h, segh),
    ensures
        lb <= lb + k * segh,
        lb + k * segh + segh <= h - 1,
        (lb + k * segh + segh) * w <= w * h,
{
    let span = if le + segh <= h - 1 {
        le + segh - lb
    } else {
        h - 1 - lb
    };
    let count = strip_count(lb, le, h, segh);
    vstd::arithmetic::div_mod::lemma_fundamental_div_mod(span, segh);
    assert(k * segh + segh <= segh * count) by (nonlinear_arith)
        requires
            k + 1 <= count,
            segh >= 1,
    ;
    assert(0 <= k * segh) by (nonlinear_arith)
        requires
            0 <= k,
            segh >= 1,
    ;
    assert(span % segh >= 0);
    let b = lb + k * segh + segh;
    assert(b * w <= w * h) by (nonlinear_arith)
        requires
            0 <= b <= h,
            w >= 1,
    ;
}

proof fn lemma_strips_only_clear(
    im: Seq<u8>,
    ne: Seq<u8>,
    lb: int,
    le: int,
    h: int,
    count: nat,
    l: StripLimits,
)
    requires
        l.wf(),
        grid::frame_size(l.w as int, h),
        im.len() == l.w * h,
        0 <= lb,
        le < h,
        count <= strip_count(lb, le, h, l.segh as int),
    ensures
        grid::only_cleared(im, strips_filtered(im, ne, lb, count, l).0),
    decreases count,
{
    if count > 0 {
        lemma_strips_only_clear(im, ne, lb, le, h, (count - 1) as nat, l);
        let (im1, _) = strips_filtered(im, ne, lb, (count - 1) as nat, l);
        lemma_strip_in_band(lb, le, h, l.w as int, l.segh as int, count - 1);
        strip::lemma_strip_filtered(im1, ne, lb + (count - 1) * l.segh, l);
    }
}

pub proof fn lemma_count_nonnegative(lb: int, le: int, h: int, segh: int)
    requires
        0 <= lb,
        le < h,
        0 <= h,
        segh >= 1,
    ensures
        0 <= strip_count(lb, le, h, segh) <= h,
        lb <= le ==> lb + strip_count(lb, le, h, segh) * segh <= h,
        0 <= strip_count(lb, le, h, segh) * segh,
{
    if lb <= le {
        let span = if le + segh <= h - 1 {
            le + segh - lb
        } else {
            h - 1 - lb
        };
        let count = strip_count(lb, le, h, segh);
        vstd::arithmetic::div_mod::lemma_fundamental_div_mod(span, segh);
        assert(span / segh >= 0) by (nonlinear_arith)
            requires
                span >= 0,
                segh >= 1,
        ;
        assert(0 <= count * segh && count <= count * segh && segh * count == count * segh)
            by (nonlinear_arith)
            requires
                0 <= count,
                segh >= 1,
        ;
    }
}

/// Cleaning bands only blanks pixels.
pub proof fn bands_only_lose_pixels(
    im: Seq<u8>,
    ne: Seq<u8>,
    lb: Seq<i32>,
    le: Seq<i32>,
    n: nat,
    h: int,
    l: StripLimits,
)
    requires
        l.wf(),
        grid::frame_size(l.w as int, h),
        im.len() == l.w * h,
        bands_fit(lb, le, n as int, h),
    ensures
        grid::only_cleared(im, bands_filtered(im, ne, lb, le, n, h, l).0),
    decreases n,
{
    if n > 0 {
        bands_only_lose_pixels(im, ne, lb, le, (n - 1) as nat, h, l);
        let (im1, _) = bands_filtered(im, ne, lb, le, (n - 1) as nat, h, l);
        let a = lb[n - 1] as int;
        let b = le[n - 1] as int;
        let count = strip_count(a, b, h, l.segh as int);
        lemma_count_nonnegative(a, b, h, l.segh as int);
        lemma_strips_only_clear(im1, ne, a, b, h, count as nat, l);
    }
}

/// Blanks rows `a..=b`.
pub(crate) fn clear_rows(im: &mut [u8], w: usize, h: usize, a: usize, b: usize)
    requires
        grid::frame_size(w as int, h as int),
        old(im)@.len() == w * h,
        b < h,
    ensures
        final(im)@ == rows_cleared(old(im)@, w as int, a as int, b as int),
{
    let ghost before = im@;
    let ghost wi = w as int;
    proof {
        grid::lemma_sides(wi, h as int);
    }
    if a > b {
        assert(im@ =~= rows_cleared(before, wi, a as int, b as int));
        return;
    }
    proof {
        grid::lemma_row_start(a as int, wi, h as int);
        grid::lemma_row_start(b as int, wi, h as int);
        grid::lemma_row_start(b + 1, wi, h as int);
        assert(a * w <= (b + 1) * w) by (nonlinear_arith)
            requires
                a <= b + 1,
                w >= 0,
        ;
    }
    let start: usize = a * w;
    let end: usize = (b + 1) * w;
    let mut i: usize = start;
    while i < end
        invariant
            end <= before.len(),
            im@.len() == before.len(),
            start <= i <= end,
            forall|j: int|
                0 <= j < before.len() ==> #[trigger] im@[j] == if start <= j < i {
                    0u8
                } else {
                    before[j]
                },
        decreases end - i,
    {
        im[i] = 0;
        i = i + 1;
    }
    proof {
        assert forall|j: int| 0 <= j < before.len() implies im@[j] == rows_cleared(
            before,
            wi,
            a as int,
            b as int,
        )[j] by {
            grid::lemma_of(j, wi, h as int);
            let r = grid::row(j, wi);
            assert(a <= r ==> a * w <= r * w) by (nonlinear_arith)
                requires
                    w >= 0,
            ;
            assert(r < a ==> r * w + w <= a * w) by (nonlinear_arith)
                requires
                    w >= 0,
            ;
            assert(r <= b ==> r * w + w <= (b + 1) * w) by (nonlinear_arith)
                requires
                    w >= 0,
            ;
            assert(r > b ==> (b + 1) * w <= r * w) by (nonlinear_arith)
                requires
                    w >= 0,
            ;
        }
        assert(im@ =~= rows_cleared(before, wi, a as int, b as int));
    }
}

/// Cleans one band.
fn filter_band(
    im: &mut [u8],
    ne: &[u8],
    lb: i32,
    le: i32,
    w: usize,
    h: usize,
    l: &StripLimits,
) -> (text: bool)
    requires
        l.wf(),
        l.w == w,
        grid::frame_size(w as int, h as int),
        old(im)@.len() == w * h,
        ne@.len() == w * h,
        0 <= lb,
        le < h,
    ensures
        (final(im)@, text) == band_filtered(old(im)@, ne@, lb as int, le as int, h as int, *l),
        final(im)@.len() == old(im)@.len(),
{
    let ghost before = im@;
    let ghost hi = h as int;
    proof {
        grid::lemma_sides(w as int, hi);
        lemma_count_nonnegative(lb as int, le as int, hi, l.segh as int);
    }
    if lb > le {
        assert(im@ =~= rows_cleared(before, w as int, lb as int, le as int));
        return false;
    }
    let last: i64 = if le as i64 + l.segh as i64 <= h as i64 - 1 {
        le as i64 + l.segh as i64
    } else {
        h as i64 - 1
    };
    let count: usize = ((last - lb as i64) / l.segh as i64) as usize;
    let mut text: bool = false;
    let mut k: usize = 0;
    let mut top: usize = lb as usize;
    proof {
        assert(0 * l.segh == 0);
    }
    while k < count
        invariant
            l.wf(),
            l.w == w,
            hi == h,
            grid::frame_size(w as int, hi),
            before.len() == w * h,
            ne@.len() == w * h,
            0 <= lb <= le < h,
            count == strip_count(lb as int, le as int, hi, l.segh as int),
            k <= count <= h,
            h <= 0x7fff_ffff,
            top == lb + k * l.segh,
            (im@, text) == strips_filtered(before, ne@, lb as int, k as nat, *l),
            im@.len() == before.len(),
        decreases count - k,
    {
        proof {
            lemma_strip_in_band(lb as int, le as int, hi, w as int, l.segh as int, k as int);
            assert((k + 1) * l.segh == k * l.segh + l.segh) by (nonlinear_arith);
        }
        let t: bool = filter_strip(im, ne, top, l);
        text = text || t;
        top = top + l.segh;
        k = k + 1;
    }
    clear_rows(im, w, h, top, le as usize);
    text
}

/// Cleans bands strip by strip: in each strip only segments near the centre
/// stay, close to each other, densely and on enough edges. Returns 1 when a
/// strip has text left, and 0 otherwise.
pub fn second_filtration(
    im: &mut [u8],
    im_ne: &[u8],
    lb: &[i32],
    le: &[i32],
    n: usize,
    w: usize,
    h: usize,
    p: &Params,
) -> (res: i32)
    requires
        p.wf(),
        grid::frame_size(w as int, h as int),
        w <= 0x7fff_ffff,
        old(im)@.len() == w * h,
        im_ne@.len() == w * h,
        bands_fit(lb@, le@, n as int, h as int),
    ensures
        (final(im)@, res == 1) == bands_filtered(
            old(im)@,
            im_ne@,
            lb@,
            le@,
            n as nat,
            h as int,
            StripLimits::given_by(*p, w as int),
        ),
        res == 0 || res == 1,
        grid::only_cleared(old(im)@, final(im)@),
{
    let l: StripLimits = strip_limits(p, w);
    let ghost before = im@;
    let mut text: bool = false;
    let mut k: usize = 0;
    while k < n
        invariant
            l.wf(),
            l.w == w,
            grid::frame_size(w as int, h as int),
            before.len() == w * h,
            im_ne@.len() == w * h,
            bands_fit(lb@, le@, n as int, h as int),
            k <= n,
            (im@, text) == bands_filtered(before, im_ne@, lb@, le@, k as nat, h as int, l),
            im@.len() == before.len(),
        decreases n - k,
    {
        let t: bool = filter_band(im, im_ne, lb[k], le[k], w, h, &l);
        text = text || t;
        k = k + 1;
    }
    proof {
        bands_only_lose_pixels(before, im_ne@, lb@, le@, n as nat, h as int, l);
    }
    if text {
        1
    } else {
        0
    }
}

/// The image without the white figures that the mask leaves blank.
pub open spec fn touched_by(im: Seq<u8>, mask: Seq<u8>, w: int) -> Seq<u8> {
    Seq::new(
        im.len(),
        |p: int|
            if im[p] == 255 && !marked_figure(im, mask, w, p) {
                0u8
            } else {
                im[p]
            },
    )
}

/// Whether the mask marks a pixel of the white figure of `p`.
pub open spec fn marked_figure(im: Seq<u8>, mask: Seq<u8>, w: int, p: int) -> bool {
    exists|q: int| #[trigger] figure::linked(im, w, 255, p, q) && mask[q] != 0
}

/// Whether the white figure of `p` reaches over at least `n` column borders.
pub open spec fn spans_cols(im: Seq<u8>, w: int, p: int, n: int) -> bool {
    exists|q: int, r: int|
        #![trigger figure::linked(im, w, 255, p, q), figure::linked(im, w, 255, p, r)]
        figure::linked(im, w, 255, p, q) && figure::linked(im, w, 255, p, r) && grid::col(q, w)
            - grid::col(r, w) >= n
}

/// Whether the white figure of `p` reaches over at least `n` row borders.
pub open spec fn spans_rows(im: Seq<u8>, w: int, p: int, n: int) -> bool {
    exists|q: int, r: int|
        #![trigger figure::linked(im, w, 255, p, q), figure::linked(im, w, 255, p, r)]
        figure::linked(im, w, 255, p, q) && figure::linked(im, w, 255, p, r) && grid::row(q, w)
            - grid::row(r, w) >= n
}

/// Whether the white figure of `p` is at least `min_h` rows high, and more than
/// `segh` rows high and columns wide.
#[verifier::opaque]
pub open spec fn large(im: Seq<u8>, w: int, p: int, min_h: int, segh: int) -> bool {
    &&& spans_rows(im, w, p, min_h - 1)
    &&& spans_cols(im, w, p, segh)
    &&& spans_rows(im, w, p, segh)
}

/// The image without the white figures that are not large.
pub open spec fn without_small(im: Seq<u8>, w: int, min_h: int, segh: int) -> Seq<u8> {
    Seq::new(
        im.len(),
        |p: int|
            if im[p] == 255 && !large(im, w, p, min_h, segh) {
                0u8
            } else {
                im[p]
            },
    )
}

/// Whether the image has a large white figure.
pub open spec fn has_large(im: Seq<u8>, w: int, min_h: int, segh: int) -> bool {
    exists|p: int| 0 <= p < im.len() && #[trigger] im[p] == 255 && large(im, w, p, min_h, segh)
}

/// The pixels of a figure are linked with each other.
proof fn lemma_same_figure(f: Figure, im: Seq<u8>, w: int, p: int, q: int)
    requires
        f.of(im, w, 255),
        f.has(p),
    ensures
        f.has(q) <==> figure::linked(im, w, 255, p, q),
{
    let s = f.points@[0] as int;
    assert(figure::linked(im, w, 255, s, p));
    figure::lemma_linked_symmetric(im, w, 255, s, p);
    if f.has(q) {
        figure::lemma_linked_transitive(im, w, 255, p, s, q);
    }
    if figure::linked(im, w, 255, p, q) {
        figure::lemma_linked_transitive(im, w, 255, s, p, q);
    }
}

/// Blanks the pixels of a figure.
fn erase(im: &mut [u8], f: &Figure)
    requires
        forall|i: int|
            0 <= i < f.points@.len() ==> #[trigger] f.points@[i] < old(im)@.len(),
    ensures
        final(im)@.len() == old(im)@.len(),
        forall|q: int|
            0 <= q < old(im)@.len() ==> #[trigger] final(im)@[q] == if f.has(q) {
                0u8
            } else {
                old(im)@[q]
            },
{
    let ghost before = im@;
    let mut i: usize = 0;
    while i < f.points.len()
        invariant
            i <= f.points@.len(),
            im@.len() == before.len(),
            forall|i: int| 0 <= i < f.points@.len() ==> #[trigger] f.points@[i] < before.len(),
            forall|q: int|
                0 <= q < before.len() ==> #[trigger] im@[q] == if exists|j: int|
                    0 <= j < i && #[trigger] f.points@[j] == q {
                    0u8
                } else {
                    before[q]
                },
        decreases f.points@.len() - i,
    {
        let ghost prev = im@;
        let k: usize = f.points[i];
        im[k] = 0;
        proof {
            assert forall|q: int| 0 <= q < before.len() implies #[trigger] im@[q] == if exists|
                j: int,
            |
                0 <= j < i + 1 && #[trigger] f.points@[j] == q {
                0u8
            } else {
                before[q]
            } by {
                if q == k {
                    assert(f.points@[i as int] == q);
                } else {
                    assert(im@[q] == prev[q]);
                    if exists|j: int| 0 <= j < i && #[trigger] f.points@[j] == q {
                        let j = choose|j: int| 0 <= j < i && #[trigger] f.points@[j] == q;
                        assert(0 <= j < i + 1 && f.points@[j] == q);
                    }
                }
            }
        }
        i = i + 1;
    }
}

proof fn lemma_points_in(f: Figure, im: Seq<u8>, w: int)
    requires
        f.of(im, w, 255),
    ensures
        forall|i: int| 0 <= i < f.points@.len() ==> #[trigger] f.points@[i] < im.len(),
{
    assert forall|i: int| 0 <= i < f.points@.len() implies #[trigger] f.points@[i] < im.len() by {
        assert(f.has(f.points@[i] as int));
        figure::lemma_linked_ends(im, w, 255, f.points@[0] as int, f.points@[i] as int);
    }
}

/// Whether the mask marks a pixel of a figure.
fn is_marked(f: &Figure, mask: &[u8]) -> (r: bool)
    requires
        forall|i: int| 0 <= i < f.points@.len() ==> #[trigger] f.points@[i] < mask@.len(),
    ensures
        r <==> exists|q: int| #[trigger] f.has(q) && mask@[q] != 0,
{
    let mut i: usize = 0;
    while i < f.points.len()
        invariant
            i <= f.points@.len(),
            forall|i: int| 0 <= i < f.points@.len() ==> #[trigger] f.points@[i] < mask@.len(),
            forall|j: int| 0 <= j < i ==> mask@[#[trigger] f.points@[j] as int] == 0,
        decreases f.points@.len() - i,
    {
        if mask[f.points[i]] != 0 {
            proof {
                assert(f.has(f.points@[i as int] as int));
            }
            return true;
        }
        i = i + 1;
    }
    false
}

/// Whether one of the first `k` figures has pixel `q` and is not marked.
#[verifier::opaque]
spec fn dropped(
    figs: Seq<Figure>,
    im: Seq<u8>,
    mask: Seq<u8>,
    w: int,
    k: int,
    q: int,
) -> bool {
    !marked_figure(im, mask, w, q) && exists|i: int| 0 <= i < k && #[trigger] figs[i].has(q)
}

proof fn lemma_dropped_step(
    figs: Seq<Figure>,
    im: Seq<u8>,
    mask: Seq<u8>,
    w: int,
    k: int,
    q: int,
)
    requires
        0 <= k < figs.len(),
    ensures
        !dropped(figs, im, mask, w, 0, q),
        dropped(figs, im, mask, w, k + 1, q) == (dropped(figs, im, mask, w, k, q) || (
        figs[k].has(q) && !marked_figure(im, mask, w, q))),
{
    reveal(dropped);
    if figs[k].has(q) {
        assert(0 <= k < k + 1);
    }
    if exists|i: int| 0 <= i < k && #[trigger] figs[i].has(q) {
        let i = choose|i: int| 0 <= i < k && #[trigger] figs[i].has(q);
        assert(0 <= i < k + 1 && figs[i].has(q));
    }
}

/// A figure is marked if and only if the mask marks one of its pixels.
proof fn lemma_hit(f: Figure, im: Seq<u8>, mask: Seq<u8>, w: int, q: int, hit: bool)
    requires
        f.of(im, w, 255),
        f.has(q),
        hit <==> exists|r: int| #[trigger] f.has(r) && mask[r] != 0,
    ensures
        hit == marked_figure(im, mask, w, q),
{
    if hit {
        let r = choose|r: int| #[trigger] f.has(r) && mask[r] != 0;
        lemma_same_figure(f, im, w, q, r);
    }
    if marked_figure(im, mask, w, q) {
        let r = choose|r: int| #[trigger] figure::linked(im, w, 255, q, r) && mask[r] != 0;
        lemma_same_figure(f, im, w, q, r);
    }
}

proof fn lemma_dropped_all(figs: Seq<Figure>, im: Seq<u8>, mask: Seq<u8>, w: int, q: int)
    requires
        figure::all_figures(figs, im, w, 255),
        0 <= q < im.len(),
    ensures
        touched_by(im, mask, w)[q] == if dropped(figs, im, mask, w, figs.len() as int, q) {
            0u8
        } else {
            im[q]
        },
{
    reveal(dropped);
    if im[q] == 255 {
        let i = choose|i: int| #![trigger figs[i]] 0 <= i < figs.len() && figs[i].has(q);
        assert(figs[i].has(q));
    } else {
        if exists|i: int| 0 <= i < figs.len() && #[trigger] figs[i].has(q) {
            let i = choose|i: int| 0 <= i < figs.len() && #[trigger] figs[i].has(q);
            figure::lemma_linked_ends(im, w, 255, figs[i].points@[0] as int, q);
        }
    }
}

/// Blanks the white figures of `im_inout` that `im_mask` does not mark.
pub fn filter_by_not_intersected_figures(im_inout: &mut [u8], im_mask: &[u8], w: usize, h: usize)
    requires
        grid::frame_size(w as int, h as int),
        old(im_inout)@.len() == w * h,
        im_mask@.len() == w * h,
    ensures
        final(im_inout)@ == touched_by(old(im_inout)@, im_mask@, w as int),
{
    let ghost before = im_inout@;
    let ghost wi = w as int;
    let figs: Vec<Figure> = connected_components(im_inout, w, h, 255);
    let mut k: usize = 0;
    proof {
        assert forall|q: int| 0 <= q < before.len() implies !#[trigger] dropped(
            figs@,
            before,
            im_mask@,
            wi,
            0,
            q,
        ) by {
            reveal(dropped);
        }
    }
    while k < figs.len()
        invariant
            k <= figs@.len(),
            wi == w,
            before.len() == w * h,
            im_mask@.len() == w * h,
            im_inout@.len() == before.len(),
            figure::all_figures(figs@, before, wi, 255),
            forall|q: int|
                0 <= q < before.len() ==> #[trigger] im_inout@[q] == if dropped(
                    figs@,
                    before,
                    im_mask@,
                    wi,
                    k as int,
                    q,
                ) {
                    0u8
                } else {
                    before[q]
                },
        decreases figs@.len() - k,
    {
        let ghost f = figs@[k as int];
        let ghost prev = im_inout@;
        proof {
            lemma_points_in(f, before, wi);
        }
        let hit: bool = is_marked(&figs[k], im_mask);
        if !hit {
            erase(im_inout, &figs[k]);
        }
        proof {
            assert forall|q: int| 0 <= q < before.len() implies #[trigger] im_inout@[q]
                == if dropped(figs@, before, im_mask@, wi, k + 1, q) {
                0u8
            } else {
                before[q]
            } by {
                let _ = prev[q];
                lemma_dropped_step(figs@, before, im_mask@, wi, k as int, q);
                if f.has(q) {
                    lemma_hit(f, before, im_mask@, wi, q, hit);
                }
            }
        }
        k = k + 1;
    }
    proof {
        assert forall|q: int| 0 <= q < before.len() implies im_inout@[q] == touched_by(
            before,
            im_mask@,
            wi,
        )[q] by {
            lemma_dropped_all(figs@, before, im_mask@, wi, q);
            let _ = im_inout@[q];
        }
        assert(im_inout@ =~= touched_by(before, im_mask@, wi));
    }
}

/// The box of a figure says how far the figure reaches.
proof fn lemma_box(f: Figure, im: Seq<u8>, w: int, p: int, n: int)
    requires
        f.of(im, w, 255),
        f.has(p),
    ensures
        f.max_x - f.min_x >= n <==> spans_cols(im, w, p, n),
        f.max_y - f.min_y >= n <==> spans_rows(im, w, p, n),
{
    if spans_cols(im, w, p, n) {
        let (q, r) = choose|q: int, r: int|
            #![trigger figure::linked(im, w, 255, p, q), figure::linked(im, w, 255, p, r)]
            figure::linked(im, w, 255, p, q) && figure::linked(im, w, 255, p, r) && grid::col(q, w)
                - grid::col(r, w) >= n;
        lemma_same_figure(f, im, w, p, q);
        lemma_same_figure(f, im, w, p, r);
    }
    if spans_rows(im, w, p, n) {
        let (q, r) = choose|q: int, r: int|
            #![trigger figure::linked(im, w, 255, p, q), figure::linked(im, w, 255, p, r)]
            figure::linked(im, w, 255, p, q) && figure::linked(im, w, 255, p, r) && grid::row(q, w)
                - grid::row(r, w) >= n;
        lemma_same_figure(f, im, w, p, q);
        lemma_same_figure(f, im, w, p, r);
    }
    let a = choose|i: int|
        #![trigger f.points@[i]]
        0 <= i < f.points@.len() && grid::col(f.points@[i] as int, w) == f.min_x;
    let b = choose|i: int|
        #![trigger f.points@[i]]
        0 <= i < f.points@.len() && grid::col(f.points@[i] as int, w) == f.max_x;
    let c = choose|i: int|
        #![trigger f.points@[i]]
        0 <= i < f.points@.len() && grid::row(f.points@[i] as int, w) == f.min_y;
    let d = choose|i: int|
        #![trigger f.points@[i]]
        0 <= i < f.points@.len() && grid::row(f.points@[i] as int, w) == f.max_y;
    let (pa, pb, pc, pd) = (
        f.points@[a] as int,
        f.points@[b] as int,
        f.points@[c] as int,
        f.points@[d] as int,
    );
    assert(f.has(pa) && f.has(pb) && f.has(pc) && f.has(pd));
    lemma_same_figure(f, im, w, p, pa);
    lemma_same_figure(f, im, w, p, pb);
    lemma_same_figure(f, im, w, p, pc);
    lemma_same_figure(f, im, w, p, pd);
    assert(figure::linked(im, w, 255, p, pb) && figure::linked(im, w, 255, p, pa));
    assert(figure::linked(im, w, 255, p, pd) && figure::linked(im, w, 255, p, pc));
}

/// The box of a figure says whether the figure is large.
proof fn lemma_large(f: Figure, im: Seq<u8>, w: int, p: int, min_h: int, segh: int)
    requires
        f.of(im, w, 255),
        f.has(p),
    ensures
        large(im, w, p, min_h, segh) <==> f.max_y - f.min_y + 1 >= min_h && f.max_x - f.min_x + 1
            > segh && f.max_y - f.min_y + 1 > segh,
{
    reveal(large);
    lemma_box(f, im, w, p, min_h - 1);
    lemma_box(f, im, w, p, segh);
}

/// Blanks the white figures that are not large. Returns 1 when a figure is
/// left, and 0 otherwise.
pub fn clear_image_from_small_symbols(im: &mut [u8], w: usize, h: usize, p: &Params) -> (res: i32)
    requires
        p.wf(),
        grid::frame_size(w as int, h as int),
        old(im)@.len() == w * h,
    ensures
        final(im)@ == without_small(
            old(im)@,
            w as int,
            strip::cap31(p.msh.part_of(h as nat)),
            p.segh as int,
        ),
        (res == 1) == has_large(
            old(im)@,
            w as int,
            strip::cap31(p.msh.part_of(h as nat)),
            p.segh as int,
        ),
        res == 0 || res == 1,
        grid::only_cleared(old(im)@, final(im)@),
{
    let ghost before = im@;
    let ghost wi = w as int;
    proof {
        grid::lemma_sides(wi, h as int);
    }
    let min_h: i64 = part31(p.msh, h);
    let segh: i64 = p.segh as i64;
    let figs: Vec<Figure> = connected_components(im, w, h, 255);
    let mut kept: bool = false;
    let mut k: usize = 0;
    while k < figs.len()
        invariant
            k <= figs@.len(),
            wi == w,
            0 <= min_h <= 0x7fff_ffff,
            1 <= segh <= 0x7fff_ffff,
            before.len() == w * h,
            im@.len() == before.len(),
            figure::all_figures(figs@, before, wi, 255),
            kept <==> exists|i: int|
                #![trigger figs@[i]]
                0 <= i < k && large(
                    before,
                    wi,
                    figs@[i].points@[0] as int,
                    min_h as int,
                    segh as int,
                ),
            forall|q: int|
                0 <= q < before.len() ==> #[trigger] im@[q] == if exists|i: int|
                    0 <= i < k && #[trigger] figs@[i].has(q) && !large(
                        before,
                        wi,
                        q,
                        min_h as int,
                        segh as int,
                    ) {
                    0u8
                } else {
                    before[q]
                },
        decreases figs@.len() - k,
    {
        let ghost f = figs@[k as int];
        let ghost prev = im@;
        proof {
            lemma_points_in(f, before, wi);
            assert(f.has(f.points@[0] as int));
        }
        let height: i64 = figs[k].height() as i64;
        let width: i64 = figs[k].width() as i64;
        let small: bool = height < min_h || width <= segh || height <= segh;
        if small {
            erase(im, &figs[k]);
        } else {
            kept = true;
        }
        proof {
            assert forall|q: int| f.has(q) implies small == !#[trigger] large(
                before,
                wi,
                q,
                min_h as int,
                segh as int,
            ) by {
                lemma_large(f, before, wi, q, min_h as int, segh as int);
            }
            assert(small == !large(
                before,
                wi,
                f.points@[0] as int,
                min_h as int,
                segh as int,
            ));
            assert forall|q: int| 0 <= q < before.len() implies #[trigger] im@[q] == if exists|
                i: int,
            |
                0 <= i < k + 1 && #[trigger] figs@[i].has(q) && !large(
                    before,
                    wi,
                    q,
                    min_h as int,
                    segh as int,
                ) {
                0u8
            } else {
                before[q]
            } by {
                let _ = prev[q];
                let big = large(before, wi, q, min_h as int, segh as int);
                if exists|i: int| 0 <= i < k && #[trigger] figs@[i].has(q) && !big {
                    let i = choose|i: int| 0 <= i < k && #[trigger] figs@[i].has(q) && !big;
                    assert(0 <= i < k + 1 && figs@[i].has(q));
                }
            }
            if kept {
                if small {
                    let i = choose|i: int|
                        #![trigger figs@[i]]
                        0 <= i < k && large(
                            before,
                            wi,
                            figs@[i].points@[0] as int,
                            min_h as int,
                            segh as int,
                        );
                    assert(0 <= i < k + 1);
                } else {
                    assert(figs@[k as int] == f);
                }
            }
        }
        k = k + 1;
    }
    proof {
        let (mh, sh) = (min_h as int, segh as int);
        assert forall|q: int| 0 <= q < before.len() implies im@[q] == without_small(
            before,
            wi,
            mh,
            sh,
        )[q] by {
            if before[q] == 255 {
                let i = choose|i: int|
                    #![trigger figs@[i]]
                    0 <= i < figs@.len() && figs@[i].has(q);
                assert(figs@[i].has(q));
            } else {
                if exists|i: int| 0 <= i < figs@.len() && #[trigger] figs@[i].has(q) {
                    let i = choose|i: int| 0 <= i < figs@.len() && #[trigger] figs@[i].has(q);
                    figure::lemma_linked_ends(before, wi, 255, figs@[i].points@[0] as int, q);
                }
            }
        }
        assert(im@ =~= without_small(before, wi, mh, sh));
        if kept {
            let i = choose|i: int|
                #![trigger figs@[i]]
                0 <= i < figs@.len() && large(before, wi, figs@[i].points@[0] as int, mh, sh);
            let q = figs@[i].points@[0] as int;
            assert(figs@[i].has(q));
            figure::lemma_linked_ends(before, wi, 255, q, q);
            assert(before[q] == 255);
        }
        if has_large(before, wi, mh, sh) {
            let q = choose|q: int|
                0 <= q < before.len() && #[trigger] before[q] == 255 && large(
                    before,
                    wi,
                    q,
                    mh,
                    sh,
                );
            let i = choose|i: int|
                #![trigger figs@[i]]
                0 <= i < figs@.len() && figs@[i].has(q);
            let f = figs@[i];
            assert(f.has(f.points@[0] as int));
            lemma_large(f, before, wi, q, mh, sh);
            lemma_large(f, before, wi, f.points@[0] as int, mh, sh);
        }
    }
    if kept {
        1
    } else {
        0
    }
}

/// Whether a row that is not blank lies at most `dy` rows away from row `y`.
pub open spec fn near_busy_row(im: Seq<u8>, w: int, h: int, dy: int, y: int) -> bool {
    exists|k: int| 0 <= k < h && -dy <= k - y <= dy && #[trigger] lines::busy_row(im, w, k)
}

/// The image with all rows near one that is not blank taken from `orig`.
pub open spec fn restored(im: Seq<u8>, orig: Seq<u8>, w: int, h: int, dy: int) -> Seq<u8> {
    Seq::new(
        im.len(),
        |i: int|
            if near_busy_row(im, w, h, dy, grid::row(i, w)) {
                orig[i]
            } else {
                im[i]
            },
    )
}

/// The distance over which rows are restored in an image of height `h`.
pub open spec fn restore_distance(p: Params, h: int) -> int {
    strip::cap31(p.msh.part_of(h as nat)) + 1
}

/// Takes the rows near one that is not blank from `im_orig`.
fn restore_still_exist_lines(im: &mut [u8], im_orig: &[u8], w: usize, h: usize, p: &Params)
    requires
        p.wf(),
        grid::frame_size(w as int, h as int),
        old(im)@.len() == w * h,
        im_orig@.len() == w * h,
    ensures
        final(im)@ == restored(
            old(im)@,
            im_orig@,
            w as int,
            h as int,
            restore_distance(*p, h as int),
        ),
{
    let ghost before = im@;
    let ghost wi = w as int;
    let ghost hi = h as int;
    proof {
        grid::lemma_sides(wi, hi);
    }
    let dy: i64 = part31(p.msh, h) + 1;
    let busy: Vec<bool> = find_busy_rows(im, w, h);
    let mut y: usize = 0;
    while y < h
        invariant
            grid::frame_size(wi, hi),
            wi == w,
            hi == h,
            h <= 0x7fff_ffff,
            before.len() == w * h,
            im@.len() == before.len(),
            im_orig@.len() == w * h,
            busy@ == lines::busy_rows(before, wi, hi),
            1 <= dy <= 0x8000_0000,
            y <= h,
            forall|i: int|
                #![trigger im@[i]]
                0 <= i < before.len() ==> im@[i] == if grid::row(i, wi) < y {
                    restored(before, im_orig@, wi, hi, dy as int)[i]
                } else {
                    before[i]
                },
        decreases h - y,
    {
        let lo: usize = if (y as i64) < dy {
            0
        } else {
            (y as i64 - dy) as usize
        };
        let hi_row: usize = if y as i64 + dy < h as i64 - 1 {
            (y as i64 + dy) as usize
        } else {
            h - 1
        };
        let mut found: bool = false;
        let mut k: usize = lo;
        while k <= hi_row && !found
            invariant
                h <= 0x7fff_ffff,
                hi == h,
                busy@ == lines::busy_rows(before, wi, hi),
                y < h,
                1 <= dy <= 0x8000_0000,
                hi_row < h,
                lo <= k <= hi_row + 1,
                lo <= y <= hi_row,
                forall|j: int| lo <= j <= hi_row <==> 0 <= j < h && -dy <= #[trigger] (j - y) <= dy,
                found ==> near_busy_row(before, wi, hi, dy as int, y as int),
                !found ==> forall|j: int|
                    lo <= j < k ==> !#[trigger] lines::busy_row(before, wi, j),
            decreases hi_row + 1 - k, (if found { 0int } else { 1int }),
        {
            if busy[k] {
                found = true;
                proof {
                    assert(lines::busy_row(before, wi, k as int));
                    assert(-dy <= k - y <= dy);
                }
            } else {
                k = k + 1;
            }
        }
        proof {
            assert(found == near_busy_row(before, wi, hi, dy as int, y as int)) by {
                if near_busy_row(before, wi, hi, dy as int, y as int) {
                    let j = choose|j: int|
                        0 <= j < hi && -dy <= j - y <= dy && #[trigger] lines::busy_row(
                            before,
                            wi,
                            j,
                        );
                    assert(-dy <= (j - y) <= dy);
                    assert(lo <= j <= hi_row);
                }
            }
            grid::lemma_at(0, y as int, wi, hi);
            grid::lemma_row_start(y as int, wi, hi);
        }
        if found {
            let base: usize = y * w;
            let mut x: usize = 0;
            while x < w
                invariant
                    grid::frame_size(wi, hi),
                    wi == w,
                    hi == h,
                    before.len() == w * h,
                    im@.len() == before.len(),
                    im_orig@.len() == w * h,
                    y < h,
                    base == y * w,
                    base + w <= before.len(),
                    x <= w,
                    near_busy_row(before, wi, hi, dy as int, y as int),
                    forall|i: int|
                        #![trigger im@[i]]
                        0 <= i < before.len() ==> im@[i] == if grid::row(i, wi) < y || (grid::row(
                            i,
                            wi,
                        ) == y && grid::col(i, wi) < x) {
                            restored(before, im_orig@, wi, hi, dy as int)[i]
                        } else {
                            before[i]
                        },
                decreases w - x,
            {
                let ghost prev = im@;
                im[base + x] = im_orig[base + x];
                proof {
                    grid::lemma_at(x as int, y as int, wi, hi);
                    assert forall|i: int|
                        #![trigger im@[i]]
                        0 <= i < before.len() implies im@[i] == if grid::row(i, wi) < y || (
                    grid::row(i, wi) == y && grid::col(i, wi) < x + 1) {
                        restored(before, im_orig@, wi, hi, dy as int)[i]
                    } else {
                        before[i]
                    } by {
                        grid::lemma_of(i, wi, hi);
                        if i != base + x {
                            assert(im@[i] == prev[i]);
                        }
                    }
                }
                x = x + 1;
            }
        }
        proof {
            assert forall|i: int|
                #![trigger im@[i]]
                0 <= i < before.len() implies im@[i] == if grid::row(i, wi) < y + 1 {
                restored(before, im_orig@, wi, hi, dy as int)[i]
            } else {
                before[i]
            } by {
                grid::lemma_of(i, wi, hi);
            }
        }
        y = y + 1;
    }
    proof {
        assert forall|i: int| 0 <= i < before.len() implies im@[i] == restored(
            before,
            im_orig@,
            wi,
            hi,
            dy as int,
        )[i] by {
            grid::lemma_of(i, wi, hi);
        }
        assert(im@ =~= restored(before, im_orig@, wi, hi, dy as int));
    }
}

/// Whether a pixel lies in one of the boxes.
pub open spec fn in_lines(ts: Seq<TextLine>, w: int, i: int) -> bool {
    exists|k: int|
        #![trigger ts[k]]
        0 <= k < ts.len() && ts[k].top <= grid::row(i, w) <= ts[k].bottom && ts[k].left
            <= grid::col(i, w) <= ts[k].right
}

/// `im` with all pixels of its text lines painted white that `source` does not
/// leave blank. Lines close to each other count as one.
pub open spec fn extended(im: Seq<u8>, source: Seq<u8>, w: int, h: int) -> Seq<u8> {
    let found = lines::text_lines(im, w, h);
    let ts = lines::merged(found, found.len() - 2);
    Seq::new(
        im.len(),
        |i: int|
            if source[i] != 0 && in_lines(ts, w, i) {
                255u8
            } else {
                im[i]
            },
    )
}

/// Whether a pixel lies in one of the boxes.
fn is_in_lines(ts: &Vec<TextLine>, x: usize, y: usize, Ghost(w): Ghost<int>, Ghost(i): Ghost<int>) -> (r:
    bool)
    requires
        x == grid::col(i, w),
        y == grid::row(i, w),
    ensures
        r == in_lines(ts@, w, i),
{
    let mut k: usize = 0;
    while k < ts.len()
        invariant
            k <= ts@.len(),
            x == grid::col(i, w),
            y == grid::row(i, w),
            forall|j: int|
                #![trigger ts@[j]]
                0 <= j < k ==> !(ts@[j].top <= y <= ts@[j].bottom && ts@[j].left <= x
                    <= ts@[j].right),
        decreases ts@.len() - k,
    {
        let t: TextLine = ts[k];
        if t.top as i128 <= y as i128 && y as i128 <= t.bottom as i128 && t.left as i128
            <= x as i128 && x as i128 <= t.right as i128 {
            return true;
        }
        k = k + 1;
    }
    false
}

/// Paints the pixels of the text lines of `im_f` white that `im_nf` does not
/// leave blank.
pub fn extend_imf_with_data_from_imnf(im_f: &mut [u8], im_nf: &[u8], w: usize, h: usize)
    requires
        grid::frame_size(w as int, h as int),
        old(im_f)@.len() == w * h,
        im_nf@.len() == w * h,
    ensures
        final(im_f)@ == extended(old(im_f)@, im_nf@, w as int, h as int),
{
    let ghost before = im_f@;
    let ghost wi = w as int;
    let ghost hi = h as int;
    let mut ts: Vec<TextLine> = find_text_lines(im_f, w, h);
    proof {
        grid::lemma_sides(wi, hi);
        if h == 0 {
            assert(wi * 0 == 0);
            assert(lines::busy_rows(before, wi, hi).len() == 0);
        }
    }
    let size: usize = im_f.len();
    if size == 0 {
        proof {
            assert(im_f@ =~= extended(before, im_nf@, wi, hi));
        }
        return;
    }
    proof {
        assert(h > 0) by (nonlinear_arith)
            requires
                w * h > 0,
                w >= 0,
                h >= 0,
        ;
    }
    merge_lines(&mut ts, Ghost(wi), Ghost(hi));
    let mut i: usize = 0;
    while i < size
        invariant
            grid::frame_size(wi, hi),
            wi == w,
            before.len() == w * h,
            size == before.len(),
            im_f@.len() == before.len(),
            im_nf@.len() == w * h,
            i <= size,
            ts@ == lines::merged(
                lines::text_lines(before, wi, hi),
                lines::text_lines(before, wi, hi).len() - 2,
            ),
            forall|j: int|
                #![trigger im_f@[j]]
                0 <= j < size ==> im_f@[j] == if j < i {
                    extended(before, im_nf@, wi, hi)[j]
                } else {
                    before[j]
                },
        decreases size - i,
    {
        if im_nf[i] != 0 && is_in_lines(&ts, i % w, i / w, Ghost(wi), Ghost(i as int)) {
            im_f[i] = 255;
        }
        i = i + 1;
    }
    assert(im_f@ =~= extended(before, im_nf@, wi, hi));
}

/// The outcome of filtering the text areas of a frame.
#[verifier::ext_equal]
pub struct Filtered {
    /// The areas after the cleaning of strips.
    pub sf: Seq<u8>,
    /// The final areas, where the cleaning of strips left text.
    pub tf: Option<Seq<u8>>,
    /// Whether text is left.
    pub text: bool,
}

/// The text areas of a frame, filtered.
///
/// Areas far from edges go first. What the cleaning of strips leaves is joined
/// with the figures that it belongs to, as far as these are near a line that
/// is left, and freed of small figures. The lines then left are filled up.
pub open spec fn filtered(
    sf: Seq<u8>,
    ne: Seq<u8>,
    lb: Seq<i32>,
    le: Seq<i32>,
    n: nat,
    w: int,
    h: int,
    p: Params,
) -> Filtered {
    let reach = strip::cap31(p.min_h.part_of(h as nat)) / 2;
    let dy = restore_distance(p, h);
    let min_h = strip::cap31(p.msh.part_of(h as nat));
    let areas = imgops::masked(sf, imgops::dilated(ne, w, reach), 0u8);
    let (cleaned, some) = bands_filtered(
        areas,
        ne,
        lb,
        le,
        n,
        h,
        StripLimits::given_by(p, w),
    );
    if !some {
        Filtered { sf: cleaned, tf: None, text: false }
    } else {
        let whole = touched_by(restored(cleaned, areas, w, h, dy), cleaned, w);
        let big = without_small(whole, w, min_h, p.segh as int);
        if !has_large(whole, w, min_h, p.segh as int) {
            Filtered { sf: cleaned, tf: Some(big), text: false }
        } else {
            Filtered {
                sf: cleaned,
                tf: Some(extended(restored(big, whole, w, h, dy), areas, w, h)),
                text: true,
            }
        }
    }
}

/// Filters the text areas of a frame. `im_sf` becomes the areas after the
/// cleaning of strips. `im_tf` becomes the final areas, and is left alone when
/// the cleaning of strips leaves no text. Returns 1 when text is left, and 0
/// otherwise.
pub fn filter_transformed_image(
    _im_ff: &[u8],
    im_sf: &mut [u8],
    im_tf: &mut [u8],
    im_ne: &[u8],
    lb: &[i32],
    le: &[i32],
    n: usize,
    w: usize,
    h: usize,
    p: &Params,
) -> (res: i32)
    requires
        p.wf(),
        grid::frame_size(w as int, h as int),
        w <= 0x7fff_ffff,
        old(im_sf)@.len() == w * h,
        old(im_tf)@.len() == w * h,
        im_ne@.len() == w * h,
        bands_fit(lb@, le@, n as int, h as int),
    ensures
        ({
            let f = filtered(
                old(im_sf)@,
                im_ne@,
                lb@,
                le@,
                n as nat,
                w as int,
                h as int,
                *p,
            );
            &&& final(im_sf)@ == f.sf
            &&& final(im_tf)@ == if f.tf is Some {
                f.tf->0
            } else {
                old(im_tf)@
            }
            &&& (res == 1) == f.text
        }),
        res == 0 || res == 1,
        final(im_sf)@.len() == w * h,
        final(im_tf)@.len() == w * h,
{
    proof {
        grid::lemma_sides(w as int, h as int);
    }
    let reach: i64 = part31(p.min_h, h) / 2;
    let wide: Vec<u8> = dilate(im_ne, w, h, reach as i32);
    intersect_two_images_inplace(im_sf, wide.as_slice(), 0u8);
    let areas: Vec<u8> = copy(im_sf);
    if second_filtration(im_sf, im_ne, lb, le, n, w, h, p) == 0 {
        return 0;
    }
    overwrite(im_tf, im_sf);
    restore_still_exist_lines(im_tf, areas.as_slice(), w, h, p);
    filter_by_not_intersected_figures(im_tf, im_sf, w, h);
    let whole: Vec<u8> = copy(im_tf);
    if clear_image_from_small_symbols(im_tf, w, h, p) == 0 {
        return 0;
    }
    restore_still_exist_lines(im_tf, whole.as_slice(), w, h, p);
    extend_imf_with_data_from_imnf(im_tf, areas.as_slice(), w, h);
    1
}

/// The text areas of a whole frame, filtered, and whether text is left. The
/// areas are those of `isa` with a brightness in `il`.
pub open spec fn presence(
    ne: Seq<u8>,
    isa: Seq<u8>,
    il: Seq<u16>,
    w: int,
    h: int,
    p: Params,
) -> (Seq<u8>, bool) {
    let f = filtered(
        imgops::masked(isa, il, 0u8),
        ne,
        seq![0i32],
        seq![(h - 1) as i32],
        1,
        w,
        h,
        p,
    );
    (
        if f.tf is Some {
            f.tf->0
        } else {
            Seq::new(isa.len(), |i: int| 0u8)
        },
        f.text,
    )
}

/// Decides whether the text areas of a frame hold a subtitle, and replaces
/// them by the filtered areas. Returns 1 when they do, and 0 otherwise.
pub fn analize_for_sub_presence(
    im_ne: &[u8],
    im_isa: &mut [u8],
    im_il: &[u16],
    w: usize,
    h: usize,
    p: &Params,
) -> (res: i32)
    requires
        p.wf(),
        grid::frame_size(w as int, h as int),
        w <= 0x7fff_ffff,
        old(im_isa)@.len() == w * h,
        im_ne@.len() == w * h,
    ensures
        (final(im_isa)@, res == 1) == presence(
            im_ne@,
            old(im_isa)@,
            im_il@,
            w as int,
            h as int,
            *p,
        ),
        res == 0 || res == 1,
        final(im_isa)@.len() == w * h,
{
    proof {
        grid::lemma_sides(w as int, h as int);
    }
    let mut im_sf: Vec<u8> = copy(im_isa);
    intersect_two_images_inplace(im_sf.as_mut_slice(), im_il, 0u8);
    let mut im_tf: Vec<u8> = vec![0u8; im_isa.len()];
    let lb: Vec<i32> = vec![0i32];
    let le: Vec<i32> = vec![(h as i64 - 1) as i32];
    proof {
        assert(lb@ =~= seq![0i32]);
        assert(le@ =~= seq![(h - 1) as i32]);
        assert(im_tf@ =~= Seq::new(old(im_isa)@.len(), |i: int| 0u8));
    }
    let im_ff: Vec<u8> = copy(im_sf.as_slice());
    let res: i32 = filter_transformed_image(
        im_ff.as_slice(),
        im_sf.as_mut_slice(),
        im_tf.as_mut_slice(),
        im_ne,
        lb.as_slice(),
        le.as_slice(),
        1,
        w,
        h,
        p,
    );
    overwrite(im_isa, im_tf.as_slice());
    res
}

} // verus!
