//! What the operations on images do with one pixel.
use super::cache;
use super::edges;
use super::grid;
use super::imgops;
use super::params::Params;
use super::state;
use super::threshold;
use vstd::prelude::*;

verus! {

/// A pixel is blanked where the other image is blank, and stays elsewhere.
pub proof fn masks_keep_what_both_have(a: Seq<u8>, b: Seq<u8>, c: Seq<u16>, i: int)
    requires
        0 <= i < a.len(),
        a.len() == b.len(),
        a.len() == c.len(),
    ensures
        imgops::masked(a, b, 0u8).len() == a.len(),
        imgops::masked(a, b, 0u8)[i] == if b[i] == 0 {
            0u8
        } else {
            a[i]
        },
        imgops::masked(a, c, 0u8)[i] == if c[i] == 0 {
            0u8
        } else {
            a[i]
        },
{
}

/// A pixel of a union is white where the second image is, and that of the first
/// one elsewhere; a combination adds to blank pixels only.
pub proof fn unions_have_what_either_has(a: Seq<u8>, b: Seq<u8>, i: int)
    requires
        0 <= i < a.len(),
        a.len() == b.len(),
    ensures
        imgops::union(a, b, a.len()).len() == a.len(),
        imgops::union(a, b, a.len())[i] == 255 <==> a[i] == 255 || b[i] == 255,
        b[i] != 255 ==> imgops::union(a, b, a.len())[i] == a[i],
        imgops::combined(a, b, 255)[i] == if a[i] == 0 && b[i] != 0 {
            255u8
        } else {
            a[i]
        },
{
}

/// A brightness stays if the other one is not darker by more than the one bound
/// nor brighter by more than the other.
pub proof fn steady_brightness_stays(a: Seq<u16>, b: Seq<u16>, down: int, up: int, i: int)
    requires
        0 <= i < a.len(),
        a.len() == b.len(),
    ensures
        imgops::steady_in(a, b, down, up).len() == a.len(),
        imgops::steady_in(a, b, down, up)[i] == if a[i] - b[i] > down || b[i] - a[i] > up {
            0u16
        } else {
            a[i]
        },
{
}

/// Whether a marked pixel of an image stands at most `n` columns and `n` rows from
/// a place.
pub open spec fn marked_nearby(im: Seq<u8>, w: int, h: int, n: int, x: int, y: int) -> bool {
    exists|a: int, b: int|
        0 <= a < w && 0 <= b < h && -n <= a - x <= n && -n <= b - y <= n && #[trigger] im[b * w + a]
            != 0
}

/// Dilating makes white what stands near a marked pixel, and nothing else.
pub proof fn dilation_reaches_its_distance(im: Seq<u8>, w: int, h: int, n: int, x: int, y: int)
    requires
        im.len() == w * h,
        0 <= x < w,
        0 <= y < h,
        n > 0,
    ensures
        imgops::dilated(im, w, n).len() == im.len(),
        imgops::dilated(im, w, n)[y * w + x] == if marked_nearby(im, w, h, n, x, y) {
            255u8
        } else {
            0u8
        },
        imgops::dilated(im, w, 0) == im,
{
    let q = y * w + x;
    grid::lemma_at(x, y, w, h);
    if imgops::covered(im, w, n, q) {
        let p = choose|p: int|
            0 <= p < im.len() && #[trigger] im[p] != 0 && imgops::near(p, q, n, w);
        grid::lemma_of(p, w, h);
        assert(im[grid::row(p, w) * w + grid::col(p, w)] != 0);
        assert(marked_nearby(im, w, h, n, x, y));
    }
    if marked_nearby(im, w, h, n, x, y) {
        let (a, b) = choose|a: int, b: int|
            0 <= a < w && 0 <= b < h && -n <= a - x <= n && -n <= b - y <= n
                && #[trigger] im[b * w + a] != 0;
        grid::lemma_at(a, b, w, h);
        let p = b * w + a;
        assert(im[p] != 0 && imgops::near(p, q, n, w));
    }
}

/// A border is blanked on all four sides, and nothing within it.
pub proof fn borders_are_cleared(im: Seq<u8>, d: int, w: int, h: int, x: int, y: int)
    requires
        im.len() == w * h,
        0 <= x < w,
        0 <= y < h,
    ensures
        edges::bordered(im, d, w, h).len() == im.len(),
        edges::bordered(im, d, w, h)[y * w + x] == if x < d || y < d || x >= w - d || y >= h - d {
            0u8
        } else {
            im[y * w + x]
        },
{
    grid::lemma_at(x, y, w, h);
}

/// The edges of the three planes add up, those of the two color planes weighted;
/// mean edges are half of both; marked edges are those of either direction. None
/// of them stands on the border.
pub proof fn edges_add_up(
    a: Seq<u16>,
    b: Seq<u16>,
    c: Seq<u16>,
    k: int,
    w: int,
    h: int,
    x: int,
    y: int,
)
    requires
        a.len() == w * h,
        b.len() == w * h,
        c.len() == w * h,
        0 <= x < w,
        0 <= y < h,
        0 <= k <= 5,
        edges::edges_fit(a, w * h),
        edges::edges_fit(b, w * h),
        edges::edges_fit(c, w * h),
    ensures
        ({
            let i = y * w + x;
            let in_one = 1 <= x < w - 1 && 1 <= y < h - 1;
            let in_two = 2 <= x < w - 2 && 2 <= y < h - 2;
            &&& edges::summed(a, b, c, k, w, h)[i] == if in_one {
                a[i] + k * b[i] + k * c[i]
            } else {
                0
            }
            &&& in_two ==> 0 <= a[i] + b[i] - 2 * edges::averaged(a, b, w, h)[i] <= 1
            &&& !in_two ==> edges::averaged(a, b, w, h)[i] == 0
            &&& edges::either(a, b, w, h)[i] == if in_one && (a[i] > 0 || b[i] > 0) {
                255u8
            } else {
                0u8
            }
        }),
{
    let i = y * w + x;
    grid::lemma_at(x, y, w, h);
    assert(a[i] < 4096 && b[i] < 4096 && c[i] < 4096);
    let u = b[i] as int;
    let v = c[i] as int;
    assert((u + v) * k == k * u + k * v && 0 <= k * u <= 5 * 4095 && 0 <= k * v <= 5 * 4095)
        by (nonlinear_arith)
        requires
            0 <= k <= 5,
            0 <= u <= 4095,
            0 <= v <= 4095,
    ;
}

/// The bands of text are aligned to strips: each begins at most a strip earlier,
/// at a multiple of their height, and ends at a multiple too, less than a strip
/// later, unless the frame ends before; the last one leaves room for a strip.
pub proof fn bands_are_aligned_to_strips(lb: Seq<i32>, le: Seq<i32>, segh: int, h: int, k: int)
    requires
        1 <= segh <= h <= 0x7fff_ffff,
        0 <= k < lb.len(),
        lb.len() == le.len(),
        0 <= lb[k] <= le[k] < h,
    ensures
        (edges::aligned_firsts(lb, segh)[k] as int) % segh == 0,
        lb[k] - segh < edges::aligned_firsts(lb, segh)[k] <= lb[k],
        ({
            let e = edges::aligned_ends(le, segh, h)[k] as int;
            let last = k == le.len() - 1;
            &&& !last || e < h - segh ==> le[k] <= e < le[k] + segh && e < h
            &&& last ==> e <= h - segh
            &&& !last && e != le[k] ==> e % segh == 0
            &&& last && e != le[k] && e != h - segh ==> e % segh == 0
        }),
{
    let b = lb[k] as int;
    let e = le[k] as int;
    lemma_multiple(b, segh);
    lemma_multiple(e, segh);
}

proof fn lemma_multiple(v: int, d: int)
    requires
        d >= 1,
        v >= 0,
    ensures
        0 <= v % d < d,
        v % d <= v,
        (v - v % d) % d == 0,
        (v + (d - v % d)) % d == 0,
{
    let q = v / d;
    vstd::arithmetic::div_mod::lemma_fundamental_div_mod(v, d);
    vstd::arithmetic::div_mod::lemma_mod_bound(v, d);
    vstd::arithmetic::div_mod::lemma_div_pos_is_pos(v, d);
    vstd::arithmetic::div_mod::lemma_mod_multiples_basic(q, d);
    vstd::arithmetic::div_mod::lemma_mod_multiples_basic(q + 1, d);
    assert(d * q == q * d && (q + 1) * d == q * d + d && q * d >= 0) by (nonlinear_arith)
        requires
            q >= 0,
            d >= 1,
    ;
}

/// An edge is kept or blanked, never changed.
pub proof fn thresholds_only_blank(im: Seq<u16>, dw: int, dh: int, w: int, h: int, i: int)
    requires
        0 <= i < im.len(),
    ensures
        threshold::thresholded(im, dw, dh, w, h).len() == im.len(),
        threshold::thresholded(im, dw, dh, w, h)[i] == 0 || threshold::thresholded(
            im,
            dw,
            dh,
            w,
            h,
        )[i] == im[i],
{
}

/// Of text areas those pixels stay white that are white in all images, and of a
/// brightness those that stay within the bounds in all of them.
pub proof fn only_what_lasts_stays(
    im: Seq<u8>,
    ims: Seq<Seq<u8>>,
    y: Seq<u16>,
    ys: Seq<Seq<u16>>,
    p: Params,
    i: int,
    k: int,
)
    requires
        0 <= i < im.len(),
        im.len() == y.len(),
        0 <= k < ims.len(),
        ims.len() == ys.len(),
    ensures
        ({
            let r = state::white_in_all(im, ims);
            let s = state::steady_in_all(y, ys, p);
            &&& r.len() == im.len()
            &&& s.len() == y.len()
            &&& r[i] == 255 ==> im[i] == 255 && ims[k][i] == 255
            &&& im[i] == 255 && (forall|j: int|
                0 <= j < ims.len() ==> (#[trigger] ims[j])[i] == 255) ==> r[i] == 255
            &&& im[i] != 255 ==> r[i] == im[i]
            &&& s[i] != 0 ==> s[i] == y[i] && y[i] - ys[k][i] <= p.max_dl_down && ys[k][i] - y[i]
                <= p.max_dl_up
            &&& (forall|j: int|
                0 <= j < ys.len() ==> y[i] - (#[trigger] ys[j])[i] <= p.max_dl_down && ys[j][i]
                    - y[i] <= p.max_dl_up) ==> s[i] == y[i]
        }),
{
    let a = ims[k];
    let b = ys[k];
}

/// The brightness of a frame with text is kept above the values of pixels, so that
/// none is blank; that of a frame without text is.
pub proof fn brightness_is_kept_of_text(luma: Seq<u8>, i: int)
    requires
        0 <= i < luma.len(),
    ensures
        cache::brightness(luma, true)[i] == luma[i] + 255,
        cache::brightness(luma, true).len() == luma.len(),
        cache::brightness(luma, false)[i] == 0,
{
}

/// Where the last band has no room for a strip behind it, the rows that the strips
/// cannot reach are blanked; else nothing is.
pub proof fn rows_without_room_are_cut(
    im: Seq<u8>,
    le: Seq<i32>,
    segh: int,
    w: int,
    h: int,
    i: int,
)
    requires
        0 <= i < im.len(),
        le.len() > 0,
        1 <= segh <= h,
        0 <= le[le.len() - 1] < h,
    ensures
        le[le.len() - 1] + 2 * segh <= h ==> edges::cut_below(im, le, segh, w, h)[i] == im[i],
        le[le.len() - 1] + segh > h ==> edges::cut_below(im, le, segh, w, h)[i] == if i >= w * (h
            - segh + 1) {
            0u8
        } else {
            im[i]
        },
{
    let e = le[le.len() - 1] as int;
    lemma_multiple(e, segh);
}

} // verus!
