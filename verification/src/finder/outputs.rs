//! What the parts of a frame and the lists of subtitles are put together from.
use super::clock;
use super::edges;
use super::grid;
use super::output;
use super::output::Interval;
use super::plane;
use super::single::Single;
use super::text_rows;
use super::transform;
use crate::text::decimal;
use crate::text::pieces;
use crate::text::strings;
use vstd::prelude::*;

verus! {

/// Reading a picture the other way round swaps red and blue of each pixel, and
/// doing so twice brings it back.
pub proof fn red_and_blue_are_swapped(bytes: Seq<u8>, k: int)
    requires
        0 <= k,
        3 * k + 2 < bytes.len(),
        bytes.len() % 3 == 0,
    ensures
        plane::reordered(bytes, 2, 1, 0).len() == bytes.len(),
        plane::reordered(bytes, 2, 1, 0)[3 * k] == bytes[3 * k + 2],
        plane::reordered(bytes, 2, 1, 0)[3 * k + 1] == bytes[3 * k + 1],
        plane::reordered(bytes, 2, 1, 0)[3 * k + 2] == bytes[3 * k],
        plane::reordered(plane::reordered(bytes, 2, 1, 0), 2, 1, 0) == bytes,
{
    let r = plane::reordered(bytes, 2, 1, 0);
    let s = plane::reordered(r, 2, 1, 0);
    lemma_swapped(bytes, k);
    assert forall|i: int| 0 <= i < bytes.len() implies s[i] == bytes[i] by {
        let q = i / 3;
        lemma_swapped(bytes, q);
        lemma_swapped(r, q);
        assert(i == 3 * q || i == 3 * q + 1 || i == 3 * q + 2);
    }
    assert(s =~= bytes);
}

proof fn lemma_swapped(bytes: Seq<u8>, k: int)
    requires
        0 <= k,
        3 * k + 2 < bytes.len(),
    ensures
        plane::reordered(bytes, 2, 1, 0)[3 * k] == bytes[3 * k + 2],
        plane::reordered(bytes, 2, 1, 0)[3 * k + 1] == bytes[3 * k + 1],
        plane::reordered(bytes, 2, 1, 0)[3 * k + 2] == bytes[3 * k],
{
    let r = plane::reordered(bytes, 2, 1, 0);
    let a = 3 * k;
    assert(a % 3 == 0);
    assert((a + 1) % 3 == 1);
    assert((a + 2) % 3 == 2);
    assert(r[a] == bytes[a - 0 + 2]);
    assert(r[a + 1] == bytes[a + 1 - 1 + 1]);
    assert(r[a + 2] == bytes[a + 2 - 2 + 0]);
}

/// Each subtitle has a line of its own in the list, with both times, in order.
pub proof fn each_subtitle_has_its_line(s: Seq<Interval>, t: Interval)
    ensures
        output::timeline_of(Seq::empty()).len() == 0,
        output::timeline_of(s.push(t)) == output::timeline_of(s) + decimal::digits(
            t.start_ms as nat,
        ) + seq![','] + decimal::digits(t.end_ms as nat) + seq!['\n'],
{
    assert(s.push(t).drop_last() =~= s);
    assert(output::timeline_of(s.push(t)) =~= output::timeline_of(s) + decimal::digits(
        t.start_ms as nat,
    ) + seq![','] + decimal::digits(t.end_ms as nat) + seq!['\n']);
}

/// A quotient is rounded to the next whole number, and frames are timed that way.
pub proof fn times_are_rounded_to_the_next(n: int, d: int, count: int, fps: int)
    requires
        d > 0,
        count >= 0,
    ensures
        -d <= 2 * (n - d * clock::nearest(n, d)) < d,
        fps > 0 ==> -fps <= 2 * (count * 1_000_000_000_000 - fps * clock::counted_time(count, fps))
            < fps,
        fps <= 0 ==> 0 <= count * 1000 - 30 * clock::counted_time(count, fps) < 30,
{
    lemma_next(n, d);
    if fps > 0 {
        let m = count * 1_000_000_000_000;
        assert(count * 1000 * 1_000_000_000 == m) by (nonlinear_arith)
            requires
                m == count * 1_000_000_000_000,
        ;
        assert(crate::ocr::fixed::ONE == 1_000_000_000);
        lemma_next(m, fps);
    }
}

proof fn lemma_next(n: int, d: int)
    requires
        d > 0,
    ensures
        -d <= 2 * (n - d * clock::nearest(n, d)) < d,
{
    let m = 2 * n + d;
    let e = 2 * d;
    let q = m / e;
    assert(q * e <= m < q * e + e) by (nonlinear_arith)
        requires
            q == m / e,
            e > 0,
    ;
    assert(q * e == 2 * (d * q)) by (nonlinear_arith)
        requires
            e == 2 * d,
    ;
}

/// The bands of a frame stand one behind the other: the first at the start, each
/// behind all rows of the one before it.
pub proof fn bands_stand_behind_one_another(bs: Seq<(i32, i32)>, w: int, h: int, k: int)
    requires
        text_rows::stacked(bs, h),
        w >= 1,
        h >= 0,
        w * h <= usize::MAX,
        0 <= k < bs.len(),
    ensures
        edges::starts(bs, w).len() == bs.len(),
        edges::heights(bs)[k] == bs[k].1 - bs[k].0 + 1,
        edges::starts(bs, w)[0] == 0,
        k + 1 < bs.len() ==> edges::starts(bs, w)[k + 1] == edges::starts(bs, w)[k] + w * (bs[k].1
            - bs[k].0 + 1),
{
    edges::lemma_area(bs, w, h);
    edges::lemma_area_grows(bs, w, h, k);
    lemma_taken(bs, h, k);
    edges::lemma_area(bs.take(k), w, h);
    assert(bs.take(0) =~= Seq::<(i32, i32)>::empty());
    assert(edges::area(bs.take(0), w) == 0);
    assert(0 <= bs[k].0 <= bs[k].1 < h);
    assert(h <= w * h) by (nonlinear_arith)
        requires
            w >= 1,
            h >= 0,
    ;
    if k + 1 < bs.len() {
        edges::lemma_area_grows(bs, w, h, k + 1);
        lemma_taken(bs, h, k + 1);
        edges::lemma_area(bs.take(k + 1), w, h);
        assert(bs.take(k + 1).drop_last() =~= bs.take(k));
        assert(bs.take(k + 1).last() == bs[k]);
    }
}

proof fn lemma_taken(bs: Seq<(i32, i32)>, h: int, k: int)
    requires
        text_rows::stacked(bs, h),
        0 <= k <= bs.len(),
    ensures
        text_rows::stacked(bs.take(k), h),
{
    let t = bs.take(k);
    assert forall|i: int| #![trigger t[i]] 0 <= i < t.len() implies 0 <= t[i].0 <= t[i].1 < h by {
        assert(t[i] == bs[i]);
    }
    assert forall|i: int, j: int|
        #![trigger t[i], t[j]]
        0 <= i < j < t.len() implies t[i].1 < t[j].0 by {
        assert(t[i] == bs[i] && t[j] == bs[j]);
    }
}

/// Where a pixel of a band stands among the pixels of all bands.
pub open spec fn place_of(bs: Seq<(i32, i32)>, w: int, k: int, i: int) -> int {
    edges::area(bs.take(k), w) + i - w * bs[k].0
}

/// Edges found in the bands are put back to the pixels that they were found at: a
/// pixel of a band is white if there is an edge of either kind at its place, and
/// no pixel outside the bands is.
pub proof fn edges_go_back_to_their_pixels(
    a: Seq<u16>,
    b: Seq<u16>,
    bs: Seq<(i32, i32)>,
    w: int,
    h: int,
    i: int,
)
    requires
        text_rows::stacked(bs, h),
        w >= 1,
        0 <= i < w * h,
    ensures
        forall|k: int|
            0 <= k < bs.len() && w * (#[trigger] bs[k]).0 <= i < w * (bs[k].1 + 1) ==> edges::spread(
                a,
                b,
                bs,
                w,
                h,
            )[i] == if a[place_of(bs, w, k, i)] > 0 || b[place_of(bs, w, k, i)] > 0 {
                255u8
            } else {
                0u8
            },
        (forall|k: int|
            0 <= k < bs.len() ==> !(w * (#[trigger] bs[k]).0 <= i < w * (bs[k].1 + 1)))
            ==> edges::spread(a, b, bs, w, h)[i] == 0,
{
    assert(edges::spread(a, b, bs, w, h)[i] == edges::put_back(a, b, bs, w, i));
    lemma_put_back(a, b, bs, w, h, i);
}

proof fn lemma_put_back(
    a: Seq<u16>,
    b: Seq<u16>,
    bs: Seq<(i32, i32)>,
    w: int,
    h: int,
    i: int,
)
    requires
        text_rows::stacked(bs, h),
        w >= 1,
    ensures
        forall|k: int|
            0 <= k < bs.len() && w * (#[trigger] bs[k]).0 <= i < w * (bs[k].1 + 1)
                ==> edges::put_back(a, b, bs, w, i) == if a[place_of(bs, w, k, i)] > 0
                || b[place_of(bs, w, k, i)] > 0 {
                255u8
            } else {
                0u8
            },
        (forall|k: int|
            0 <= k < bs.len() ==> !(w * (#[trigger] bs[k]).0 <= i < w * (bs[k].1 + 1)))
            ==> edges::put_back(a, b, bs, w, i) == 0,
    decreases bs.len(),
{
    if bs.len() > 0 {
        let t = bs.drop_last();
        let n = bs.len() - 1;
        edges::lemma_stacked_prefix(bs, h);
        lemma_put_back(a, b, t, w, h, i);
        assert(bs.take(n) =~= t);
        assert(bs.last() == bs[n]);
        assert forall|k: int|
            0 <= k < bs.len() && w * (#[trigger] bs[k]).0 <= i < w * (bs[k].1
                + 1) implies edges::put_back(a, b, bs, w, i) == if a[place_of(bs, w, k, i)] > 0
            || b[place_of(bs, w, k, i)] > 0 {
            255u8
        } else {
            0u8
        } by {
            if k < n {
                assert(t[k] == bs[k]);
                assert(t.take(k) =~= bs.take(k));
                assert(bs[k].1 < bs[n].0);
                assert(w * (bs[k].1 + 1) <= w * bs[n].0) by (nonlinear_arith)
                    requires
                        w >= 1,
                        bs[k].1 + 1 <= bs[n].0,
                ;
            }
        }
        if forall|k: int|
            0 <= k < bs.len() ==> !(w * (#[trigger] bs[k]).0 <= i < w * (bs[k].1 + 1)) {
            assert forall|k: int| 0 <= k < t.len() implies !(w * (#[trigger] t[k]).0 <= i < w * (
            t[k].1 + 1)) by {
                assert(t[k] == bs[k]);
            }
            assert(!(w * bs[n].0 <= i < w * (bs[n].1 + 1)));
        }
    }
}

/// Whether an operator finds just these edges in a plane.
pub open spec fn finds_just<F: Fn(&[u8], usize, usize) -> Vec<u16>>(
    f: F,
    plane: Seq<u8>,
    w: usize,
    h: usize,
    found: Seq<u16>,
) -> bool {
    forall|r: Seq<u16>| #[trigger] transform::turns(f, plane, w, h, r) ==> r == found
}

/// Whether a threshold keeps the edges that reach a level, and no others.
pub open spec fn keeps_from<T: Fn(&[u16], Single) -> Vec<u16>>(thr: T, s: Single, level: int) -> bool {
    forall|a: Seq<u16>, r: Seq<u16>| #[trigger]
        transform::cuts(thr, a, s, r) ==> r.len() == a.len() && forall|i: int|
            0 <= i < a.len() ==> #[trigger] r[i] == if a[i] >= level {
                a[i]
            } else {
                0u16
            }
}

/// Of the edges of a frame those stay in which the brightness, and five times the
/// colors, together reach the level that the threshold keeps; none on the border.
pub proof fn colors_count_five_times<
    N: Fn(&[u8], usize, usize) -> Vec<u16>,
    T: Fn(&[u16], Single) -> Vec<u16>,
>(
    sobel: N,
    thr: T,
    planes: (Seq<u8>, Seq<u8>, Seq<u8>),
    found: (Seq<u16>, Seq<u16>, Seq<u16>),
    w: usize,
    h: usize,
    s: Single,
    level: int,
    out: Seq<u8>,
    x: int,
    y: int,
)
    requires
        transform::frame_edges(sobel, thr, planes.0, planes.1, planes.2, w, h, s, out),
        finds_just(sobel, planes.0, w, h, found.0),
        finds_just(sobel, planes.1, w, h, found.1),
        finds_just(sobel, planes.2, w, h, found.2),
        edges::edges_fit(found.0, w * h),
        edges::edges_fit(found.1, w * h),
        edges::edges_fit(found.2, w * h),
        keeps_from(thr, s, level),
        level > 0,
        0 <= x < w,
        0 <= y < h,
    ensures
        ({
            let i = y * w + x;
            let strong = found.0[i] + 5 * (found.1[i] + found.2[i]) >= level;
            out[i] == if 1 <= x < w - 1 && 1 <= y < h - 1 && strong {
                255u8
            } else {
                0u8
            }
        }),
{
    let wi = w as int;
    let hi = h as int;
    let i = y * w + x;
    grid::lemma_at(x, y, wi, hi);
    let (ey, eu, ev, a, b) = choose|
        ey: Seq<u16>,
        eu: Seq<u16>,
        ev: Seq<u16>,
        a: Seq<u16>,
        b: Seq<u16>,
    |
        {
            &&& #[trigger] transform::turns(sobel, planes.0, w, h, ey)
            &&& #[trigger] transform::turns(sobel, planes.1, w, h, eu)
            &&& #[trigger] transform::turns(sobel, planes.2, w, h, ev)
            &&& #[trigger] transform::cuts(thr, edges::summed(ey, eu, ev, 1, wi, hi), s, a)
            &&& #[trigger] transform::cuts(thr, edges::summed(ey, eu, ev, 5, wi, hi), s, b)
            &&& out == edges::either(a, b, wi, hi)
        };
    assert(ey == found.0 && eu == found.1 && ev == found.2);
    let once = edges::summed(ey, eu, ev, 1, wi, hi);
    let five = edges::summed(ey, eu, ev, 5, wi, hi);
    super::pixels::edges_add_up(ey, eu, ev, 1, wi, hi, x, y);
    super::pixels::edges_add_up(ey, eu, ev, 5, wi, hi, x, y);
    assert(a[i] == if once[i] >= level {
        once[i]
    } else {
        0u16
    });
    assert(b[i] == if five[i] >= level {
        five[i]
    } else {
        0u16
    });
}

/// Whether an operator leaves every plane of edges as it is.
pub open spec fn leaves_all<F: Fn(&[u16], usize, usize) -> Vec<u16>>(f: F) -> bool {
    forall|a: Seq<u16>, w: usize, h: usize, r: Seq<u16>| #[trigger]
        transform::turns(f, a, w, h, r) ==> r == a
}

/// An edge, if it reaches a level.
pub open spec fn from_level(e: u16, level: int) -> u16 {
    if e >= level {
        e
    } else {
        0
    }
}

/// Whether a place lies in one of the first `n` bands.
spec fn in_first(at: Seq<usize>, dhs: Seq<usize>, w: int, n: int, j: int) -> bool {
    exists|k: int| 0 <= k < n && (#[trigger] at[k]) <= j < at[k] + w * dhs[k]
}

proof fn lemma_cut_step<T: Fn(&[u16], Single) -> Vec<u16>>(
    thr: T,
    im: Seq<u16>,
    at: int,
    count: int,
    s: Single,
    next: Seq<u16>,
    level: int,
)
    requires
        transform::band_cut(thr, im, at, count, s, next),
        keeps_from(thr, s, level),
        0 <= at,
        0 <= count,
        at + count <= im.len(),
    ensures
        next.len() == im.len(),
        forall|j: int|
            0 <= j < im.len() ==> #[trigger] next[j] == if at <= j < at + count {
                from_level(im[j], level)
            } else {
                im[j]
            },
{
    let part = choose|part: Seq<u16>| #[trigger]
        transform::cuts(thr, im.subrange(at, at + count), s, part) && next
            == transform::replaced(im, at, part);
    let a = im.subrange(at, at + count);
    assert(part.len() == a.len());
    assert forall|j: int| 0 <= j < im.len() implies #[trigger] next[j] == if at <= j < at + count {
        from_level(im[j], level)
    } else {
        im[j]
    } by {
        if at <= j < at + count {
            assert(part[j - at] == if a[j - at] >= level {
                a[j - at]
            } else {
                0u16
            });
        }
    }
}

#[verifier::spinoff_prover]
#[verifier::rlimit(60)]
proof fn lemma_cut_steps<T: Fn(&[u16], Single) -> Vec<u16>>(
    thr: T,
    steps: Seq<Seq<u16>>,
    at: Seq<usize>,
    dhs: Seq<usize>,
    w: int,
    s: Single,
    level: int,
    n: int,
)
    requires
        w >= 0,
        level > 0,
        steps.len() == at.len() + 1,
        at.len() == dhs.len(),
        transform::cut_in_turn(thr, steps, at, dhs, w, s),
        keeps_from(thr, s, level),
        forall|k: int| 0 <= k < at.len() ==> #[trigger] at[k] + w * dhs[k] <= steps[0].len(),
        0 <= n <= at.len(),
    ensures
        steps[n].len() == steps[0].len(),
        forall|j: int|
            0 <= j < steps[0].len() ==> #[trigger] steps[n][j] == if in_first(at, dhs, w, n, j) {
                from_level(steps[0][j], level)
            } else {
                steps[0][j]
            },
    decreases n,
{
    if n > 0 {
        let k = n - 1;
        lemma_cut_steps(thr, steps, at, dhs, w, s, level, k);
        let count = w * dhs[k];
        assert(count >= 0) by (nonlinear_arith)
            requires
                w >= 0,
                count == w * dhs[k],
                dhs[k] >= 0,
        ;
        assert(at[k] + count <= steps[0].len());
        lemma_cut_step(thr, steps[k], at[k] as int, count, s, steps[k + 1], level);
        assert forall|j: int| 0 <= j < steps[0].len() implies #[trigger] steps[n][j] == if in_first(
            at,
            dhs,
            w,
            n,
            j,
        ) {
            from_level(steps[0][j], level)
        } else {
            steps[0][j]
        } by {
            let before = steps[k][j];
            if in_first(at, dhs, w, k, j) {
                let i = choose|i: int| 0 <= i < k && (#[trigger] at[i]) <= j < at[i] + w * dhs[i];
                assert(in_first(at, dhs, w, n, j));
            } else if at[k] <= j < at[k] + w * dhs[k] {
                assert(in_first(at, dhs, w, n, j));
            } else if in_first(at, dhs, w, n, j) {
                let i = choose|i: int| 0 <= i < n && (#[trigger] at[i]) <= j < at[i] + w * dhs[i];
                assert(i == k);
            }
        }
    } else {
        assert forall|j: int| 0 <= j < steps[0].len() implies !#[trigger] in_first(
            at,
            dhs,
            w,
            0,
            j,
        ) by {}
    }
}

#[verifier::spinoff_prover]
#[verifier::rlimit(60)]
proof fn lemma_band_edges<
    S: Fn(&[u16], usize, usize) -> Vec<u16>,
    C: Fn(&[u16], usize, usize) -> Vec<u16>,
    T: Fn(&[u16], Single) -> Vec<u16>,
>(
    ess: S,
    ecp: C,
    thr: T,
    found: (Seq<u16>, Seq<u16>, Seq<u16>),
    weight: int,
    w: usize,
    h: usize,
    at: Seq<usize>,
    dhs: Seq<usize>,
    s: Single,
    level: int,
    out: Seq<u16>,
    k: int,
    j: int,
)
    requires
        transform::band_edges(
            ess,
            ecp,
            thr,
            found.0,
            found.1,
            found.2,
            weight,
            w,
            h,
            at,
            dhs,
            s,
            out,
        ),
        leaves_all(ess),
        leaves_all(ecp),
        keeps_from(thr, s, level),
        level > 0,
        at.len() == dhs.len(),
        forall|i: int| 0 <= i < at.len() ==> #[trigger] at[i] + w * dhs[i] <= w * h,
        0 <= k < at.len(),
        at[k] <= j < at[k] + w * dhs[k],
    ensures
        ({
            let strong = edges::strong_edges(
                found.0,
                found.1,
                found.2,
                weight,
                w as int,
                h as int,
            );
            out[j] == if edges::inside(j, w as int, h as int, 2) {
                from_level(strong[j], level)
            } else {
                0u16
            }
        }),
{
    let wi = w as int;
    let hi = h as int;
    let strong = edges::strong_edges(found.0, found.1, found.2, weight, wi, hi);
    let (a, e) = choose|a: Seq<u16>, e: Seq<u16>|
        {
            let smooth = edges::bordered(a, 2, wi, hi);
            &&& #[trigger] transform::turns(ess, strong, w, h, a)
            &&& #[trigger] transform::turns(ecp, edges::bordered(a, 2, wi, hi), w, h, e)
            &&& transform::bands_cut(
                thr,
                edges::averaged(smooth, e, wi, hi),
                at,
                dhs,
                wi,
                s,
                out,
            )
        };
    let smooth = edges::bordered(strong, 2, wi, hi);
    assert(a == strong);
    assert(e == smooth);
    let mean = edges::averaged(smooth, smooth, wi, hi);
    assert(w * h >= 0) by (nonlinear_arith)
        requires
            w >= 0,
            h >= 0,
    ;
    assert(mean.len() == w * h);
    let steps = choose|steps: Seq<Seq<u16>>|
        {
            &&& steps.len() == at.len() + 1
            &&& steps[0] == mean
            &&& steps.last() == out
            &&& #[trigger] transform::cut_in_turn(thr, steps, at, dhs, wi, s)
        };
    lemma_cut_steps(thr, steps, at, dhs, wi, s, level, at.len() as int);
    assert(in_first(at, dhs, wi, at.len() as int, j));
    assert(at[k] + w * dhs[k] <= w * h);
    assert(steps[at.len() as int][j] == from_level(mean[j], level));
    if edges::inside(j, wi, hi, 2) {
        assert(strong.len() == w * h);
        assert(smooth[j] == strong[j]);
        assert(mean[j] == smooth[j]);
    }
}

proof fn lemma_rows(bs: Seq<(i32, i32)>, w: int)
    ensures
        edges::area(bs, w) == w * edges::rows_of(bs),
    decreases bs.len(),
{
    if bs.len() > 0 {
        let t = bs.drop_last();
        lemma_rows(t, w);
        let n = bs.last().1 - bs.last().0 + 1;
        let m = edges::rows_of(t);
        assert(w * (m + n) == w * m + w * n) by (nonlinear_arith);
    } else {
        assert(w * 0 == 0);
    }
}

/// A pixel of a band is foreground if, at its place among the pixels of the bands,
/// the strong edges reach the level that the threshold keeps, with the colors
/// counted once or five times; the outermost two rows and columns are not. No
/// pixel outside the bands is foreground.
#[verifier::spinoff_prover]
#[verifier::rlimit(60)]
pub proof fn foreground_is_found_with_both_weights<
    M: Fn(&[u8], usize, usize) -> Vec<u16>,
    S: Fn(&[u16], usize, usize) -> Vec<u16>,
    C: Fn(&[u16], usize, usize) -> Vec<u16>,
    T: Fn(&[u16], Single) -> Vec<u16>,
>(
    sobel: M,
    ess: S,
    ecp: C,
    thr: T,
    planes: (Seq<u8>, Seq<u8>, Seq<u8>),
    found: (Seq<u16>, Seq<u16>, Seq<u16>),
    bs: Seq<(i32, i32)>,
    w: usize,
    h: usize,
    s: Single,
    level: int,
    ff: Seq<u8>,
    k: int,
    i: int,
)
    requires
        transform::foreground(
            sobel,
            ess,
            ecp,
            thr,
            planes.0,
            planes.1,
            planes.2,
            bs,
            w,
            h,
            s,
            ff,
        ),
        text_rows::stacked(bs, h as int),
        w >= 1,
        w * h <= usize::MAX,
        ({
            let rows = edges::rows_of(bs) as usize;
            &&& finds_just(sobel, edges::gathered(planes.0, bs, w as int), w, rows, found.0)
            &&& finds_just(sobel, edges::gathered(planes.1, bs, w as int), w, rows, found.1)
            &&& finds_just(sobel, edges::gathered(planes.2, bs, w as int), w, rows, found.2)
        }),
        leaves_all(ess),
        leaves_all(ecp),
        keeps_from(thr, s, level),
        level > 0,
        0 <= k < bs.len(),
        w * bs[k].0 <= i < w * (bs[k].1 + 1),
    ensures
        ({
            let rows = edges::rows_of(bs);
            let j = place_of(bs, w as int, k, i);
            let once = edges::strong_edges(found.0, found.1, found.2, 1, w as int, rows);
            let five = edges::strong_edges(found.0, found.1, found.2, 5, w as int, rows);
            ff[i] == if edges::inside(j, w as int, rows, 2) && (once[j] >= level || five[j]
                >= level) {
                255u8
            } else {
                0u8
            }
        }),
{
    let wi = w as int;
    let hi = h as int;
    let rows = edges::rows_of(bs) as usize;
    let at = edges::starts(bs, wi);
    let dhs = edges::heights(bs);
    let (ey, eu, ev, a, b) = choose|
        ey: Seq<u16>,
        eu: Seq<u16>,
        ev: Seq<u16>,
        a: Seq<u16>,
        b: Seq<u16>,
    |
        {
            &&& #[trigger] transform::turns(sobel, edges::gathered(planes.0, bs, wi), w, rows, ey)
            &&& #[trigger] transform::turns(sobel, edges::gathered(planes.1, bs, wi), w, rows, eu)
            &&& #[trigger] transform::turns(sobel, edges::gathered(planes.2, bs, wi), w, rows, ev)
            &&& #[trigger] transform::band_edges(
                ess,
                ecp,
                thr,
                ey,
                eu,
                ev,
                1,
                w,
                rows,
                at,
                dhs,
                s,
                a,
            )
            &&& #[trigger] transform::band_edges(
                ess,
                ecp,
                thr,
                ey,
                eu,
                ev,
                5,
                w,
                rows,
                at,
                dhs,
                s,
                b,
            )
            &&& ff == edges::spread(a, b, bs, wi, hi)
        };
    assert(ey == found.0 && eu == found.1 && ev == found.2);
    edges::lemma_area(bs, wi, hi);
    lemma_rows(bs, wi);
    let n = edges::rows_of(bs);
    assert(0 <= n <= usize::MAX) by (nonlinear_arith)
        requires
            0 <= wi * n <= usize::MAX,
            wi >= 1,
    ;
    assert forall|q: int| 0 <= q < at.len() implies #[trigger] at[q] + w * dhs[q] <= w * rows by {
        lemma_place(bs, wi, hi, q);
    }
    lemma_place(bs, wi, hi, k);
    let j = place_of(bs, wi, k, i);
    assert(w * (bs[k].1 + 1) == w * bs[k].0 + w * (bs[k].1 - bs[k].0 + 1)) by (nonlinear_arith);
    assert(at[k] <= j < at[k] + w * dhs[k]);
    assert(0 <= bs[k].0 <= bs[k].1 < h);
    assert(0 <= i < w * h) by (nonlinear_arith)
        requires
            w * bs[k].0 <= i < w * (bs[k].1 + 1),
            0 <= bs[k].0,
            bs[k].1 + 1 <= h,
            w >= 1,
    ;
    lemma_band_edges(ess, ecp, thr, found, 1, w, rows, at, dhs, s, level, a, k, j);
    lemma_band_edges(ess, ecp, thr, found, 5, w, rows, at, dhs, s, level, b, k, j);
    edges_go_back_to_their_pixels(a, b, bs, wi, hi, i);
}

proof fn lemma_place(bs: Seq<(i32, i32)>, w: int, h: int, k: int)
    requires
        text_rows::stacked(bs, h),
        w >= 1,
        h >= 0,
        w * h <= usize::MAX,
        0 <= k < bs.len(),
    ensures
        edges::starts(bs, w)[k] == edges::area(bs.take(k), w),
        edges::heights(bs)[k] == bs[k].1 - bs[k].0 + 1,
        edges::starts(bs, w)[k] + w * edges::heights(bs)[k] <= edges::area(bs, w),
{
    edges::lemma_area(bs, w, h);
    edges::lemma_area_grows(bs, w, h, k);
    edges::lemma_area_grows(bs, w, h, k + 1);
    lemma_taken(bs, h, k);
    edges::lemma_area(bs.take(k), w, h);
    assert(bs.take(k + 1).drop_last() =~= bs.take(k));
    assert(bs.take(k + 1).last() == bs[k]);
    assert(0 <= bs[k].0 <= bs[k].1 < h);
    assert(h <= w * h) by (nonlinear_arith)
        requires
            w >= 1,
            h >= 0,
    ;
}

/// A list of subtitles is closed by a bracket, and each further subtitle stands
/// behind the others and a comma, with its start before its end and the name of its
/// picture and its mask.
pub proof fn lists_grow_at_their_end(s: Seq<Interval>, t: Interval)
    requires
        s.len() > 0,
    ensures
        ({
            let before = output::json_of(s);
            let after = output::json_of(s.push(t));
            let name = decimal::digits(t.start_ms as nat).push('_') + decimal::digits(
                t.end_ms as nat,
            );
            &&& before.len() >= 2
            &&& after == before.take(before.len() - 2) + seq![','] + "{\"start_ms\":"@
                + decimal::digits(t.start_ms as nat) + ",\"end_ms\":"@ + decimal::digits(
                t.end_ms as nat,
            ) + ",\"image\":\""@ + name + ".png\",\"mask\":\""@ + name + ".png\"}"@ + "]\n"@
        }),
{
    reveal_strlit("]\n");
    let items = output::json_items(s);
    let before = output::json_of(s);
    let after = output::json_of(s.push(t));
    let inner = "["@ + strings::joined(items, seq![',']);
    assert(output::json_items(s.push(t)) =~= items.push(output::json_item(t)));
    pieces::texts_are_joined_in_order(items, output::json_item(t), seq![',']);
    assert(before =~= inner + "]\n"@);
    assert(before.take(before.len() - 2) =~= inner);
    let name = decimal::digits(t.start_ms as nat).push('_') + decimal::digits(t.end_ms as nat);
    assert(output::name_of(t) == name);
    assert(after =~= inner + seq![','] + output::json_item(t) + "]\n"@);
    assert(after =~= inner + seq![','] + "{\"start_ms\":"@ + decimal::digits(t.start_ms as nat)
        + ",\"end_ms\":"@ + decimal::digits(t.end_ms as nat) + ",\"image\":\""@ + name
        + ".png\",\"mask\":\""@ + name + ".png\"}"@ + "]\n"@);
}

} // verus!
