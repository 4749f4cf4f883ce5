//! The stages of the edge pictures of a frame: adding the edges of the color
//! planes, averaging, and cutting the bands of text rows out of a frame and
//! putting them back.
use super::filter;
use super::filter::filter_transformed_image;
use super::grid;
use super::imgops;
use super::imgops::{combine_two_images, Pixel};
use super::params::Params;
use super::text_rows;
use super::threshold;
use super::threshold::find_and_apply_local_thresholding;
use vstd::prelude::*;

verus! {

/// Whether a pixel is at least `d` pixels away from all borders.
pub open spec fn inside(i: int, w: int, h: int, d: int) -> bool {
    d <= grid::col(i, w) < w - d && d <= grid::row(i, w) < h - d
}

fn is_inside(i: usize, w: usize, h: usize, d: usize) -> (r: bool)
    requires
        grid::frame_size(w as int, h as int),
        i < w * h,
    ensures
        r == inside(i as int, w as int, h as int, d as int),
{
    proof {
        grid::lemma_of(i as int, w as int, h as int);
        grid::lemma_sides(w as int, h as int);
    }
    let x: usize = i % w;
    let y: usize = i / w;
    d <= x && d < w - x && d <= y && d < h - y
}

/// An image with a border of `d` pixels blanked.
pub open spec fn bordered<T: Pixel>(im: Seq<T>, d: int, w: int, h: int) -> Seq<T> {
    Seq::new(
        im.len(),
        |i: int|
            if inside(i, w, h, d) {
                im[i]
            } else {
                T::zero()
            },
    )
}

/// Blanks a border of `dd` pixels.
pub fn border_clear<T: Pixel>(im: &mut [T], dd: usize, w: usize, h: usize)
    requires
        grid::frame_size(w as int, h as int),
        old(im)@.len() == w * h,
    ensures
        final(im)@ == bordered(old(im)@, dd as int, w as int, h as int),
{
    let ghost before = im@;
    let n: usize = im.len();
    let mut i: usize = 0;
    while i < n
        invariant
            i <= n,
            n == before.len(),
            im@.len() == n,
            n == w * h,
            grid::frame_size(w as int, h as int),
            forall|k: int|
                0 <= k < i ==> #[trigger] im@[k] == bordered(
                    before,
                    dd as int,
                    w as int,
                    h as int,
                )[k],
            forall|k: int| i <= k < n ==> #[trigger] im@[k] == before[k],
        decreases n - i,
    {
        if !is_inside(i, w, h, dd) {
            im[i] = T::nil();
        }
        i = i + 1;
    }
    proof {
        assert(im@ =~= bordered(before, dd as int, w as int, h as int));
    }
}

/// Blanks the outermost pixels.
pub fn easy_border_clear<T: Pixel>(im: &mut [T], w: usize, h: usize)
    requires
        grid::frame_size(w as int, h as int),
        old(im)@.len() == w * h,
    ensures
        final(im)@ == bordered(old(im)@, 1, w as int, h as int),
{
    border_clear(im, 1, w, h);
}

/// The edges of the three planes added, with a weight for the two color planes,
/// and nothing at the border.
pub open spec fn summed(
    y: Seq<u16>,
    u: Seq<u16>,
    v: Seq<u16>,
    k: int,
    w: int,
    h: int,
) -> Seq<u16> {
    Seq::new(
        (w * h) as nat,
        |i: int|
            if inside(i, w, h, 1) {
                (y[i] + (u[i] + v[i]) * k) as u16
            } else {
                0
            },
    )
}

/// An edge map of which eleven can be added.
pub open spec fn edges_fit(e: Seq<u16>, n: int) -> bool {
    e.len() == n && forall|i: int| 0 <= i < n ==> #[trigger] e[i] < 4096
}

/// Adds the edges of the three planes, with a weight for the two color planes.
pub fn sum_edges(y: &[u16], u: &[u16], v: &[u16], k: u16, w: usize, h: usize) -> (r: Vec<u16>)
    requires
        grid::frame_size(w as int, h as int),
        k <= 5,
        edges_fit(y@, w * h),
        edges_fit(u@, w * h),
        edges_fit(v@, w * h),
    ensures
        r@ == summed(y@, u@, v@, k as int, w as int, h as int),
        forall|i: int| 0 <= i < r@.len() ==> #[trigger] r@[i] < threshold::MAX_EDGE_STR,
{
    let n: usize = y.len();
    let mut out: Vec<u16> = Vec::new();
    let mut i: usize = 0;
    while i < n
        invariant
            i <= n,
            n == w * h,
            k <= 5,
            out@.len() == i,
            grid::frame_size(w as int, h as int),
            edges_fit(y@, w * h),
            edges_fit(u@, w * h),
            edges_fit(v@, w * h),
            forall|j: int|
                0 <= j < i ==> #[trigger] out@[j] == summed(
                    y@,
                    u@,
                    v@,
                    k as int,
                    w as int,
                    h as int,
                )[j],
            forall|j: int| 0 <= j < i ==> #[trigger] out@[j] < threshold::MAX_EDGE_STR,
        decreases n - i,
    {
        if is_inside(i, w, h, 1) {
            proof {
                assert(y@[i as int] < 4096 && u@[i as int] < 4096 && v@[i as int] < 4096);
                let c = u@[i as int] + v@[i as int];
                assert(c * k <= 8190 * 5) by (nonlinear_arith)
                    requires
                        0 <= c <= 8190,
                        0 <= k <= 5,
                ;
                assert(c * k >= 0) by (nonlinear_arith)
                    requires
                        0 <= c,
                        0 <= k,
                ;
            }
            let c: u16 = u[i] + v[i];
            out.push(y[i] + c * k);
        } else {
            out.push(0);
        }
        i = i + 1;
    }
    proof {
        assert(out@ =~= summed(y@, u@, v@, k as int, w as int, h as int));
    }
    out
}

/// The added edges with the weak ones of every 32 rows blanked.
pub open spec fn strong_edges(
    y: Seq<u16>,
    u: Seq<u16>,
    v: Seq<u16>,
    k: int,
    w: int,
    h: int,
) -> Seq<u16> {
    threshold::thresholded(summed(y, u, v, k, w, h), w, 32, w, h)
}

/// Adds the edges of the three planes and blanks the weak ones of every 32 rows.
pub fn combine_edges(y: &[u16], u: &[u16], v: &[u16], k: u16, w: usize, h: usize) -> (r: Vec<u16>)
    requires
        grid::frame_size(w as int, h as int),
        k <= 5,
        edges_fit(y@, w * h),
        edges_fit(u@, w * h),
        edges_fit(v@, w * h),
    ensures
        r@ == strong_edges(y@, u@, v@, k as int, w as int, h as int),
{
    let mut out = sum_edges(y, u, v, k, w, h);
    find_and_apply_local_thresholding(out.as_mut_slice(), w, 32, w, h);
    out
}

/// The mean of two pictures away from the border, and nothing near it.
pub open spec fn averaged(a: Seq<u16>, b: Seq<u16>, w: int, h: int) -> Seq<u16> {
    Seq::new(
        (w * h) as nat,
        |i: int|
            if inside(i, w, h, 2) {
                ((a[i] + b[i]) / 2) as u16
            } else {
                0
            },
    )
}

/// Averages two pictures away from the border.
pub fn average_edges(a: &[u16], b: &[u16], w: usize, h: usize) -> (r: Vec<u16>)
    requires
        grid::frame_size(w as int, h as int),
        a@.len() == w * h,
        b@.len() == w * h,
    ensures
        r@ == averaged(a@, b@, w as int, h as int),
{
    let n: usize = a.len();
    let mut out: Vec<u16> = Vec::new();
    let mut i: usize = 0;
    while i < n
        invariant
            i <= n,
            n == w * h,
            a@.len() == n,
            b@.len() == n,
            out@.len() == i,
            grid::frame_size(w as int, h as int),
            forall|j: int|
                0 <= j < i ==> #[trigger] out@[j] == averaged(a@, b@, w as int, h as int)[j],
        decreases n - i,
    {
        if is_inside(i, w, h, 2) {
            let sum: u32 = a[i] as u32 + b[i] as u32;
            out.push((sum / 2) as u16);
        } else {
            out.push(0);
        }
        i = i + 1;
    }
    proof {
        assert(out@ =~= averaged(a@, b@, w as int, h as int));
    }
    out
}

/// White where one of two pictures has an edge, and nothing at the border.
pub open spec fn either(a: Seq<u16>, b: Seq<u16>, w: int, h: int) -> Seq<u8> {
    Seq::new(
        (w * h) as nat,
        |i: int|
            if inside(i, w, h, 1) && (a[i] != 0 || b[i] != 0) {
                255u8
            } else {
                0
            },
    )
}

/// Marks the pixels in which one of two pictures has an edge.
pub fn mark_edges(a: &[u16], b: &[u16], w: usize, h: usize) -> (r: Vec<u8>)
    requires
        grid::frame_size(w as int, h as int),
        a@.len() == w * h,
        b@.len() == w * h,
    ensures
        r@ == either(a@, b@, w as int, h as int),
{
    let n: usize = a.len();
    let mut out: Vec<u8> = Vec::new();
    let mut i: usize = 0;
    while i < n
        invariant
            i <= n,
            n == w * h,
            a@.len() == n,
            b@.len() == n,
            out@.len() == i,
            grid::frame_size(w as int, h as int),
            forall|j: int|
                0 <= j < i ==> #[trigger] out@[j] == either(a@, b@, w as int, h as int)[j],
        decreases n - i,
    {
        if is_inside(i, w, h, 1) && (a[i] != 0 || b[i] != 0) {
            out.push(255);
        } else {
            out.push(0);
        }
        i = i + 1;
    }
    proof {
        assert(out@ =~= either(a@, b@, w as int, h as int));
    }
    out
}

/// The bands that two lists of first and last rows tell.
pub open spec fn bands(lb: Seq<i32>, le: Seq<i32>) -> Seq<(i32, i32)> {
    Seq::new(lb.len(), |k: int| (lb[k], le[k]))
}

/// The number of pixels of some bands.
pub open spec fn area(bs: Seq<(i32, i32)>, w: int) -> int
    decreases bs.len(),
{
    if bs.len() == 0 {
        0
    } else {
        area(bs.drop_last(), w) + w * (bs.last().1 - bs.last().0 + 1)
    }
}

/// The number of rows of some bands.
pub open spec fn rows_of(bs: Seq<(i32, i32)>) -> int
    decreases bs.len(),
{
    if bs.len() == 0 {
        0
    } else {
        rows_of(bs.drop_last()) + (bs.last().1 - bs.last().0 + 1)
    }
}

/// Where each band starts when the bands stand one after the other.
pub open spec fn starts(bs: Seq<(i32, i32)>, w: int) -> Seq<usize> {
    Seq::new(bs.len(), |k: int| area(bs.take(k), w) as usize)
}

/// The number of rows of each band.
pub open spec fn heights(bs: Seq<(i32, i32)>) -> Seq<usize> {
    Seq::new(bs.len(), |k: int| (bs[k].1 - bs[k].0 + 1) as usize)
}

/// The rows of some bands, one band after the other.
pub open spec fn gathered(full: Seq<u8>, bs: Seq<(i32, i32)>, w: int) -> Seq<u8>
    decreases bs.len(),
{
    if bs.len() == 0 {
        Seq::empty()
    } else {
        gathered(full, bs.drop_last(), w) + full.subrange(
            w * bs.last().0,
            w * (bs.last().1 + 1),
        )
    }
}

/// The value at pixel `i` of a frame when the rows of some bands are put back,
/// white where one of two pictures of the bands has an edge.
pub open spec fn put_back(
    a: Seq<u16>,
    b: Seq<u16>,
    bs: Seq<(i32, i32)>,
    w: int,
    i: int,
) -> u8
    decreases bs.len(),
{
    if bs.len() == 0 {
        0
    } else {
        let first = w * bs.last().0;
        if first <= i < w * (bs.last().1 + 1) {
            let j = area(bs.drop_last(), w) + i - first;
            if a[j] != 0 || b[j] != 0 {
                255
            } else {
                0
            }
        } else {
            put_back(a, b, bs.drop_last(), w, i)
        }
    }
}

pub open spec fn spread(
    a: Seq<u16>,
    b: Seq<u16>,
    bs: Seq<(i32, i32)>,
    w: int,
    h: int,
) -> Seq<u8> {
    Seq::new((w * h) as nat, |i: int| put_back(a, b, bs, w, i))
}

pub proof fn lemma_stacked_prefix(bs: Seq<(i32, i32)>, h: int)
    requires
        text_rows::stacked(bs, h),
        bs.len() > 0,
    ensures
        text_rows::stacked(bs.drop_last(), h),
        0 <= bs.last().0 <= bs.last().1 < h,
        bs.len() > 1 ==> bs.drop_last().last().1 < bs.last().0,
{
    let t = bs.drop_last();
    let _ = bs[bs.len() - 1];
    assert forall|i: int, j: int|
        #![trigger t[i], t[j]]
        0 <= i < j < t.len() implies t[i].1 < t[j].0 by {
        assert(t[i] == bs[i] && t[j] == bs[j]);
    }
    assert forall|k: int| #![trigger t[k]] 0 <= k < t.len() implies 0 <= t[k].0 <= t[k].1 < h by {
        assert(t[k] == bs[k]);
    }
    if bs.len() > 1 {
        assert(t.last() == bs[bs.len() - 2]);
        let _ = bs[bs.len() - 2];
    }
}

/// Bands that follow one another hold no more pixels than the frame.
pub proof fn lemma_area(bs: Seq<(i32, i32)>, w: int, h: int)
    requires
        text_rows::stacked(bs, h),
        w >= 1,
        h >= 0,
    ensures
        0 <= area(bs, w) <= w * h,
        bs.len() > 0 ==> area(bs, w) <= w * (bs.last().1 + 1),
    decreases bs.len(),
{
    if bs.len() == 0 {
        assert(0 <= w * h) by (nonlinear_arith)
            requires
                w >= 1,
                h >= 0,
        ;
    } else {
        lemma_stacked_prefix(bs, h);
        let t = bs.drop_last();
        lemma_area(t, w, h);
        let f = bs.last().0 as int;
        let l = bs.last().1 as int;
        let p = if t.len() > 0 {
            t.last().1 + 1
        } else {
            0
        };
        assert(area(t, w) <= w * p) by {
            if t.len() == 0 {
                assert(w * 0 == 0);
            }
        }
        assert(w * p <= w * f) by (nonlinear_arith)
            requires
                p <= f,
                w >= 1,
        ;
        assert(w * f + w * (l - f + 1) == w * (l + 1)) by (nonlinear_arith);
        assert(w * (l + 1) <= w * h) by (nonlinear_arith)
            requires
                l + 1 <= h,
                w >= 1,
        ;
        assert(0 <= w * (l - f + 1)) by (nonlinear_arith)
            requires
                l >= f,
                w >= 1,
        ;
    }
}

/// The number of rows of each band times the width, and where each band starts
/// when the bands stand one after the other.
pub fn band_offsets(lb: &[i32], le: &[i32], w: usize, h: usize) -> (r: (Vec<usize>, Vec<usize>))
    requires
        lb@.len() == le@.len(),
        grid::frame_size(w as int, h as int),
        text_rows::stacked(bands(lb@, le@), h as int),
    ensures
        r.0@ == starts(bands(lb@, le@), w as int),
        r.1@ == heights(bands(lb@, le@)),
        forall|k: int|
            0 <= k < lb@.len() ==> #[trigger] r.0@[k] + w * r.1@[k] <= area(
                bands(lb@, le@),
                w as int,
            ),
{
    let ghost bs = bands(lb@, le@);
    let mut offsets: Vec<usize> = Vec::new();
    let mut dhs: Vec<usize> = Vec::new();
    let mut at: usize = 0;
    let mut k: usize = 0;
    proof {
        assert(bs.take(0) =~= Seq::<(i32, i32)>::empty());
    }
    while k < lb.len()
        invariant
            k <= lb@.len(),
            lb@.len() == le@.len(),
            bs == bands(lb@, le@),
            grid::frame_size(w as int, h as int),
            text_rows::stacked(bs, h as int),
            offsets@.len() == k,
            dhs@.len() == k,
            at == area(bs.take(k as int), w as int),
            forall|j: int|
                0 <= j < k ==> #[trigger] offsets@[j] == area(bs.take(j), w as int),
            forall|j: int| 0 <= j < k ==> #[trigger] dhs@[j] == le@[j] - lb@[j] + 1,
        decreases lb@.len() - k,
    {
        proof {
            let t = bs.take(k + 1);
            lemma_stacked_take(bs, h as int, k + 1);
            lemma_area(t, w as int, h as int);
            assert(t.drop_last() =~= bs.take(k as int));
            assert(t.last() == bs[k as int]);
            lemma_stacked_prefix(t, h as int);
            grid::lemma_sides(w as int, h as int);
        }
        let rows: usize = (le[k] - lb[k]) as usize + 1;
        offsets.push(at);
        dhs.push(rows);
        proof {
            let d = le@[k as int] - lb@[k as int] + 1;
            assert(w * rows == w * d) by (nonlinear_arith)
                requires
                    rows == d,
            ;
            lemma_stacked_take(bs, h as int, k as int);
            lemma_area(bs.take(k as int), w as int, h as int);
        }
        at = at + w * rows;
        k = k + 1;
    }
    proof {
        assert(offsets@ =~= starts(bs, w as int));
        assert(dhs@ =~= heights(bs));
        assert forall|j: int| 0 <= j < lb@.len() implies #[trigger] offsets@[j] + w * dhs@[j]
            <= area(bs, w as int) by {
            let t = bs.take(j + 1);
            assert(t.drop_last() =~= bs.take(j));
            assert(t.last() == bs[j]);
            lemma_area_grows(bs, w as int, h as int, j + 1);
        }
    }
    (offsets, dhs)
}

proof fn lemma_stacked_take(bs: Seq<(i32, i32)>, h: int, n: int)
    requires
        text_rows::stacked(bs, h),
        0 <= n <= bs.len(),
    ensures
        text_rows::stacked(bs.take(n), h),
{
    let t = bs.take(n);
    assert forall|i: int, j: int|
        #![trigger t[i], t[j]]
        0 <= i < j < t.len() implies t[i].1 < t[j].0 by {
        assert(t[i] == bs[i] && t[j] == bs[j]);
    }
    assert forall|k: int| #![trigger t[k]] 0 <= k < t.len() implies 0 <= t[k].0 <= t[k].1 < h by {
        assert(t[k] == bs[k]);
    }
}

/// Copies the rows of some bands, one band after the other.
pub fn gather_bands(full: &[u8], lb: &[i32], le: &[i32], w: usize, h: usize) -> (r: Vec<u8>)
    requires
        lb@.len() == le@.len(),
        grid::frame_size(w as int, h as int),
        full@.len() == w * h,
        text_rows::stacked(bands(lb@, le@), h as int),
    ensures
        r@ == gathered(full@, bands(lb@, le@), w as int),
        r@.len() == area(bands(lb@, le@), w as int),
{
    let ghost bs = bands(lb@, le@);
    let mut out: Vec<u8> = Vec::new();
    let mut k: usize = 0;
    proof {
        assert(bs.take(0) =~= Seq::<(i32, i32)>::empty());
    }
    while k < lb.len()
        invariant
            k <= lb@.len(),
            lb@.len() == le@.len(),
            bs == bands(lb@, le@),
            grid::frame_size(w as int, h as int),
            full@.len() == w * h,
            text_rows::stacked(bs, h as int),
            out@ == gathered(full@, bs.take(k as int), w as int),
            out@.len() == area(bs.take(k as int), w as int),
        decreases lb@.len() - k,
    {
        let ghost before = out@;
        let ghost f = lb@[k as int] as int;
        let ghost l = le@[k as int] as int;
        proof {
            let t = bs.take(k + 1);
            lemma_stacked_take(bs, h as int, k + 1);
            lemma_stacked_prefix(t, h as int);
            assert(t.drop_last() =~= bs.take(k as int));
            assert(t.last() == bs[k as int]);
            grid::lemma_sides(w as int, h as int);
            lemma_rows(f, l, w as int, h as int);
        }
        let from: usize = w * (lb[k] as usize);
        let to: usize = w * (le[k] as usize + 1);
        let mut i: usize = from;
        proof {
            assert(full@.subrange(from as int, from as int) =~= Seq::<u8>::empty());
            assert(before + Seq::<u8>::empty() =~= before);
        }
        while i < to
            invariant
                from <= i <= to <= full@.len(),
                out@ == before + full@.subrange(from as int, i as int),
            decreases to - i,
        {
            out.push(full[i]);
            proof {
                assert(full@.subrange(from as int, i + 1) =~= full@.subrange(
                    from as int,
                    i as int,
                ).push(full@[i as int]));
                assert((before + full@.subrange(from as int, i as int)).push(full@[i as int])
                    =~= before + full@.subrange(from as int, i as int).push(full@[i as int]));
            }
            i = i + 1;
        }
        k = k + 1;
    }
    proof {
        assert(bs.take(lb@.len() as int) =~= bs);
    }
    out
}

proof fn lemma_rows(f: int, l: int, w: int, h: int)
    requires
        0 <= f <= l < h,
        w >= 1,
    ensures
        0 <= w * f <= w * (l + 1) <= w * h,
        w * (l + 1) - w * f == w * (l - f + 1),
{
    assert(0 <= w * f <= w * (l + 1) <= w * h && w * (l + 1) - w * f == w * (l - f + 1))
        by (nonlinear_arith)
        requires
            0 <= f <= l < h,
            w >= 1,
    ;
}

/// Puts the rows of some bands back into a frame, white where one of two
/// pictures of the bands has an edge.
pub fn spread_bands(a: &[u16], b: &[u16], lb: &[i32], le: &[i32], w: usize, h: usize) -> (r: Vec<
    u8,
>)
    requires
        lb@.len() == le@.len(),
        grid::frame_size(w as int, h as int),
        text_rows::stacked(bands(lb@, le@), h as int),
        a@.len() == area(bands(lb@, le@), w as int),
        b@.len() == a@.len(),
    ensures
        r@ == spread(a@, b@, bands(lb@, le@), w as int, h as int),
{
    let ghost bs = bands(lb@, le@);
    let ghost wi = w as int;
    let ghost hi = h as int;
    let total: usize = a.len();
    let mut out: Vec<u8> = vec![0u8; w * h];
    let mut at: usize = 0;
    let mut k: usize = 0;
    proof {
        assert(bs.take(0) =~= Seq::<(i32, i32)>::empty());
        assert(out@ =~= spread(a@, b@, bs.take(0), wi, hi));
    }
    while k < lb.len()
        invariant
            k <= lb@.len(),
            lb@.len() == le@.len(),
            wi == w,
            hi == h,
            bs == bands(lb@, le@),
            grid::frame_size(wi, hi),
            text_rows::stacked(bs, hi),
            a@.len() == area(bs, wi),
            b@.len() == a@.len(),
            total == a@.len(),
            at == area(bs.take(k as int), wi),
            out@ == spread(a@, b@, bs.take(k as int), wi, hi),
            out@.len() == w * h,
        decreases lb@.len() - k,
    {
        let ghost before = out@;
        let ghost f = lb@[k as int] as int;
        let ghost l = le@[k as int] as int;
        let ghost t = bs.take(k + 1);
        proof {
            lemma_stacked_take(bs, hi, k + 1);
            lemma_stacked_prefix(t, hi);
            assert(t.drop_last() =~= bs.take(k as int));
            assert(t.last() == bs[k as int]);
            grid::lemma_sides(wi, hi);
            lemma_rows(f, l, wi, hi);
            lemma_area_grows(bs, wi, hi, k + 1);
            lemma_stacked_take(bs, hi, k as int);
            lemma_area(bs.take(k as int), wi, hi);
        }
        let from: usize = w * (lb[k] as usize);
        let to: usize = w * (le[k] as usize + 1);
        let mut i: usize = from;
        while i < to
            invariant
                from <= i <= to,
                to <= w * h,
                wi == w,
                hi == h,
                from == wi * f,
                to == wi * (l + 1),
                t.len() > 0,
                t.last() == (f as i32, l as i32),
                f == t.last().0,
                l == t.last().1,
                at == area(t.drop_last(), wi),
                at + (to - from) <= a@.len(),
                total == a@.len(),
                b@.len() == a@.len(),
                out@.len() == w * h,
                before == spread(a@, b@, t.drop_last(), wi, hi),
                forall|j: int|
                    from <= j < i ==> #[trigger] out@[j] == put_back(a@, b@, t, wi, j),
                forall|j: int|
                    0 <= j < from || i <= j < out@.len() ==> #[trigger] out@[j] == before[j],
            decreases to - i,
        {
            let j: usize = at + (i - from);
            out.set(
                i,
                if a[j] != 0 || b[j] != 0 {
                    255
                } else {
                    0
                },
            );
            i = i + 1;
        }
        proof {
            assert(out@ =~= spread(a@, b@, t, wi, hi)) by {
                assert forall|j: int| 0 <= j < w * h implies out@[j] == put_back(
                    a@,
                    b@,
                    t,
                    wi,
                    j,
                ) by {
                    if !(from <= j < to) {
                        assert(out@[j] == before[j]);
                    }
                }
            }
        }
        at = at + (to - from);
        k = k + 1;
    }
    proof {
        assert(bs.take(lb@.len() as int) =~= bs);
    }
    out
}

pub proof fn lemma_area_grows(bs: Seq<(i32, i32)>, w: int, h: int, n: int)
    requires
        text_rows::stacked(bs, h),
        w >= 1,
        h >= 0,
        0 <= n <= bs.len(),
    ensures
        area(bs.take(n), w) <= area(bs, w),
    decreases bs.len() - n,
{
    if n == bs.len() {
        assert(bs.take(n) =~= bs);
    } else {
        let t = bs.take(n + 1);
        assert(t.drop_last() =~= bs.take(n));
        assert(t.last() == bs[n]);
        let d = bs[n].1 - bs[n].0 + 1;
        assert(w * d >= 0) by (nonlinear_arith)
            requires
                w >= 1,
                d >= 0,
        ;
        lemma_area_grows(bs, w, h, n + 1);
    }
}

proof fn lemma_gathered_len(full: Seq<u8>, bs: Seq<(i32, i32)>, w: int, h: int)
    requires
        text_rows::stacked(bs, h),
        w >= 1,
        full.len() == w * h,
    ensures
        gathered(full, bs, w).len() == area(bs, w),
    decreases bs.len(),
{
    if bs.len() > 0 {
        lemma_stacked_prefix(bs, h);
        lemma_gathered_len(full, bs.drop_last(), w, h);
        lemma_rows(bs.last().0 as int, bs.last().1 as int, w, h);
    }
}

/// Cutting bands out and putting them back brings every pixel of a band to its
/// place: pixel `i` of band `k` is pixel `i` of the frame.
pub proof fn bands_come_back(
    full: Seq<u8>,
    bs: Seq<(i32, i32)>,
    w: int,
    h: int,
    k: int,
    i: int,
)
    requires
        text_rows::stacked(bs, h),
        w >= 1,
        full.len() == w * h,
        0 <= k < bs.len(),
        w * bs[k].0 <= i < w * (bs[k].1 + 1),
    ensures
        gathered(full, bs, w)[area(bs.take(k), w) + i - w * bs[k].0] == full[i],
    decreases bs.len(),
{
    lemma_stacked_prefix(bs, h);
    let t = bs.drop_last();
    lemma_gathered_len(full, t, w, h);
    lemma_rows(bs.last().0 as int, bs.last().1 as int, w, h);
    let _ = bs[k];
    if k == bs.len() - 1 {
        assert(bs.take(k) =~= t);
    } else {
        assert(t.take(k) =~= bs.take(k));
        assert(t[k] == bs[k]);
        bands_come_back(full, t, w, h, k, i);
        lemma_rows(bs[k].0 as int, bs[k].1 as int, w, h);
        lemma_area_grows(t, w, h, k + 1);
        assert(t.take(k + 1).drop_last() =~= t.take(k));
        assert(t.take(k + 1).last() == t[k]);
        lemma_stacked_take(t, h, k);
        lemma_area(t.take(k), w, h);
    }
}

/// The first row of a band moved up to a multiple of the strip height.
pub open spec fn aligned_first(lb: int, segh: int) -> int {
    lb - lb % segh
}

/// The first rows of the bands, moved up.
pub open spec fn aligned_firsts(lb: Seq<i32>, segh: int) -> Seq<i32> {
    Seq::new(lb.len(), |k: int| aligned_first(lb[k] as int, segh) as i32)
}

/// The last row of a band moved down to a multiple of the strip height, if that
/// is a row of the frame.
pub open spec fn aligned_last(le: int, segh: int, h: int) -> int {
    let more = if le % segh > 0 {
        segh - le % segh
    } else {
        0
    };
    if le + more < h {
        le + more
    } else {
        le
    }
}

/// The last rows of the bands: moved down, and the very last one far enough up
/// for a strip to follow it.
pub open spec fn aligned_ends(le: Seq<i32>, segh: int, h: int) -> Seq<i32> {
    Seq::new(
        le.len(),
        |k: int|
            {
                let e = aligned_last(le[k] as int, segh, h);
                if k == le.len() - 1 && e + segh > h {
                    (h - segh) as i32
                } else {
                    e as i32
                }
            },
    )
}

/// The text areas without the rows below the last band, where that band was cut.
pub open spec fn cut_below(im: Seq<u8>, le: Seq<i32>, segh: int, w: int, h: int) -> Seq<u8> {
    let cut = le.len() > 0 && aligned_last(le.last() as int, segh, h) + segh > h;
    Seq::new(
        im.len(),
        |i: int|
            if cut && i >= w * (h - segh + 1) {
                0u8
            } else {
                im[i]
            },
    )
}

/// Moves the borders of the bands to multiples of the strip height, and blanks
/// what the last band no longer reaches.
pub fn align_bands(
    im_sf: &mut [u8],
    lb: &[i32],
    le: &[i32],
    segh: usize,
    w: usize,
    h: usize,
) -> (r: (Vec<i32>, Vec<i32>))
    requires
        lb@.len() == le@.len(),
        lb@.len() >= 1,
        grid::frame_size(w as int, h as int),
        1 <= segh <= h,
        old(im_sf)@.len() == w * h,
        text_rows::stacked(bands(lb@, le@), h as int),
    ensures
        r.0@ == aligned_firsts(lb@, segh as int),
        r.1@ == aligned_ends(le@, segh as int, h as int),
        final(im_sf)@ == cut_below(old(im_sf)@, le@, segh as int, w as int, h as int),
        filter::bands_fit(r.0@, r.1@, lb@.len() as int, h as int),
{
    let ghost bs = bands(lb@, le@);
    proof {
        grid::lemma_sides(w as int, h as int);
    }
    let n: usize = lb.len();
    let s: i32 = segh as i32;
    let hh: i32 = h as i32;
    let mut first: Vec<i32> = Vec::new();
    let mut last: Vec<i32> = Vec::new();
    let mut k: usize = 0;
    while k < n
        invariant
            k <= n,
            n == lb@.len(),
            lb@.len() == le@.len(),
            bs == bands(lb@, le@),
            text_rows::stacked(bs, h as int),
            1 <= segh <= h,
            h <= 0x7fff_ffff,
            s == segh,
            hh == h,
            first@.len() == k,
            last@.len() == k,
            forall|j: int|
                0 <= j < k ==> #[trigger] first@[j] == aligned_first(lb@[j] as int, segh as int),
            forall|j: int| 0 <= j < k ==> #[trigger] first@[j] >= 0,
            forall|j: int|
                0 <= j < k ==> #[trigger] last@[j] == aligned_last(
                    le@[j] as int,
                    segh as int,
                    h as int,
                ),
            forall|j: int| 0 <= j < k ==> 0 <= #[trigger] last@[j] < h,
        decreases n - k,
    {
        proof {
            assert(bs[k as int] == (lb@[k as int], le@[k as int]));
        }
        let a: i32 = lb[k];
        let b: i32 = le[k];
        let over: i32 = b % s;
        let more: i32 = if over > 0 {
            s - over
        } else {
            0
        };
        proof {
            vstd::arithmetic::div_mod::lemma_mod_bound(a as int, s as int);
            assert(a as int % s as int <= a) by {
                vstd::arithmetic::div_mod::lemma_mod_decreases(a as nat, s as nat);
            }
        }
        first.push(a - a % s);
        last.push(
            if more < hh - b {
                b + more
            } else {
                b
            },
        );
        k = k + 1;
    }
    let end: i32 = last[n - 1];
    let ghost before = im_sf@;
    if s > hh - end {
        last.set(n - 1, hh - s);
        proof {
            assert(w * (h - segh + 1) <= w * h && 0 <= w * (h - segh + 1)) by (nonlinear_arith)
                requires
                    1 <= segh <= h,
                    w >= 1,
            ;
        }
        let start: usize = w * (h - segh + 1);
        let mut i: usize = start;
        while i < im_sf.len()
            invariant
                start <= i <= im_sf@.len(),
                im_sf@.len() == before.len(),
                forall|j: int| 0 <= j < start ==> #[trigger] im_sf@[j] == before[j],
                forall|j: int| start <= j < i ==> #[trigger] im_sf@[j] == 0,
            decreases im_sf@.len() - i,
        {
            im_sf[i] = 0;
            i = i + 1;
        }
    }
    proof {
        assert(le@.last() == le@[n - 1]);
        assert(first@ =~= aligned_firsts(lb@, segh as int));
        assert(last@ =~= aligned_ends(le@, segh as int, h as int));
        assert(im_sf@ =~= cut_below(before, le@, segh as int, w as int, h as int));
    }
    (first, last)
}

/// The pictures of one frame: its text rows, its text areas before and after
/// filtering, its edges, its bands and whether text was found.
#[derive(Debug)]
pub struct TransformedImage {
    pub im_ff: Vec<u8>,
    pub im_sf: Vec<u8>,
    pub im_tf: Vec<u8>,
    pub im_ne: Vec<u8>,
    pub im_y: Vec<u8>,
    pub lb: Vec<i32>,
    pub le: Vec<i32>,
    pub n: usize,
    pub has_text: i32,
}

/// Whether all pictures of a frame are blank.
pub open spec fn all_blank(r: TransformedImage, w: int, h: int) -> bool {
    let blank = Seq::new((w * h) as nat, |i: int| 0u8);
    &&& r.im_ff@ == blank
    &&& r.im_sf@ == blank
    &&& r.im_tf@ == blank
    &&& r.im_ne@ == blank
    &&& r.im_y@ == blank
    &&& r.lb@.len() == 0
    &&& r.le@.len() == 0
    &&& r.n == 0
    &&& r.has_text == 0
}

/// The pictures of a frame without bands of text rows: all blank.
pub fn no_text(w: usize, h: usize) -> (r: TransformedImage)
    requires
        grid::frame_size(w as int, h as int),
    ensures
        all_blank(r, w as int, h as int),
{
    let r = TransformedImage {
        im_ff: vec![0u8; w * h],
        im_sf: vec![0u8; w * h],
        im_tf: vec![0u8; w * h],
        im_ne: vec![0u8; w * h],
        im_y: vec![0u8; w * h],
        lb: Vec::new(),
        le: Vec::new(),
        n: 0,
        has_text: 0,
    };
    proof {
        let blank = Seq::new((w * h) as nat, |i: int| 0u8);
        assert(r.im_ff@ =~= blank);
        assert(r.im_sf@ =~= blank);
        assert(r.im_tf@ =~= blank);
        assert(r.im_ne@ =~= blank);
        assert(r.im_y@ =~= blank);
    }
    r
}

/// Whether `r` holds the pictures of a frame with bands of text rows: the edges
/// joined, and the text areas filtered.
pub open spec fn finished(
    r: TransformedImage,
    im_ff: Seq<u8>,
    im_sf: Seq<u8>,
    im_ne: Seq<u8>,
    im_he: Seq<u8>,
    im_y: Seq<u8>,
    lb: Seq<i32>,
    le: Seq<i32>,
    w: int,
    h: int,
    p: Params,
) -> bool {
    let ne = imgops::combined(im_ne, im_he, 255);
    let f = filter::filtered(im_sf, ne, lb, le, lb.len(), w, h, p);
    &&& r.im_ff@ == im_ff
    &&& r.im_sf@ == f.sf
    &&& r.im_tf@ == if f.tf is Some {
        f.tf->0
    } else {
        Seq::new((w * h) as nat, |i: int| 0u8)
    }
    &&& r.im_ne@ == ne
    &&& r.im_y@ == im_y
    &&& r.lb@ == lb
    &&& r.le@ == le
    &&& r.n == lb.len()
    &&& (r.has_text == 1) == f.text
    &&& r.has_text == 0 || r.has_text == 1
}

/// Joins the two edge pictures of a frame and filters its text areas.
pub fn finish_image(
    im_ff: Vec<u8>,
    im_sf: Vec<u8>,
    im_ne: Vec<u8>,
    im_he: &[u8],
    im_y: Vec<u8>,
    lb: Vec<i32>,
    le: Vec<i32>,
    w: usize,
    h: usize,
    p: &Params,
) -> (r: TransformedImage)
    requires
        p.wf(),
        grid::frame_size(w as int, h as int),
        w <= 0x7fff_ffff,
        im_sf@.len() == w * h,
        im_ne@.len() == w * h,
        lb@.len() == le@.len(),
        filter::bands_fit(lb@, le@, lb@.len() as int, h as int),
    ensures
        finished(
            r,
            im_ff@,
            im_sf@,
            im_ne@,
            im_he@,
            im_y@,
            lb@,
            le@,
            w as int,
            h as int,
            *p,
        ),
{
    let mut im_ne = im_ne;
    let mut im_sf = im_sf;
    combine_two_images(im_ne.as_mut_slice(), im_he, 255);
    let mut im_tf: Vec<u8> = vec![0u8; w * h];
    proof {
        assert(im_tf@ =~= Seq::new((w * h) as nat, |i: int| 0u8));
    }
    let n: usize = lb.len();
    let has_text: i32 = filter_transformed_image(
        im_ff.as_slice(),
        im_sf.as_mut_slice(),
        im_tf.as_mut_slice(),
        im_ne.as_slice(),
        lb.as_slice(),
        le.as_slice(),
        n,
        w,
        h,
        p,
    );
    TransformedImage { im_ff, im_sf, im_tf, im_ne, im_y, lb, le, n, has_text }
}

} // verus!
