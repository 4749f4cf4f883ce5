//! Which edges are strong enough for their surroundings.
use super::agreement;
use super::agreement::number;
use super::compare;
use super::grid;
use super::threshold;
use super::threshold::Block;
use vstd::prelude::*;

verus! {

/// Whether two pixels lie in the same block of an image that is divided into
/// blocks of `dw` columns and `dh` rows.
pub open spec fn same_block(i: int, j: int, w: int, dw: int, dh: int) -> bool {
    (i % w) / dw == (j % w) / dw && (i / w) / dh == (j / w) / dh
}

/// Whether a pixel of the block of another one has a value.
pub open spec fn has_value(
    im: Seq<u16>,
    w: int,
    dw: int,
    dh: int,
    i: int,
    v: int,
) -> spec_fn(int) -> bool {
    |j: int| same_block(i, j, w, dw, dh) && im[j] == v
}

/// How many pixels of the block of a pixel have each of the values; zero does not
/// count.
pub open spec fn how_often(im: Seq<u16>, w: int, dw: int, dh: int, i: int) -> Seq<nat> {
    Seq::new(
        45056,
        |v: int|
            if v == 0 {
                0
            } else {
                number(has_value(im, w, dw, dh, i, v), 0, im.len() as int)
            },
    )
}

/// Whether a value lies between the most common value of the lower half of the
/// values that occur and that of the upper half, where none is less common.
pub open spec fn lies_between(
    often: Seq<nat>,
    low: int,
    high: int,
    left: int,
    right: int,
    t: int,
) -> bool {
    let mid = (low + high) / 2;
    &&& low <= left && (left < mid || left == low)
    &&& mid <= right <= high
    &&& left <= t <= right
    &&& forall|v: int| low <= v < mid ==> #[trigger] often[v] <= often[left]
    &&& forall|v: int| mid <= v <= high ==> #[trigger] often[v] <= often[right]
    &&& forall|v: int| left < v < right ==> often[t] <= #[trigger] often[v]
    &&& often[t] <= often[left]
    &&& often[t] <= often[right]
}

/// Whether a value parts weak edges from strong ones.
pub open spec fn parts(often: Seq<nat>, low: int, high: int, t: int) -> bool {
    exists|left: int, right: int| #[trigger] lies_between(often, low, high, left, right, t)
}

/// Whether two values are the lowest and the highest that occur.
pub open spec fn are_ends(often: Seq<nat>, low: int, high: int) -> bool {
    &&& 0 < low <= high < often.len()
    &&& often[low] > 0
    &&& often[high] > 0
    &&& forall|v: int| 0 <= v < low || high < v < often.len() ==> #[trigger] often[v] == 0
}

proof fn lemma_often(im: Seq<u16>, w: int, b: Block, v: int, n: nat, f: spec_fn(int) -> bool)
    requires
        n <= im.len(),
        forall|j: int| 0 <= j < im.len() ==> #[trigger] f(j) == (b.has(j, w) && im[j] == v),
    ensures
        threshold::occurrences(im, w, b, v, n) == compare::count_if(f, 0, n as int),
    decreases n,
{
    if n > 0 {
        lemma_often(im, w, b, v, (n - 1) as nat, f);
        assert(f(n - 1) == (b.has(n - 1, w) && im[n - 1] == v));
    }
}

proof fn lemma_histogram(im: Seq<u16>, dw: int, dh: int, w: int, h: int, i: int)
    requires
        0 <= i < im.len(),
        im.len() == w * h,
        0 < w,
        0 < h,
        0 < dw,
        0 < dh,
    ensures
        threshold::histogram(im, w, threshold::block_of(i, w, h, dw, dh)) == how_often(
            im,
            w,
            dw,
            dh,
            i,
        ),
{
    let b = threshold::block_of(i, w, h, dw, dh);
    let hist = threshold::histogram(im, w, b);
    let often = how_often(im, w, dw, dh, i);
    grid::lemma_of(i, w, h);
    let bx = grid::col(i, w) / dw;
    let by = grid::row(i, w) / dh;
    assert(0 <= bx && 0 <= by) by (nonlinear_arith)
        requires
            bx == grid::col(i, w) / dw,
            by == grid::row(i, w) / dh,
            grid::col(i, w) >= 0,
            grid::row(i, w) >= 0,
            dw > 0,
            dh > 0,
    ;
    assert forall|v: int| 0 <= v < 45056 implies hist[v] == often[v] by {
        if v > 0 {
            let f = has_value(im, w, dw, dh, i, v);
            assert forall|j: int| 0 <= j < im.len() implies #[trigger] f(j) == (b.has(j, w)
                && im[j] == v) by {
                threshold::lemma_block(j, w, h, dw, dh, bx, by);
            }
            lemma_often(im, w, b, v, im.len(), f);
            agreement::lemma_number(f, 0, im.len() as int);
        }
    }
    assert(hist =~= often);
}

proof fn lemma_low(hist: Seq<nat>, v: int) -> (m: int)
    requires
        0 <= v < hist.len(),
        hist[v] > 0,
    ensures
        threshold::is_lowest(hist, m),
        hist[m] > 0,
        m <= v,
    decreases v,
{
    if exists|u: int| 0 <= u < v && #[trigger] hist[u] > 0 {
        let u = choose|u: int| 0 <= u < v && #[trigger] hist[u] > 0;
        lemma_low(hist, u)
    } else {
        v
    }
}

proof fn lemma_high(hist: Seq<nat>, v: int) -> (m: int)
    requires
        0 <= v < hist.len(),
        hist[v] > 0,
    ensures
        threshold::is_highest(hist, m),
        hist[m] > 0,
        m >= v,
    decreases hist.len() - v,
{
    if exists|u: int| v < u < hist.len() && #[trigger] hist[u] > 0 {
        let u = choose|u: int| v < u < hist.len() && #[trigger] hist[u] > 0;
        lemma_high(hist, u)
    } else {
        v
    }
}

proof fn lemma_peak(hist: Seq<nat>, a: int, b: int)
    requires
        0 <= a < hist.len(),
        b <= hist.len(),
    ensures
        forall|v: int| a <= v < b ==> #[trigger] hist[v] <= hist[threshold::peak(hist, a, b)],
    decreases b - a,
{
    threshold::lemma_peak(hist, a, b);
    if b > a + 1 {
        lemma_peak(hist, a, b - 1);
    }
}

proof fn lemma_valley(hist: Seq<nat>, top: int, a: int, b: int)
    requires
        0 <= a,
        b <= hist.len(),
    ensures
        ({
            let t = threshold::valley(hist, top, a, b);
            &&& t == top || a <= t < b
            &&& hist[t] <= hist[top]
            &&& forall|v: int| a <= v < b ==> hist[t] <= #[trigger] hist[v]
        }),
    decreases b - a,
{
    if b > a {
        lemma_valley(hist, top, a, b - 1);
    }
}

proof fn lemma_parts(hist: Seq<nat>, low: int, high: int)
    requires
        are_ends(hist, low, high),
    ensures
        parts(hist, low, high, threshold::threshold(hist)),
        threshold::threshold(hist) <= high,
{
    assert(threshold::is_lowest(hist, low));
    assert(threshold::is_highest(hist, high));
    threshold::lemma_lowest(hist, low);
    threshold::lemma_highest(hist, high);
    let mid = (low + high) / 2;
    threshold::lemma_peak(hist, low, mid);
    threshold::lemma_peak(hist, mid, high + 1);
    lemma_peak(hist, low, mid);
    lemma_peak(hist, mid, high + 1);
    let left = threshold::peak(hist, low, mid);
    let right = threshold::peak(hist, mid, high + 1);
    let top = if hist[left] < hist[right] {
        left
    } else {
        right
    };
    lemma_valley(hist, top, left + 1, right);
    let t = threshold::threshold(hist);
    assert(lies_between(hist, low, high, left, right, t));
}

/// Whether a pixel belongs to the blocks: those of the columns beyond the last
/// whole block do not.
pub open spec fn in_a_block(i: int, w: int, h: int, dw: int, dh: int) -> bool {
    h / dh > 0 && (i % w) / dw < w / dw
}

/// Whether what is left of the block of a pixel is what reaches a value.
pub open spec fn cut_at(
    before: Seq<u16>,
    after: Seq<u16>,
    w: int,
    dw: int,
    dh: int,
    i: int,
    t: int,
) -> bool {
    forall|j: int|
        0 <= j < before.len() && same_block(i, j, w, dw, dh) ==> #[trigger] after[j] == if before[j]
            < t {
            0u16
        } else {
            before[j]
        }
}

/// In each block the edges are parted: those below a value that parts weak edges
/// from strong ones go, the others stay.
pub proof fn weak_edges_of_a_block_go(
    im: Seq<u16>,
    dw: int,
    dh: int,
    w: int,
    h: int,
    i: int,
    low: int,
    high: int,
)
    requires
        im.len() == w * h,
        0 <= i < im.len(),
        0 < w,
        0 < h,
        0 < dw,
        0 < dh,
        in_a_block(i, w, h, dw, dh),
        are_ends(how_often(im, w, dw, dh, i), low, high),
    ensures
        exists|t: int| #[trigger]
            cut_at(im, threshold::thresholded(im, dw, dh, w, h), w, dw, dh, i, t) && parts(
                how_often(im, w, dw, dh, i),
                low,
                high,
                t,
            ),
{
    let hist = threshold::histogram(im, w, threshold::block_of(i, w, h, dw, dh));
    lemma_histogram(im, dw, dh, w, h, i);
    lemma_parts(hist, low, high);
    let t = threshold::threshold(hist);
    let r = threshold::thresholded(im, dw, dh, w, h);
    assert forall|j: int| 0 <= j < im.len() && same_block(i, j, w, dw, dh) implies #[trigger] r[j]
        == if im[j] < t {
        0u16
    } else {
        im[j]
    } by {
        assert(threshold::block_of(j, w, h, dw, dh) == threshold::block_of(i, w, h, dw, dh));
    }
    assert(cut_at(im, r, w, dw, dh, i, t));
}

/// The strongest edge of a block stays, and so does every one that is as strong as
/// one that stays. Beyond the last whole block nothing goes.
pub proof fn strong_edges_stay(im: Seq<u16>, dw: int, dh: int, w: int, h: int, i: int, j: int)
    requires
        im.len() == w * h,
        0 <= i < im.len(),
        0 <= j < im.len(),
        0 < w,
        0 < h,
        0 < dw,
        0 < dh,
        same_block(i, j, w, dw, dh),
        forall|k: int| 0 <= k < im.len() ==> #[trigger] im[k] < 45056,
    ensures
        ({
            let r = threshold::thresholded(im, dw, dh, w, h);
            &&& im[i] <= im[j] && im[i] > 0 && r[i] == im[i] ==> r[j] == im[j]
            &&& (forall|k: int|
                0 <= k < im.len() && same_block(i, k, w, dw, dh) ==> #[trigger] im[k] <= im[i])
                ==> r[i] == im[i]
            &&& !in_a_block(i, w, h, dw, dh) ==> r[i] == im[i]
        }),
{
    let r = threshold::thresholded(im, dw, dh, w, h);
    assert(threshold::block_of(j, w, h, dw, dh) == threshold::block_of(i, w, h, dw, dh));
    if im[i] > 0 && in_a_block(i, w, h, dw, dh) && (forall|k: int|
        0 <= k < im.len() && same_block(i, k, w, dw, dh) ==> #[trigger] im[k] <= im[i]) {
        let hist = threshold::histogram(im, w, threshold::block_of(i, w, h, dw, dh));
        lemma_histogram(im, dw, dh, w, h, i);
        let top = im[i] as int;
        lemma_counted(im, dw, dh, w, i);
        let low = lemma_low(hist, top);
        let high = lemma_high(hist, top);
        if high > top {
            lemma_none(im, dw, dh, w, i, high);
        }
        assert(hist[0] == 0);
        assert(are_ends(hist, low, high));
        lemma_parts(hist, low, high);
    }
}

proof fn lemma_counted(im: Seq<u16>, dw: int, dh: int, w: int, i: int)
    requires
        0 <= i < im.len(),
        0 < im[i] < 45056,
    ensures
        how_often(im, w, dw, dh, i)[im[i] as int] > 0,
{
    let f = has_value(im, w, dw, dh, i, im[i] as int);
    assert(f(i));
    agreement::lemma_some(f, 0, im.len() as int);
}

proof fn lemma_none(im: Seq<u16>, dw: int, dh: int, w: int, i: int, v: int)
    requires
        0 <= i < im.len(),
        im[i] < v < 45056,
        forall|k: int|
            0 <= k < im.len() && same_block(i, k, w, dw, dh) ==> #[trigger] im[k] <= im[i],
    ensures
        how_often(im, w, dw, dh, i)[v] == 0,
{
    let f = has_value(im, w, dw, dh, i, v);
    agreement::lemma_some(f, 0, im.len() as int);
    if number(f, 0, im.len() as int) > 0 {
        let j = choose|j: int| 0 <= j < im.len() && #[trigger] f(j);
        assert(im[j] <= im[i]);
    }
}

} // verus!
