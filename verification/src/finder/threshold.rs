//! Local thresholds: in each block of an image, values below the valley between
//! the two main peaks of the block's histogram are blanked.

use super::grid;
use vstd::prelude::*;

verus! {

/// One more than the largest value that an edge can have.
pub const MAX_EDGE_STR: usize = 45056;

/// A block of columns `x0..x1` and rows `y0..y1`.
pub struct Block {
    pub x0: int,
    pub x1: int,
    pub y0: int,
    pub y1: int,
}

impl Block {
    /// Whether a pixel lies in the block.
    pub open spec fn has(self, i: int, w: int) -> bool {
        self.x0 <= grid::col(i, w) < self.x1 && self.y0 <= grid::row(i, w) < self.y1
    }
}

/// How often `v` occurs among the first `n` pixels of an image that lie in a block.
pub open spec fn occurrences(im: Seq<u16>, w: int, b: Block, v: int, n: nat) -> nat
    decreases n,
{
    if n == 0 {
        0
    } else {
        occurrences(im, w, b, v, (n - 1) as nat) + if b.has(n - 1, w) && im[n - 1] == v {
            1nat
        } else {
            0
        }
    }
}

/// The histogram of a block. Blank pixels do not count.
pub open spec fn histogram(im: Seq<u16>, w: int, b: Block) -> Seq<nat> {
    Seq::new(
        MAX_EDGE_STR as nat,
        |v: int|
            if v == 0 {
                0
            } else {
                occurrences(im, w, b, v, im.len())
            },
    )
}

/// Whether `m` is the smallest value that occurs, or the largest possible one
/// if none occurs.
pub open spec fn is_lowest(hist: Seq<nat>, m: int) -> bool {
    &&& 0 <= m < hist.len()
    &&& forall|v: int| 0 <= v < m ==> #[trigger] hist[v] == 0
    &&& hist[m] > 0 || m == hist.len() - 1
}

/// Whether `m` is the largest value that occurs, or zero if none occurs.
pub open spec fn is_highest(hist: Seq<nat>, m: int) -> bool {
    &&& 0 <= m < hist.len()
    &&& forall|v: int| m < v < hist.len() ==> #[trigger] hist[v] == 0
    &&& hist[m] > 0 || m == 0
}

/// The smallest value that occurs.
pub open spec fn lowest(hist: Seq<nat>) -> int {
    choose|m: int| is_lowest(hist, m)
}

/// The largest value that occurs.
pub open spec fn highest(hist: Seq<nat>) -> int {
    choose|m: int| is_highest(hist, m)
}

/// The first of the values `a..b` that occurs most often, and `a` if there are none.
pub open spec fn peak(hist: Seq<nat>, a: int, b: int) -> int
    decreases b - a,
{
    if b <= a + 1 {
        a
    } else {
        let k = peak(hist, a, b - 1);
        if hist[b - 1] > hist[k] {
            b - 1
        } else {
            k
        }
    }
}

/// The first of the values `a..b` that occurs least often, if it occurs less
/// often than `top`, and `top` otherwise.
pub open spec fn valley(hist: Seq<nat>, top: int, a: int, b: int) -> int
    decreases b - a,
{
    if b <= a {
        top
    } else {
        let k = valley(hist, top, a, b - 1);
        if hist[b - 1] < hist[k] {
            b - 1
        } else {
            k
        }
    }
}

/// The threshold of a block: the valley between the peak below the middle of
/// its range and the peak above it.
pub open spec fn threshold(hist: Seq<nat>) -> int {
    let min = lowest(hist);
    let max = highest(hist);
    let mid = (min + max) / 2;
    let left = peak(hist, min, mid);
    let right = peak(hist, mid, max + 1);
    let top = if hist[left] < hist[right] {
        left
    } else {
        right
    };
    valley(hist, top, left + 1, right)
}

/// The block of a pixel, in a grid of blocks of `dw` columns and `dh` rows. The
/// last row of blocks may be lower.
pub open spec fn block_of(i: int, w: int, h: int, dw: int, dh: int) -> Block {
    let bx = grid::col(i, w) / dw;
    let by = grid::row(i, w) / dh;
    block_at(bx, by, h, dw, dh)
}

/// Block `bx` in the row `by` of blocks.
pub open spec fn block_at(bx: int, by: int, h: int, dw: int, dh: int) -> Block {
    Block {
        x0: bx * dw,
        x1: bx * dw + dw,
        y0: by * dh,
        y1: if by * dh + dh <= h {
            by * dh + dh
        } else {
            h
        },
    }
}

/// The image with a threshold applied in each block of `dw` columns and `dh`
/// rows. Columns to the right of the last whole block stay as they are, and so
/// does an image without a whole block.
pub open spec fn thresholded(im: Seq<u16>, dw: int, dh: int, w: int, h: int) -> Seq<u16> {
    Seq::new(
        im.len(),
        |i: int|
            if h / dh > 0 && grid::col(i, w) / dw < w / dw && im[i] < threshold(
                histogram(im, w, block_of(i, w, h, dw, dh)),
            ) {
                0u16
            } else {
                im[i]
            },
    )
}

pub proof fn lemma_peak(hist: Seq<nat>, a: int, b: int)
    requires
        0 <= a < hist.len(),
        b <= hist.len(),
    ensures
        a <= peak(hist, a, b) < hist.len(),
        b > a ==> peak(hist, a, b) < b,
        b <= a ==> peak(hist, a, b) == a,
    decreases b - a,
{
    if b > a + 1 {
        lemma_peak(hist, a, b - 1);
    }
}

pub proof fn lemma_lowest(hist: Seq<nat>, m: int)
    requires
        is_lowest(hist, m),
    ensures
        lowest(hist) == m,
{
    let k = lowest(hist);
    assert(is_lowest(hist, k));
    if k < m {
        assert(hist[k] == 0);
    } else if m < k {
        assert(hist[m] == 0);
    }
}

pub proof fn lemma_highest(hist: Seq<nat>, m: int)
    requires
        is_highest(hist, m),
    ensures
        highest(hist) == m,
{
    let k = highest(hist);
    assert(is_highest(hist, k));
    if k < m {
        assert(hist[m] == 0);
    } else if m < k {
        assert(hist[k] == 0);
    }
}

/// The views of counts.
pub open spec fn counts(edge_str: Seq<u32>) -> Seq<nat> {
    Seq::new(edge_str.len(), |v: int| edge_str[v] as nat)
}

/// Finds the threshold of a histogram.
fn find_threshold(edge_str: &Vec<u32>, min: usize, max: usize) -> (thr: usize)
    requires
        edge_str@.len() == MAX_EDGE_STR,
        is_lowest(counts(edge_str@), min as int),
        is_highest(counts(edge_str@), max as int),
    ensures
        thr == threshold(counts(edge_str@)),
        thr < MAX_EDGE_STR,
{
    let ghost hist = counts(edge_str@);
    proof {
        lemma_lowest(hist, min as int);
        lemma_highest(hist, max as int);
    }
    let mid: usize = (min + max) / 2;
    let mut li: usize = min;
    let mut v: usize = min;
    while v < mid
        invariant
            edge_str@.len() == MAX_EDGE_STR,
            hist == counts(edge_str@),
            min < MAX_EDGE_STR,
            mid < MAX_EDGE_STR,
            min <= v,
            v <= mid || v == min,
            li < MAX_EDGE_STR,
            min <= li,
            li == peak(hist, min as int, v as int),
        decreases mid - v,
    {
        proof {
            lemma_peak(hist, min as int, v as int);
        }
        if edge_str[v] > edge_str[li] {
            li = v;
        }
        v = v + 1;
    }
    let mut ri: usize = mid;
    let mut v: usize = mid;
    while v <= max
        invariant
            edge_str@.len() == MAX_EDGE_STR,
            hist == counts(edge_str@),
            max < MAX_EDGE_STR,
            mid < MAX_EDGE_STR,
            mid <= v,
            v <= max + 1 || v == mid,
            ri < MAX_EDGE_STR,
            mid <= ri,
            ri == peak(hist, mid as int, v as int),
        decreases max + 1 - v,
    {
        proof {
            lemma_peak(hist, mid as int, v as int);
        }
        if edge_str[v] > edge_str[ri] {
            ri = v;
        }
        v = v + 1;
    }
    proof {
        if mid > max + 1 {
            assert(peak(hist, mid as int, max + 1) == mid);
        }
        if min > mid {
            assert(peak(hist, min as int, mid as int) == min);
        }
    }
    let top: usize = if edge_str[li] < edge_str[ri] {
        li
    } else {
        ri
    };
    let mut thr: usize = top;
    let mut v: usize = li + 1;
    while v < ri
        invariant
            edge_str@.len() == MAX_EDGE_STR,
            hist == counts(edge_str@),
            ri < MAX_EDGE_STR,
            li + 1 <= v,
            v <= ri || v == li + 1,
            top < MAX_EDGE_STR,
            thr < MAX_EDGE_STR,
            thr == valley(hist, top as int, li + 1, v as int),
        decreases ri - v,
    {
        if edge_str[v] < edge_str[thr] {
            thr = v;
        }
        v = v + 1;
    }
    proof {
        if ri < li + 1 {
            assert(valley(hist, top as int, li + 1, ri as int) == top);
        }
    }
    thr
}

/// Pixels outside a block do not count.
proof fn lemma_outside(im: Seq<u16>, w: int, b: Block, v: int, a: nat, c: nat)
    requires
        a <= c,
        forall|i: int| a <= i < c ==> !#[trigger] b.has(i, w),
    ensures
        occurrences(im, w, b, v, c) == occurrences(im, w, b, v, a),
    decreases c - a,
{
    if a < c {
        lemma_outside(im, w, b, v, a, (c - 1) as nat);
        assert(!b.has(c - 1, w));
    }
}

proof fn lemma_bounded(im: Seq<u16>, w: int, b: Block, v: int, n: nat)
    ensures
        occurrences(im, w, b, v, n) <= n,
    decreases n,
{
    if n > 0 {
        lemma_bounded(im, w, b, v, (n - 1) as nat);
    }
}

/// The row and the column of a pixel between two places of an image.
proof fn lemma_between(i: int, w: int, h: int, xa: int, ya: int, xb: int, yb: int)
    requires
        0 < w,
        0 <= xa <= w,
        0 <= xb <= w,
        0 <= ya <= yb <= h,
        ya * w + xa <= i < yb * w + xb,
        i < w * h,
    ensures
        0 <= i,
        ya <= grid::row(i, w) <= yb,
        grid::row(i, w) == ya ==> grid::col(i, w) >= xa,
        grid::row(i, w) == yb ==> grid::col(i, w) < xb,
{
    grid::lemma_row_start(ya, w, h);
    grid::lemma_of(i, w, h);
    let y = grid::row(i, w);
    let x = grid::col(i, w);
    assert(y >= ya) by (nonlinear_arith)
        requires
            y * w + x >= ya * w,
            x < w,
            w > 0,
    ;
    assert(y <= yb) by (nonlinear_arith)
        requires
            y * w + x < yb * w + xb,
            0 <= x,
            xb <= w,
            w > 0,
    ;
}

/// The counts of a block so far, up to column `x` of row `y`.
spec fn counted(
    im: Seq<u16>,
    w: int,
    b: Block,
    edge_str: Seq<u32>,
    min: int,
    max: int,
    n: nat,
) -> bool {
    &&& edge_str.len() == MAX_EDGE_STR
    &&& edge_str[0] == 0
    &&& forall|v: int|
        0 < v < MAX_EDGE_STR ==> #[trigger] edge_str[v] == occurrences(im, w, b, v, n)
    &&& is_lowest(counts(edge_str), min)
    &&& is_highest(counts(edge_str), max)
}

/// Counts the values of a block. Returns the smallest and the largest one.
fn count_block(
    im: &[u16],
    edge_str: &mut Vec<u32>,
    x0: usize,
    x1: usize,
    y0: usize,
    y1: usize,
    w: usize,
    h: usize,
) -> (r: (usize, usize))
    requires
        grid::frame_size(w as int, h as int),
        im@.len() == w * h,
        forall|i: int| 0 <= i < im@.len() ==> #[trigger] im@[i] < MAX_EDGE_STR,
        x0 < x1 <= w,
        y0 <= y1 <= h,
        old(edge_str)@.len() == MAX_EDGE_STR,
        forall|v: int| 0 <= v < MAX_EDGE_STR ==> #[trigger] old(edge_str)@[v] == 0,
    ensures
        ({
            let b = Block { x0: x0 as int, x1: x1 as int, y0: y0 as int, y1: y1 as int };
            &&& final(edge_str)@.len() == MAX_EDGE_STR
            &&& counts(final(edge_str)@) == histogram(im@, w as int, b)
        }),
        is_lowest(counts(final(edge_str)@), r.0 as int),
        is_highest(counts(final(edge_str)@), r.1 as int),
{
    let ghost wi = w as int;
    let ghost hi = h as int;
    let ghost b = Block { x0: x0 as int, x1: x1 as int, y0: y0 as int, y1: y1 as int };
    let mut min: usize = MAX_EDGE_STR - 1;
    let mut max: usize = 0;
    let mut y: usize = y0;
    proof {
        grid::lemma_row_start(y0 as int, wi, hi);
        assert forall|i: int| 0 <= i < y0 * w implies !#[trigger] b.has(i, wi) by {
            lemma_between(i, wi, hi, 0, 0, 0, y0 as int);
        }
        assert forall|v: int| 0 < v < MAX_EDGE_STR implies #[trigger] edge_str@[v] == occurrences(
            im@,
            wi,
            b,
            v,
            (y0 * w) as nat,
        ) by {
            lemma_outside(im@, wi, b, v, 0, (y0 * w) as nat);
        }
    }
    while y < y1
        invariant
            grid::frame_size(wi, hi),
            wi == w,
            hi == h,
            im@.len() == w * h,
            forall|i: int| 0 <= i < im@.len() ==> #[trigger] im@[i] < MAX_EDGE_STR,
            x0 < x1 <= w,
            y0 <= y <= y1 <= h,
            b == (Block { x0: x0 as int, x1: x1 as int, y0: y0 as int, y1: y1 as int }),
            0 <= y * w <= w * h,
            counted(im@, wi, b, edge_str@, min as int, max as int, (y * w) as nat),
        decreases y1 - y,
    {
        let mut x: usize = x0;
        proof {
            grid::lemma_row_start(y as int, wi, hi);
            grid::lemma_row_start(y + 1, wi, hi);
            assert forall|i: int| y * w <= i < y * w + x0 implies !#[trigger] b.has(i, wi) by {
                lemma_between(i, wi, hi, 0, y as int, x0 as int, y as int);
            }
            assert forall|v: int| 0 < v < MAX_EDGE_STR implies #[trigger] edge_str@[v]
                == occurrences(im@, wi, b, v, (y * w + x0) as nat) by {
                lemma_outside(im@, wi, b, v, (y * w) as nat, (y * w + x0) as nat);
            }
        }
        while x < x1
            invariant
                grid::frame_size(wi, hi),
                wi == w,
                hi == h,
                im@.len() == w * h,
                forall|i: int| 0 <= i < im@.len() ==> #[trigger] im@[i] < MAX_EDGE_STR,
                x0 <= x <= x1 <= w,
                y0 <= y < y1 <= h,
                b == (Block { x0: x0 as int, x1: x1 as int, y0: y0 as int, y1: y1 as int }),
                0 <= y * w,
                y * w + w <= w * h,
                counted(im@, wi, b, edge_str@, min as int, max as int, (y * w + x) as nat),
            decreases x1 - x,
        {
            let ghost before = edge_str@;
            let ghost n = (y * w + x) as nat;
            proof {
                grid::lemma_at(x as int, y as int, wi, hi);
                assert(b.has(n as int, wi));
            }
            let val: usize = im[y * w + x] as usize;
            if val != 0 {
                if val > max {
                    max = val;
                }
                if val < min {
                    min = val;
                }
                proof {
                    lemma_bounded(im@, wi, b, val as int, n);
                }
                let c: u32 = edge_str[val];
                edge_str.set(val, c + 1);
                proof {
                    let old_hist = counts(before);
                    let hist = counts(edge_str@);
                    assert(hist =~= old_hist.update(val as int, old_hist[val as int] + 1));
                    assert forall|v: int| 0 <= v < min implies #[trigger] hist[v] == 0 by {
                        assert(old_hist[v] == 0);
                    }
                    assert forall|v: int| max < v < hist.len() implies #[trigger] hist[v] == 0 by {
                        assert(old_hist[v] == 0);
                    }
                }
            }
            proof {
                assert forall|v: int| 0 < v < MAX_EDGE_STR implies #[trigger] edge_str@[v]
                    == occurrences(im@, wi, b, v, n + 1) by {
                    let _ = before[v];
                }
            }
            x = x + 1;
        }
        proof {
            assert forall|i: int| y * w + x1 <= i < (y + 1) * w implies !#[trigger] b.has(
                i,
                wi,
            ) by {
                lemma_between(i, wi, hi, x1 as int, y as int, 0, y + 1);
            }
            assert forall|v: int| 0 < v < MAX_EDGE_STR implies #[trigger] edge_str@[v]
                == occurrences(im@, wi, b, v, ((y + 1) * w) as nat) by {
                lemma_outside(im@, wi, b, v, (y * w + x1) as nat, ((y + 1) * w) as nat);
            }
        }
        y = y + 1;
    }
    proof {
        let total = im@.len();
        assert forall|i: int| y1 * w <= i < total implies !#[trigger] b.has(i, wi) by {
            assert(w * h == h * w) by (nonlinear_arith);
            lemma_between(i, wi, hi, 0, y1 as int, 0, hi);
        }
        assert forall|v: int| 0 < v < MAX_EDGE_STR implies #[trigger] edge_str@[v] == occurrences(
            im@,
            wi,
            b,
            v,
            total,
        ) by {
            lemma_outside(im@, wi, b, v, (y1 * w) as nat, total);
        }
        assert(counts(edge_str@) =~= histogram(im@, wi, b));
    }
    (min, max)
}

/// Blanks the values of a block that are below the threshold.
fn apply_block(
    im: &mut [u16],
    thr: usize,
    x0: usize,
    x1: usize,
    y0: usize,
    y1: usize,
    w: usize,
    h: usize,
)
    requires
        grid::frame_size(w as int, h as int),
        old(im)@.len() == w * h,
        x0 < x1 <= w,
        y0 <= y1 <= h,
    ensures
        final(im)@.len() == old(im)@.len(),
        ({
            let b = Block { x0: x0 as int, x1: x1 as int, y0: y0 as int, y1: y1 as int };
            forall|i: int|
                #![trigger final(im)@[i]]
                0 <= i < old(im)@.len() ==> final(im)@[i] == if b.has(i, w as int) && old(im)@[i]
                    < thr {
                    0u16
                } else {
                    old(im)@[i]
                }
        }),
{
    let ghost wi = w as int;
    let ghost hi = h as int;
    let ghost before = im@;
    let ghost b = Block { x0: x0 as int, x1: x1 as int, y0: y0 as int, y1: y1 as int };
    let mut y: usize = y0;
    while y < y1
        invariant
            grid::frame_size(wi, hi),
            wi == w,
            hi == h,
            before.len() == w * h,
            im@.len() == before.len(),
            x0 < x1 <= w,
            y0 <= y <= y1 <= h,
            b == (Block { x0: x0 as int, x1: x1 as int, y0: y0 as int, y1: y1 as int }),
            forall|i: int|
                #![trigger im@[i]]
                0 <= i < before.len() ==> im@[i] == if b.has(i, wi) && grid::row(i, wi) < y
                    && before[i] < thr {
                    0u16
                } else {
                    before[i]
                },
        decreases y1 - y,
    {
        let mut x: usize = x0;
        while x < x1
            invariant
                grid::frame_size(wi, hi),
                wi == w,
                hi == h,
                before.len() == w * h,
                im@.len() == before.len(),
                x0 <= x <= x1 <= w,
                y0 <= y < y1 <= h,
                b == (Block { x0: x0 as int, x1: x1 as int, y0: y0 as int, y1: y1 as int }),
                forall|i: int|
                    #![trigger im@[i]]
                    0 <= i < before.len() ==> im@[i] == if b.has(i, wi) && (grid::row(i, wi) < y
                        || (grid::row(i, wi) == y && grid::col(i, wi) < x)) && before[i] < thr {
                        0u16
                    } else {
                        before[i]
                    },
            decreases x1 - x,
        {
            let ghost prev = im@;
            proof {
                grid::lemma_at(x as int, y as int, wi, hi);
            }
            let k: usize = y * w + x;
            if (im[k] as usize) < thr {
                im[k] = 0;
            }
            proof {
                assert forall|i: int|
                    #![trigger im@[i]]
                    0 <= i < before.len() implies im@[i] == if b.has(i, wi) && (grid::row(i, wi)
                    < y || (grid::row(i, wi) == y && grid::col(i, wi) < x + 1)) && before[i]
                    < thr {
                    0u16
                } else {
                    before[i]
                } by {
                    grid::lemma_of(i, wi, hi);
                    let _ = prev[i];
                }
            }
            x = x + 1;
        }
        y = y + 1;
    }
}

/// Sets the first counts back to zero.
fn reset(edge_str: &mut Vec<u32>, max: usize)
    requires
        old(edge_str)@.len() == MAX_EDGE_STR,
        max < MAX_EDGE_STR,
        forall|v: int| max < v < MAX_EDGE_STR ==> #[trigger] old(edge_str)@[v] == 0,
    ensures
        final(edge_str)@.len() == MAX_EDGE_STR,
        forall|v: int| 0 <= v < MAX_EDGE_STR ==> #[trigger] final(edge_str)@[v] == 0,
{
    let mut v: usize = 0;
    while v <= max
        invariant
            edge_str@.len() == MAX_EDGE_STR,
            max < MAX_EDGE_STR,
            v <= max + 1,
            forall|k: int| max < k < MAX_EDGE_STR ==> #[trigger] edge_str@[k] == 0,
            forall|k: int| 0 <= k < v ==> #[trigger] edge_str@[k] == 0,
        decreases max + 1 - v,
    {
        edge_str.set(v, 0);
        v = v + 1;
    }
}

/// The histogram of a block depends on the pixels in the block only.
proof fn lemma_same_histogram(a: Seq<u16>, c: Seq<u16>, w: int, b: Block, n: nat, v: int)
    requires
        a.len() == c.len(),
        n <= a.len(),
        forall|i: int| 0 <= i < a.len() && #[trigger] b.has(i, w) ==> a[i] == c[i],
    ensures
        occurrences(a, w, b, v, n) == occurrences(c, w, b, v, n),
    decreases n,
{
    if n > 0 {
        lemma_same_histogram(a, c, w, b, (n - 1) as nat, v);
        if b.has(n - 1, w) {
            assert(a[n - 1] == c[n - 1]);
        }
    }
}

/// Whether a pixel lies in one of the blocks before block `bx` of the row `by`
/// of blocks, in rows of `mx` blocks.
spec fn in_done(i: int, w: int, dw: int, dh: int, mx: int, bx: int, by: int) -> bool {
    let x = grid::col(i, w) / dw;
    let y = grid::row(i, w) / dh;
    x < mx && (y < by || (y == by && x < bx))
}

/// The pixels of a block are those whose block it is.
pub proof fn lemma_block(i: int, w: int, h: int, dw: int, dh: int, bx: int, by: int)
    requires
        0 <= i < w * h,
        0 < w,
        0 < h,
        0 < dw,
        0 < dh,
        0 <= bx,
        0 <= by,
    ensures
        block_at(bx, by, h, dw, dh).has(i, w) <==> grid::col(i, w) / dw == bx && grid::row(i, w)
            / dh == by,
{
    grid::lemma_of(i, w, h);
    let x = grid::col(i, w);
    let y = grid::row(i, w);
    lemma_cell(x, dw, bx);
    lemma_cell(y, dh, by);
}

proof fn lemma_cell(x: int, d: int, k: int)
    requires
        0 <= x,
        0 < d,
        0 <= k,
    ensures
        k * d <= x < k * d + d <==> x / d == k,
{
    vstd::arithmetic::div_mod::lemma_fundamental_div_mod(x, d);
    let q = x / d;
    assert(d * q == q * d) by (nonlinear_arith);
    if k * d <= x < k * d + d {
        vstd::arithmetic::div_mod::lemma_fundamental_div_mod_converse(x, d, k, x - k * d);
    }
}

/// Applies a threshold to one block.
fn threshold_block(
    im: &mut [u16],
    edge_str: &mut Vec<u32>,
    bx: usize,
    by: usize,
    dw: usize,
    dh: usize,
    w: usize,
    h: usize,
    Ghost(im0): Ghost<Seq<u16>>,
)
    requires
        grid::frame_size(w as int, h as int),
        h > 0,
        1 <= dw,
        1 <= dh,
        old(im)@.len() == w * h,
        im0.len() == w * h,
        forall|i: int| 0 <= i < im0.len() ==> #[trigger] im0[i] < MAX_EDGE_STR,
        bx < w / dw,
        by * dh < h,
        old(edge_str)@.len() == MAX_EDGE_STR,
        forall|v: int| 0 <= v < MAX_EDGE_STR ==> #[trigger] old(edge_str)@[v] == 0,
        h / dh > 0,
        forall|i: int|
            #![trigger old(im)@[i]]
            0 <= i < im0.len() ==> old(im)@[i] == if in_done(
                i,
                w as int,
                dw as int,
                dh as int,
                w as int / dw as int,
                bx as int,
                by as int,
            ) {
                thresholded(im0, dw as int, dh as int, w as int, h as int)[i]
            } else {
                im0[i]
            },
    ensures
        final(im)@.len() == im0.len(),
        final(edge_str)@.len() == MAX_EDGE_STR,
        forall|v: int| 0 <= v < MAX_EDGE_STR ==> #[trigger] final(edge_str)@[v] == 0,
        forall|i: int|
            #![trigger final(im)@[i]]
            0 <= i < im0.len() ==> final(im)@[i] == if in_done(
                i,
                w as int,
                dw as int,
                dh as int,
                w as int / dw as int,
                bx + 1,
                by as int,
            ) {
                thresholded(im0, dw as int, dh as int, w as int, h as int)[i]
            } else {
                im0[i]
            },
{
    let ghost wi = w as int;
    let ghost hi = h as int;
    let ghost dwi = dw as int;
    let ghost dhi = dh as int;
    let ghost before = im@;
    let ghost b = block_at(bx as int, by as int, hi, dwi, dhi);
    let ghost goal = thresholded(im0, dwi, dhi, wi, hi);
    proof {
        grid::lemma_sides(wi, hi);
        vstd::arithmetic::div_mod::lemma_fundamental_div_mod(wi, dwi);
        assert(bx * dw + dw <= dw * (wi / dwi)) by (nonlinear_arith)
            requires
                bx + 1 <= wi / dwi,
                dw >= 1,
        ;
        assert(0 <= bx * dw && 0 <= by * dh) by (nonlinear_arith)
            requires
                bx >= 0,
                by >= 0,
                dw >= 1,
                dh >= 1,
        ;
        vstd::arithmetic::div_mod::lemma_fundamental_div_mod(hi, dhi);
        assert(dhi <= dhi * (hi / dhi)) by (nonlinear_arith)
            requires
                hi / dhi >= 1,
                dhi >= 1,
        ;
        assert(dh <= h);
    }
    let x0: usize = bx * dw;
    let x1: usize = x0 + dw;
    let y0: usize = by * dh;
    let y1: usize = if h - y0 >= dh {
        y0 + dh
    } else {
        h
    };
    proof {
        assert(b == (Block { x0: x0 as int, x1: x1 as int, y0: y0 as int, y1: y1 as int }));
        assert forall|i: int| 0 <= i < im0.len() && #[trigger] b.has(i, wi) implies before[i]
            == im0[i] by {
            lemma_block(i, wi, hi, dwi, dhi, bx as int, by as int);
        }
        assert forall|i: int| 0 <= i < im0.len() implies #[trigger] before[i] < MAX_EDGE_STR by {
            assert(im0[i] < MAX_EDGE_STR);
        }
    }
    let (min, max) = count_block(im, edge_str, x0, x1, y0, y1, w, h);
    proof {
        assert(histogram(before, wi, b) =~= histogram(im0, wi, b)) by {
            assert forall|v: int| 0 <= v < MAX_EDGE_STR implies histogram(before, wi, b)[v]
                == histogram(im0, wi, b)[v] by {
                lemma_same_histogram(before, im0, wi, b, im0.len(), v);
            }
        }
    }
    let thr: usize = find_threshold(edge_str, min, max);
    apply_block(im, thr, x0, x1, y0, y1, w, h);
    proof {
        assert forall|v: int| max < v < MAX_EDGE_STR implies #[trigger] edge_str@[v] == 0 by {
            assert(counts(edge_str@)[v] == 0);
        }
        assert forall|i: int|
            #![trigger im@[i]]
            0 <= i < im0.len() implies im@[i] == if in_done(
            i,
            wi,
            dwi,
            dhi,
            wi / dwi,
            bx + 1,
            by as int,
        ) {
            goal[i]
        } else {
            im0[i]
        } by {
            lemma_block(i, wi, hi, dwi, dhi, bx as int, by as int);
            let _ = before[i];
        }
    }
    reset(edge_str, max);
}

/// Applies a threshold in each block of `dw` columns and `dh` rows. The blocks
/// at the bottom may be lower.
pub fn find_and_apply_local_thresholding(
    im: &mut [u16],
    dw: usize,
    dh: usize,
    w: usize,
    h: usize,
)
    requires
        grid::frame_size(w as int, h as int),
        1 <= dw,
        1 <= dh,
        old(im)@.len() == w * h,
        forall|i: int| 0 <= i < old(im)@.len() ==> #[trigger] old(im)@[i] < MAX_EDGE_STR,
    ensures
        final(im)@ == thresholded(old(im)@, dw as int, dh as int, w as int, h as int),
{
    let ghost im0 = im@;
    let ghost wi = w as int;
    let ghost hi = h as int;
    let ghost dwi = dw as int;
    let ghost dhi = dh as int;
    let ghost goal = thresholded(im0, dwi, dhi, wi, hi);
    let mx: usize = w / dw;
    let my: usize = h / dh;
    proof {
        grid::lemma_sides(wi, hi);
        vstd::arithmetic::div_mod::lemma_fundamental_div_mod(hi, dhi);
    }
    if mx == 0 || my == 0 {
        proof {
            assert forall|i: int| 0 <= i < im0.len() implies im0[i] == goal[i] by {
                grid::lemma_of(i, wi, hi);
                let x = grid::col(i, wi);
                assert(x / dwi >= 0) by (nonlinear_arith)
                    requires
                        x >= 0,
                        dwi >= 1,
                ;
            }
            assert(im@ =~= goal);
        }
        return;
    }
    let rows: usize = if h % dh == 0 {
        my
    } else {
        my + 1
    };
    let mut edge_str: Vec<u32> = vec![0u32; MAX_EDGE_STR];
    let mut by: usize = 0;
    proof {
        assert(h > 0);
        assert forall|i: int|
            #![trigger im@[i]]
            0 <= i < im0.len() implies im@[i] == if in_done(i, wi, dwi, dhi, mx as int, 0, 0) {
            goal[i]
        } else {
            im0[i]
        } by {
            grid::lemma_of(i, wi, hi);
            let y = grid::row(i, wi);
            assert(y / dhi >= 0) by (nonlinear_arith)
                requires
                    y >= 0,
                    dhi >= 1,
            ;
            let x = grid::col(i, wi);
            assert(x / dwi >= 0) by (nonlinear_arith)
                requires
                    x >= 0,
                    dwi >= 1,
            ;
        }
    }
    while by < rows
        invariant
            grid::frame_size(wi, hi),
            wi == w,
            hi == h,
            h > 0,
            h <= 0x7fff_ffff,
            dwi == dw,
            dhi == dh,
            1 <= dw,
            1 <= dh,
            im0.len() == w * h,
            im@.len() == im0.len(),
            forall|i: int| 0 <= i < im0.len() ==> #[trigger] im0[i] < MAX_EDGE_STR,
            goal == thresholded(im0, dwi, dhi, wi, hi),
            mx == wi / dwi,
            mx > 0,
            my == hi / dhi,
            my > 0,
            hi == dhi * my + hi % dhi,
            rows == if hi % dhi == 0 {
                my as int
            } else {
                my + 1
            },
            by <= rows,
            edge_str@.len() == MAX_EDGE_STR,
            forall|v: int| 0 <= v < MAX_EDGE_STR ==> #[trigger] edge_str@[v] == 0,
            forall|i: int|
                #![trigger im@[i]]
                0 <= i < im0.len() ==> im@[i] == if in_done(
                    i,
                    wi,
                    dwi,
                    dhi,
                    mx as int,
                    0,
                    by as int,
                ) {
                    goal[i]
                } else {
                    im0[i]
                },
        decreases rows - by,
    {
        proof {
            assert(by * dh < h) by (nonlinear_arith)
                requires
                    by < rows,
                    rows == if hi % dhi == 0 {
                        my as int
                    } else {
                        my + 1
                    },
                    hi == dhi * my + hi % dhi,
                    hi % dhi >= 0,
                    hi == h,
                    dhi == dh,
                    dh >= 1,
            ;
        }
        let mut bx: usize = 0;
        while bx < mx
            invariant
                grid::frame_size(wi, hi),
                wi == w,
                hi == h,
                h > 0,
                dwi == dw,
                dhi == dh,
                1 <= dw,
                1 <= dh,
                im0.len() == w * h,
                im@.len() == im0.len(),
                forall|i: int| 0 <= i < im0.len() ==> #[trigger] im0[i] < MAX_EDGE_STR,
                goal == thresholded(im0, dwi, dhi, wi, hi),
                mx == wi / dwi,
                hi / dhi > 0,
                by * dh < h,
                bx <= mx,
                edge_str@.len() == MAX_EDGE_STR,
                forall|v: int| 0 <= v < MAX_EDGE_STR ==> #[trigger] edge_str@[v] == 0,
                forall|i: int|
                    #![trigger im@[i]]
                    0 <= i < im0.len() ==> im@[i] == if in_done(
                        i,
                        wi,
                        dwi,
                        dhi,
                        mx as int,
                        bx as int,
                        by as int,
                    ) {
                        goal[i]
                    } else {
                        im0[i]
                    },
            decreases mx - bx,
        {
            threshold_block(im, &mut edge_str, bx, by, dw, dh, w, h, Ghost(im0));
            bx = bx + 1;
        }
        proof {
            assert forall|i: int|
                #![trigger im@[i]]
                0 <= i < im0.len() implies im@[i] == if in_done(
                i,
                wi,
                dwi,
                dhi,
                mx as int,
                0,
                by + 1,
            ) {
                goal[i]
            } else {
                im0[i]
            } by {
                grid::lemma_of(i, wi, hi);
                let x = grid::col(i, wi);
                assert(x / dwi >= 0) by (nonlinear_arith)
                    requires
                        x >= 0,
                        dwi >= 1,
                ;
            }
        }
        by = by + 1;
    }
    proof {
        assert forall|i: int| 0 <= i < im0.len() implies im@[i] == goal[i] by {
            grid::lemma_of(i, wi, hi);
            let y = grid::row(i, wi);
            assert(y / dhi < rows) by {
                vstd::arithmetic::div_mod::lemma_fundamental_div_mod(y, dhi);
                let q = y / dhi;
                assert(q < rows) by (nonlinear_arith)
                    requires
                        y == dhi * q + y % dhi,
                        y % dhi >= 0,
                        y < hi,
                        hi == dhi * my + hi % dhi,
                        hi % dhi < dhi,
                        dhi >= 1,
                        rows == if hi % dhi == 0 {
                            my as int
                        } else {
                            my + 1
                        },
                ;
            }
            let _ = im@[i];
        }
        assert(im@ =~= goal);
    }
}

} // verus!
