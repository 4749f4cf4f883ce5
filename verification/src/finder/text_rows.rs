//! Rows of a frame that may hold text, found by colour contrast.

use super::grid;
use super::params::Params;
use super::runs;
use super::runs::find_runs;
use super::strip;
use super::strip::part31;
use vstd::prelude::*;

verus! {

/// The distance of two byte values.
pub open spec fn apart(a: u8, b: u8) -> int {
    if a >= b {
        a - b
    } else {
        b - a
    }
}

/// The colour difference of pixel `i` from the pixel before it.
pub open spec fn contrast(bgr: Seq<u8>, i: int) -> int {
    apart(bgr[i * 3], bgr[i * 3 - 3]) + apart(bgr[i * 3 + 1], bgr[i * 3 - 2]) + apart(
        bgr[i * 3 + 2],
        bgr[i * 3 - 1],
    )
}

/// The sum of the colour differences of the `n` pixels after pixel `a`.
pub open spec fn contrast_sum(bgr: Seq<u8>, a: int, n: nat) -> int
    decreases n,
{
    if n == 0 {
        0
    } else {
        contrast_sum(bgr, a, (n - 1) as nat) + contrast(bgr, a + n)
    }
}

/// How many segments in succession, up to segment `n - 1` of row `y`, have at
/// least the contrast `scd`.
pub open spec fn contrasted(bgr: Seq<u8>, w: int, p: Params, y: int, n: nat) -> nat
    decreases n,
{
    if n == 0 {
        0
    } else if contrast_sum(bgr, w * y + (n - 1) * p.segw, p.segw as nat) >= p.scd {
        contrasted(bgr, w, p, y, (n - 1) as nat) + 1
    } else {
        0
    }
}

/// Whether a row has enough contrasted segments in succession.
pub open spec fn text_row(bgr: Seq<u8>, w: int, p: Params, y: int) -> bool {
    exists|n: nat|
        1 <= n <= (w - 1) / (p.segw as int) && #[trigger] contrasted(bgr, w, p, y, n) == p.msegc
}

/// Rows by which a band is widened upwards and downwards.
pub const MARGIN: i32 = 12;

/// Runs of text rows made into bands. The first `n` gaps between runs have been
/// looked at: the bands that are complete, and the first row of the next one.
///
/// Runs belong to one band unless twice the margin fits between them. A band
/// that is too low is dropped.
pub open spec fn grouped(raw: Seq<(i32, i32)>, n: nat, min_h: int) -> (Seq<(i32, i32)>, int)
    decreases n,
{
    if n == 0 {
        (
            Seq::empty(),
            if raw[0].0 >= MARGIN {
                raw[0].0 - MARGIN
            } else {
                0
            },
        )
    } else {
        let (done, first) = grouped(raw, (n - 1) as nat, min_h);
        let above = raw[n - 1];
        let below = raw[n as int];
        if below.0 - above.1 - 1 < 2 * MARGIN {
            (done, first)
        } else if above.1 - first >= min_h {
            (done.push((first as i32, (above.1 + MARGIN) as i32)), below.0 - MARGIN)
        } else {
            (done, below.0 - MARGIN)
        }
    }
}

/// The text bands of a frame.
pub open spec fn text_bands(bgr: Seq<u8>, w: int, h: int, p: Params) -> Seq<(i32, i32)> {
    let raw = runs::runs(Seq::new(h as nat, |y: int| text_row(bgr, w, p, y)));
    let min_h = strip::cap31(p.min_h.part_of(h as nat));
    if raw.len() == 0 {
        Seq::empty()
    } else {
        let (done, first) = grouped(raw, (raw.len() - 1) as nat, min_h);
        let last = raw.last().1;
        if last - first >= min_h {
            done.push(
                (
                    first as i32,
                    (if last + MARGIN <= h - 1 {
                        last + MARGIN
                    } else {
                        h - 1
                    }) as i32,
                ),
            )
        } else {
            done
        }
    }
}

/// Bands in the frame, each below the one before it.
pub open spec fn stacked(bs: Seq<(i32, i32)>, h: int) -> bool {
    &&& forall|k: int| #![trigger bs[k]] 0 <= k < bs.len() ==> 0 <= bs[k].0 <= bs[k].1 < h
    &&& forall|i: int, j: int|
        #![trigger bs[i], bs[j]]
        0 <= i < j < bs.len() ==> bs[i].1 < bs[j].0
}

proof fn lemma_grouped(raw: Seq<(i32, i32)>, n: nat, min_h: int, h: int)
    requires
        runs::separated(raw, h),
        h <= 0x7fff_ffff,
        n < raw.len(),
        min_h >= 0,
    ensures
        stacked(grouped(raw, n, min_h).0, h),
        0 <= grouped(raw, n, min_h).1 <= raw[n as int].0,
        forall|k: int|
            #![trigger grouped(raw, n, min_h).0[k]]
            0 <= k < grouped(raw, n, min_h).0.len() ==> grouped(raw, n, min_h).0[k].1 < grouped(
                raw,
                n,
                min_h,
            ).1,
    decreases n,
{
    let _ = raw[n as int];
    if n > 0 {
        lemma_grouped(raw, (n - 1) as nat, min_h, h);
        let _ = raw[n - 1];
        assert(raw[n - 1].1 + 1 < raw[n as int].0);
    }
}

/// The text bands of a frame lie in it, each below the one before it.
pub proof fn text_bands_are_stacked(bgr: Seq<u8>, w: int, h: int, p: Params)
    requires
        p.wf(),
        0 <= h <= 0x7fff_ffff,
    ensures
        stacked(text_bands(bgr, w, h, p), h),
{
    let marks = Seq::new(h as nat, |y: int| text_row(bgr, w, p, y));
    runs::runs_cover(marks);
    let raw = runs::runs(marks);
    let min_h = strip::cap31(p.min_h.part_of(h as nat));
    if raw.len() > 0 {
        lemma_grouped(raw, (raw.len() - 1) as nat, min_h, h);
        let _ = raw[raw.len() - 1];
    }
}

/// The distance of two byte values.
fn gap(a: u8, b: u8) -> (r: u32)
    ensures
        r == apart(a, b),
        r <= 255,
{
    if a >= b {
        (a - b) as u32
    } else {
        (b - a) as u32
    }
}

/// Sums up the colour differences of the `n` pixels after pixel `a`.
fn sum_contrast(bgr: &[u8], a: usize, n: usize) -> (s: u64)
    requires
        (a + n + 1) * 3 <= bgr@.len(),
        n <= 0x7fff_ffff,
    ensures
        s == contrast_sum(bgr@, a as int, n as nat),
{
    let len: usize = bgr.len();
    let mut s: u64 = 0;
    let mut k: usize = 0;
    while k < n
        invariant
            k <= n <= 0x7fff_ffff,
            len == bgr@.len(),
            (a + n + 1) * 3 <= len,
            s == contrast_sum(bgr@, a as int, k as nat),
            s <= 765 * k,
        decreases n - k,
    {
        k = k + 1;
        let i: usize = (a + k) * 3;
        let d: u32 = gap(bgr[i], bgr[i - 3]) + gap(bgr[i + 1], bgr[i - 2]) + gap(
            bgr[i + 2],
            bgr[i - 1],
        );
        s = s + d as u64;
    }
    s
}

/// Decides whether a row has enough contrasted segments in succession.
fn is_text_row(bgr: &[u8], w: usize, h: usize, p: &Params, y: usize) -> (r: bool)
    requires
        p.wf(),
        grid::frame_size(w as int, h as int),
        bgr@.len() >= w * h * 3,
        y < h,
    ensures
        r == text_row(bgr@, w as int, *p, y as int),
{
    let ghost wi = w as int;
    let ghost segw = p.segw as int;
    let len: usize = bgr.len();
    let segments: usize = (w - 1) / p.segw;
    let mut count: usize = 0;
    let mut n: usize = 0;
    proof {
        grid::lemma_at(0, y as int, wi, h as int);
        assert(w * y == y * w) by (nonlinear_arith);
        vstd::arithmetic::div_mod::lemma_fundamental_div_mod(wi - 1, segw);
    }
    let start: usize = w * y;
    while n < segments
        invariant
            p.wf(),
            wi == w,
            segw == p.segw,
            len == bgr@.len(),
            bgr@.len() >= w * h * 3,
            start == w * y,
            start + w <= w * h,
            w * h <= 0x7fff_ffff,
            segments == (wi - 1) / segw,
            segw * segments <= wi - 1,
            n <= segments,
            count == contrasted(bgr@, wi, *p, y as int, n as nat),
            count <= n,
            forall|k: nat|
                1 <= k <= n ==> #[trigger] contrasted(bgr@, wi, *p, y as int, k) != p.msegc,
        decreases segments - n,
    {
        proof {
            assert(n * segw + segw <= segw * segments) by (nonlinear_arith)
                requires
                    n + 1 <= segments,
                    segw >= 1,
            ;
            assert(0 <= n * segw) by (nonlinear_arith)
                requires
                    n >= 0,
                    segw >= 1,
            ;
        }
        let sum: u64 = sum_contrast(bgr, start + n * p.segw, p.segw);
        n = n + 1;
        if p.scd < 0 || sum >= p.scd as u64 {
            count = count + 1;
        } else {
            count = 0;
        }
        if count == p.msegc {
            proof {
                assert(contrasted(bgr@, wi, *p, y as int, n as nat) == p.msegc);
            }
            return true;
        }
    }
    false
}

/// Finds the text bands of a frame: the first rows, the last rows and the
/// number of bands.
pub fn color_filtration(bgr: &[u8], w: usize, h: usize, p: &Params) -> (r: (
    Vec<i32>,
    Vec<i32>,
    usize,
))
    requires
        p.wf(),
        grid::frame_size(w as int, h as int),
        bgr@.len() >= w * h * 3,
    ensures
        ({
            let bs = text_bands(bgr@, w as int, h as int, *p);
            &&& r.2 == bs.len()
            &&& r.0@ == Seq::new(bs.len(), |k: int| bs[k].0)
            &&& r.1@ == Seq::new(bs.len(), |k: int| bs[k].1)
            &&& stacked(bs, h as int)
        }),
{
    let ghost wi = w as int;
    let ghost hi = h as int;
    let ghost bs = text_bands(bgr@, wi, hi, *p);
    proof {
        grid::lemma_sides(wi, hi);
        text_bands_are_stacked(bgr@, wi, hi, *p);
    }
    let mut marks: Vec<bool> = Vec::new();
    let mut y: usize = 0;
    while y < h
        invariant
            p.wf(),
            wi == w,
            hi == h,
            grid::frame_size(wi, hi),
            bgr@.len() >= w * h * 3,
            y <= h,
            marks@ == Seq::new(y as nat, |k: int| text_row(bgr@, wi, *p, k)),
        decreases h - y,
    {
        let m: bool = is_text_row(bgr, w, h, p, y);
        marks.push(m);
        y = y + 1;
        proof {
            assert(marks@ =~= Seq::new(y as nat, |k: int| text_row(bgr@, wi, *p, k)));
        }
    }
    proof {
        runs::runs_cover(marks@);
    }
    let raw: Vec<(i32, i32)> = find_runs(marks.as_slice());
    let mut lb: Vec<i32> = Vec::new();
    let mut le: Vec<i32> = Vec::new();
    let n: usize = raw.len();
    if n == 0 {
        proof {
            assert(lb@ =~= Seq::new(bs.len(), |k: int| bs[k].0));
            assert(le@ =~= Seq::new(bs.len(), |k: int| bs[k].1));
        }
        return (lb, le, 0);
    }
    let min_h: i64 = part31(p.min_h, h);
    let ghost mh = min_h as int;
    proof {
        let _ = raw@[0];
    }
    let mut first: i32 = if raw[0].0 >= MARGIN {
        raw[0].0 - MARGIN
    } else {
        0
    };
    let mut i: usize = 0;
    proof {
        assert(grouped(raw@, 0, mh).0 =~= Seq::empty());
    }
    while i < n - 1
        invariant
            n == raw@.len(),
            n >= 1,
            hi == h,
            h <= 0x7fff_ffff,
            runs::separated(raw@, hi),
            min_h == mh,
            0 <= mh <= 0x7fff_ffff,
            i <= n - 1,
            first == grouped(raw@, i as nat, mh).1,
            lb@.len() == grouped(raw@, i as nat, mh).0.len(),
            le@.len() == grouped(raw@, i as nat, mh).0.len(),
            forall|k: int|
                #![trigger lb@[k]]
                0 <= k < lb@.len() ==> lb@[k] == grouped(raw@, i as nat, mh).0[k].0,
            forall|k: int|
                #![trigger le@[k]]
                0 <= k < le@.len() ==> le@[k] == grouped(raw@, i as nat, mh).0[k].1,
        decreases n - i,
    {
        let above: (i32, i32) = raw[i];
        let below: (i32, i32) = raw[i + 1];
        proof {
            lemma_grouped(raw@, i as nat, mh, hi);
            assert(raw@[i as int] == above && raw@[i + 1] == below);
            assert(above.1 + 1 < below.0);
        }
        if below.0 as i64 - above.1 as i64 - 1 >= 2 * MARGIN as i64 {
            if above.1 as i64 - first as i64 >= min_h {
                lb.push(first);
                le.push(above.1 + MARGIN);
            }
            first = below.0 - MARGIN;
        }
        i = i + 1;
    }
    let last: i32 = raw[n - 1].1;
    proof {
        lemma_grouped(raw@, (n - 1) as nat, mh, hi);
        assert(raw@[n - 1] == raw@.last());
    }
    if last as i64 - first as i64 >= min_h {
        lb.push(first);
        le.push(
            if last as i64 + MARGIN as i64 <= h as i64 - 1 {
                last + MARGIN
            } else {
                (h - 1) as i32
            },
        );
    }
    proof {
        assert(lb@ =~= Seq::new(bs.len(), |k: int| bs[k].0));
        assert(le@ =~= Seq::new(bs.len(), |k: int| bs[k].1));
    }
    let count: usize = lb.len();
    (lb, le, count)
}

} // verus!
