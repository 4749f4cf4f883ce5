//! Intersection of neighbouring frames, and the decision whether a frame has
//! a line of text.

use super::grid;
use super::imgops;
use super::params::Params;
use super::plane::Plane;
use super::strip;
use vstd::prelude::*;

verus! {

/// Where the text of a line is expected.
#[derive(Clone, Copy, Debug, PartialEq, Eq, Structural)]
pub enum TextAlignment {
    Any,
    Center,
    Left,
    Right,
}

impl Default for TextAlignment {
    fn default() -> (a: TextAlignment)
        ensures
            a == TextAlignment::Any,
    {
        TextAlignment::Any
    }
}

/// `a` with every pixel blanked that is blank in `b`.
pub fn intersect_two_images(a: &Plane, b: &Plane) -> (out: Plane)
    requires
        a.rows() == b.rows(),
        a.cols() == b.cols(),
    ensures
        out.rows() == a.rows(),
        out.cols() == a.cols(),
        out@ == imgops::masked(a@, b@, 0u8),
{
    let (h, w) = a.dim();
    let _ = b.dim();
    let ghost wi = w as int;
    let ghost hi = h as int;
    let ghost goal = imgops::masked(a@, b@, 0u8);
    let mut out: Plane = a.duplicate();
    let mut y: usize = 0;
    proof {
        assert(h * w == w * h) by (nonlinear_arith);
        assert forall|i: int| 0 <= i < a@.len() implies grid::row(i, wi) >= 0 by {
            grid::lemma_of(i, wi, hi);
        }
    }
    while y < h
        invariant
            wi == w,
            hi == h,
            a.rows() == h && a.cols() == w && a@.len() == w * h,
            b.rows() == h && b.cols() == w && b@.len() == w * h,
            out.rows() == h && out.cols() == w && out@.len() == w * h,
            goal == imgops::masked(a@, b@, 0u8),
            y <= h,
            forall|i: int|
                0 <= i < w * h ==> #[trigger] out@[i] == if grid::row(i, wi) < y {
                    goal[i]
                } else {
                    a@[i]
                },
        decreases h - y,
    {
        let mut x: usize = 0;
        while x < w
            invariant
                wi == w,
                hi == h,
                a.rows() == h && a.cols() == w && a@.len() == w * h,
                b.rows() == h && b.cols() == w && b@.len() == w * h,
                out.rows() == h && out.cols() == w && out@.len() == w * h,
                goal == imgops::masked(a@, b@, 0u8),
                y < h,
                x <= w,
                forall|i: int|
                    0 <= i < w * h ==> #[trigger] out@[i] == if grid::row(i, wi) < y || (grid::row(
                        i,
                        wi,
                    ) == y && grid::col(i, wi) < x) {
                        goal[i]
                    } else {
                        a@[i]
                    },
            decreases w - x,
        {
            let ghost before = out@;
            proof {
                grid::lemma_at(x as int, y as int, wi, hi);
            }
            if b.get(y, x) == 0 {
                out.set(y, x, 0);
            }
            proof {
                assert forall|i: int| 0 <= i < w * h implies #[trigger] out@[i] == if grid::row(
                    i,
                    wi,
                ) < y || (grid::row(i, wi) == y && grid::col(i, wi) < x + 1) {
                    goal[i]
                } else {
                    a@[i]
                } by {
                    grid::lemma_of(i, wi, hi);
                    let _ = before[i];
                }
            }
            x = x + 1;
        }
        proof {
            assert forall|i: int| 0 <= i < w * h implies #[trigger] out@[i] == if grid::row(i, wi)
                < y + 1 {
                goal[i]
            } else {
                a@[i]
            } by {
                grid::lemma_of(i, wi, hi);
            }
        }
        y = y + 1;
    }
    proof {
        assert forall|i: int| 0 <= i < w * h implies #[trigger] out@[i] == goal[i] by {
            grid::lemma_of(i, wi, hi);
        }
        assert(out@ =~= goal);
    }
    out
}

/// Whether column `x` has a white pixel in the rows `top..top + rows`.
pub open spec fn text_column(im: Seq<u8>, w: int, top: int, rows: int, x: int) -> bool {
    exists|y: int| top <= y < top + rows && #[trigger] grid::at(im, w, x, y) == 255
}

/// The number of the first `n` columns that have a white pixel in the rows
/// `top..top + rows`.
pub open spec fn text_columns(im: Seq<u8>, w: int, top: int, rows: int, n: nat) -> nat
    decreases n,
{
    if n == 0 {
        0
    } else {
        text_columns(im, w, top, rows, (n - 1) as nat) + if text_column(im, w, top, rows, n - 1) {
            1nat
        } else {
            0
        }
    }
}

/// The number of white pixels in strip `k`.
pub open spec fn density(im: Seq<u8>, w: int, segh: int, k: int) -> nat {
    strip::count_white(im, k * segh * w, (k + 1) * segh * w)
}

/// Whether `k` is the first of the `n` strips with the most white pixels.
pub open spec fn densest(im: Seq<u8>, w: int, segh: int, n: int, k: int) -> bool {
    &&& 0 <= k < n
    &&& forall|j: int| 0 <= j < n ==> #[trigger] density(im, w, segh, j) <= density(im, w, segh, k)
    &&& forall|j: int| 0 <= j < k ==> #[trigger] density(im, w, segh, j) < density(im, w, segh, k)
}

/// Whether an image has a line of text: more columns with a white pixel in its
/// densest strip than the minimal text length.
pub open spec fn has_text(im: Seq<u8>, w: int, h: int, p: Params) -> bool {
    exists|k: int|
        #![trigger densest(im, w, p.segh as int, h / p.segh as int, k)]
        densest(im, w, p.segh as int, h / p.segh as int, k) && text_columns(
            im,
            w,
            k * p.segh,
            p.segh as int,
            w as nat,
        ) > p.mtpl.part_of(w as nat)
}

proof fn lemma_strip_rows(k: int, segh: int, w: int, h: int)
    requires
        0 <= k,
        1 <= segh,
        0 <= w,
        0 <= h,
        k + 1 <= h / segh,
    ensures
        0 <= k * segh,
        (k + 1) * segh == k * segh + segh,
        (k + 1) * segh <= h,
{
    vstd::arithmetic::div_mod::lemma_fundamental_div_mod(h, segh);
    assert(0 <= k * segh && (k + 1) * segh == k * segh + segh && (k + 1) * segh <= segh * (h
        / segh)) by (nonlinear_arith)
        requires
            0 <= k,
            1 <= segh,
            k + 1 <= h / segh,
    ;
}

/// Counts the white pixels of strip `k`.
fn count_strip(frame: &Plane, w: usize, h: usize, segh: usize, k: usize) -> (c: u64)
    requires
        frame.rows() == h,
        frame.cols() == w,
        frame@.len() == w * h,
        w * h <= 0x7fff_ffff,
        1 <= segh,
        k + 1 <= h / segh,
    ensures
        c == density(frame@, w as int, segh as int, k as int),
{
    let ghost wi = w as int;
    let ghost hi = h as int;
    proof {
        lemma_strip_rows(k as int, segh as int, wi, hi);
        grid::lemma_row_start(k * segh, wi, hi);
        assert(k * segh * w == (k * segh) * w);
    }
    let top: usize = k * segh;
    let ghost start = top * w;
    let mut c: u64 = 0;
    let mut y: usize = top;
    while y < top + segh
        invariant
            wi == w,
            hi == h,
            frame.rows() == h,
            frame.cols() == w,
            frame@.len() == w * h,
            w * h <= 0x7fff_ffff,
            top <= y <= top + segh <= h,
            start == top * w,
            0 <= start,
            c == strip::count_white(frame@, start as int, y * w),
            c <= y * w,
        decreases top + segh - y,
    {
        let mut x: usize = 0;
        proof {
            grid::lemma_row_start(y as int, wi, hi);
            grid::lemma_row_start(y + 1, wi, hi);
            assert(start <= y * w) by (nonlinear_arith)
                requires
                    start == top * w,
                    top <= y,
                    w >= 0,
            ;
        }
        while x < w
            invariant
                wi == w,
                hi == h,
                frame.rows() == h,
                frame.cols() == w,
                frame@.len() == w * h,
                w * h <= 0x7fff_ffff,
                y < h,
                x <= w,
                0 <= start <= y * w,
                y * w + w <= w * h,
                c == strip::count_white(frame@, start as int, y * w + x),
                c <= y * w + x,
            decreases w - x,
        {
            proof {
                grid::lemma_at(x as int, y as int, wi, hi);
            }
            if frame.get(y, x) == 255 {
                c = c + 1;
            }
            x = x + 1;
            proof {
                assert(strip::count_white(frame@, start as int, y * w + x) == strip::count_white(
                    frame@,
                    start as int,
                    y * w + x - 1,
                ) + if frame@[y * w + x - 1] == 255 {
                    1nat
                } else {
                    0
                });
            }
        }
        y = y + 1;
    }
    proof {
        assert((k + 1) * segh * w == ((k + 1) * segh) * w);
    }
    c
}

/// Counts the columns that have a white pixel in the rows `top..top + segh`.
fn count_columns(frame: &Plane, w: usize, h: usize, segh: usize, top: usize) -> (c: u64)
    requires
        frame.rows() == h,
        frame.cols() == w,
        frame@.len() == w * h,
        w * h <= 0x7fff_ffff,
        top + segh <= h,
    ensures
        c == text_columns(frame@, w as int, top as int, segh as int, w as nat),
{
    let ghost wi = w as int;
    let ghost hi = h as int;
    let ghost t = top as int;
    let ghost s = segh as int;
    let mut c: u64 = 0;
    let mut x: usize = 0;
    while x < w
        invariant
            wi == w,
            hi == h,
            t == top,
            s == segh,
            frame.rows() == h,
            frame.cols() == w,
            frame@.len() == w * h,
            w * h <= 0x7fff_ffff,
            top + segh <= h,
            x <= w,
            c == text_columns(frame@, wi, t, s, x as nat),
            c <= x,
        decreases w - x,
    {
        let mut found: bool = false;
        let mut y: usize = top;
        while y < top + segh && !found
            invariant
                wi == w,
                hi == h,
                t == top,
                s == segh,
                frame.rows() == h,
                frame.cols() == w,
                frame@.len() == w * h,
                top + segh <= h,
                x < w,
                top <= y <= top + segh,
                found ==> text_column(frame@, wi, t, s, x as int),
                !found ==> forall|k: int|
                    t <= k < y ==> #[trigger] grid::at(frame@, wi, x as int, k) != 255,
            decreases top + segh - y, (if found { 0int } else { 1int }),
        {
            if frame.get(y, x) == 255 {
                found = true;
            } else {
                y = y + 1;
            }
        }
        if found {
            c = c + 1;
        }
        x = x + 1;
    }
    c
}

/// Decides whether an image has a line of text: whether more columns of its
/// densest strip have a white pixel than the minimal text length.
pub fn analyse_image(frame: &Plane, params: &Params) -> (r: bool)
    requires
        params.wf(),
        frame.rows() <= 0x7fff_ffff,
        frame.cols() <= 0x7fff_ffff,
        frame.rows() * frame.cols() <= 0x7fff_ffff,
    ensures
        r == has_text(frame@, frame.cols() as int, frame.rows() as int, *params),
{
    let (h, w) = frame.dim();
    let ghost wi = w as int;
    let ghost hi = h as int;
    let segh: usize = params.segh;
    let n: usize = h / segh;
    let ghost sh = segh as int;
    proof {
        assert(h * w == w * h) by (nonlinear_arith);
    }
    if n == 0 {
        return false;
    }
    let mut best: usize = 0;
    let mut most: u64 = count_strip(frame, w, h, segh, 0);
    let mut k: usize = 1;
    while k < n
        invariant
            wi == w,
            hi == h,
            sh == segh,
            frame.rows() == h,
            frame.cols() == w,
            frame@.len() == w * h,
            w * h <= 0x7fff_ffff,
            1 <= segh,
            n == h / segh,
            1 <= k <= n,
            most == density(frame@, wi, sh, best as int),
            densest(frame@, wi, sh, k as int, best as int),
        decreases n - k,
    {
        let c: u64 = count_strip(frame, w, h, segh, k);
        if c > most {
            most = c;
            best = k;
        }
        k = k + 1;
    }
    proof {
        lemma_strip_rows(best as int, sh, wi, hi);
    }
    let columns: u64 = count_columns(frame, w, h, segh, best * segh);
    let limit: u64 = params.mtpl.part(w as u32);
    proof {
        assert(densest(frame@, wi, sh, hi / sh, best as int));
        assert forall|j: int| #[trigger] densest(frame@, wi, sh, hi / sh, j) implies j == best by {
            if j < best {
                assert(density(frame@, wi, sh, j) < density(frame@, wi, sh, best as int));
                assert(density(frame@, wi, sh, best as int) <= density(frame@, wi, sh, j));
            } else if j > best {
                assert(density(frame@, wi, sh, best as int) < density(frame@, wi, sh, j));
                assert(density(frame@, wi, sh, j) <= density(frame@, wi, sh, best as int));
            }
        }
    }
    columns > limit
}

} // verus!
