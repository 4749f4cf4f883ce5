//! Operators on whole images: unions, intersections, dilation, text rows and
//! local thresholds.
//!
//! Images are row-major; white is 255.

use super::grid;
use vstd::prelude::*;

verus! {

/// A pixel type with a blank value.
pub trait Pixel: Copy {
    spec fn blank(self) -> bool;

    /// The value of a blank pixel.
    spec fn zero() -> Self;

    fn nil() -> (r: Self)
        ensures
            r == Self::zero(),
    ;

    fn is_blank(self) -> (r: bool)
        ensures
            r == self.blank(),
    ;
}

impl Pixel for u8 {
    open spec fn blank(self) -> bool {
        self == 0
    }

    open spec fn zero() -> u8 {
        0
    }

    fn nil() -> (r: u8) {
        0
    }

    fn is_blank(self) -> (r: bool) {
        self == 0
    }
}

impl Pixel for u16 {
    open spec fn blank(self) -> bool {
        self == 0
    }

    open spec fn zero() -> u16 {
        0
    }

    fn nil() -> (r: u16) {
        0
    }

    fn is_blank(self) -> (r: bool) {
        self == 0
    }
}

/// The first image with the white pixels of the second added.
pub open spec fn union(a: Seq<u8>, b: Seq<u8>, size: nat) -> Seq<u8> {
    Seq::new(size, |i: int| if b[i] == 255 { 255u8 } else { a[i] })
}

/// Adds the white pixels of `b` to the first `size` pixels of `a`.
pub fn add_two_images(a: &[u8], b: &[u8], size: usize) -> (res: Vec<u8>)
    requires
        size <= a@.len(),
        size <= b@.len(),
    ensures
        res@ == union(a@, b@, size as nat),
{
    let mut res: Vec<u8> = Vec::new();
    let mut i: usize = 0;
    while i < size
        invariant
            i <= size <= a@.len(),
            size <= b@.len(),
            res@ == union(a@, b@, i as nat),
        decreases size - i,
    {
        if b[i] == 255 {
            res.push(255);
        } else {
            res.push(a[i]);
        }
        i = i + 1;
    }
    res
}

/// `a` with `zero` wherever `b` is blank, as far as `b` reaches.
pub open spec fn masked<T, M: Pixel>(a: Seq<T>, b: Seq<M>, zero: T) -> Seq<T> {
    Seq::new(a.len(), |i: int| if i < b.len() && b[i].blank() { zero } else { a[i] })
}

/// Writes `zero` into `a` wherever `b` is blank.
pub fn intersect_two_images_inplace<T: Copy, M: Pixel>(a: &mut [T], b: &[M], zero: T)
    ensures
        final(a)@ == masked(old(a)@, b@, zero),
{
    let mut i: usize = 0;
    while i < a.len() && i < b.len()
        invariant
            a@.len() == old(a)@.len(),
            i <= a@.len(),
            i <= b@.len(),
            forall|j: int| 0 <= j < i ==> a@[j] == masked(old(a)@, b@, zero)[j],
            forall|j: int| i <= j < a@.len() ==> a@[j] == old(a)@[j],
        decreases a@.len() - i,
    {
        if b[i].is_blank() {
            a[i] = zero;
        }
        i = i + 1;
    }
    assert(a@ =~= masked(old(a)@, b@, zero));
}

/// `a` with `white` written where it is blank and `b` is not, as far as both reach.
pub open spec fn combined(a: Seq<u8>, b: Seq<u8>, white: u8) -> Seq<u8> {
    Seq::new(
        a.len(),
        |i: int|
            if i < b.len() && a[i] == 0 && b[i] != 0 {
                white
            } else {
                a[i]
            },
    )
}

/// Writes `white` into the blank pixels of `res` that are not blank in `b`.
pub fn combine_two_images(res: &mut [u8], b: &[u8], white: u8)
    ensures
        final(res)@ == combined(old(res)@, b@, white),
{
    let mut i: usize = 0;
    while i < res.len() && i < b.len()
        invariant
            res@.len() == old(res)@.len(),
            i <= res@.len(),
            i <= b@.len(),
            forall|j: int| 0 <= j < i ==> res@[j] == combined(old(res)@, b@, white)[j],
            forall|j: int| i <= j < res@.len() ==> res@[j] == old(res)@[j],
        decreases res@.len() - i,
    {
        if res[i] == 0 && b[i] != 0 {
            res[i] = white;
        }
        i = i + 1;
    }
    assert(res@ =~= combined(old(res)@, b@, white));
}

/// Whether brightness `v` is no more than `down` below and `up` above `r`.
pub open spec fn steady(r: u16, v: u16, down: int, up: int) -> bool {
    r - down <= v <= r + up
}

/// `res` without the pixels whose brightness in `b` is too far away, as far as
/// `b` reaches.
pub open spec fn steady_in(res: Seq<u16>, b: Seq<u16>, down: int, up: int) -> Seq<u16> {
    Seq::new(
        res.len(),
        |i: int|
            if i < b.len() && !steady(res[i], b[i], down, up) {
                0u16
            } else {
                res[i]
            },
    )
}

/// Clears the pixels of `res` whose brightness in `b` is more than
/// `max_dl_down` below or `max_dl_up` above.
pub fn intersect_y_images(res: &mut [u16], b: &[u16], max_dl_down: i32, max_dl_up: i32)
    requires
        -0x7fff_0000 <= max_dl_down <= 0x7fff_0000,
        -0x7fff_0000 <= max_dl_up <= 0x7fff_0000,
    ensures
        final(res)@ == steady_in(old(res)@, b@, max_dl_down as int, max_dl_up as int),
{
    let mut i: usize = 0;
    while i < res.len() && i < b.len()
        invariant
            -0x7fff_0000 <= max_dl_down <= 0x7fff_0000,
            -0x7fff_0000 <= max_dl_up <= 0x7fff_0000,
            res@.len() == old(res)@.len(),
            i <= res@.len(),
            i <= b@.len(),
            forall|j: int|
                0 <= j < i ==> res@[j] == steady_in(
                    old(res)@,
                    b@,
                    max_dl_down as int,
                    max_dl_up as int,
                )[j],
            forall|j: int| i <= j < res@.len() ==> res@[j] == old(res)@[j],
        decreases res@.len() - i,
    {
        if res[i] != 0 {
            let r: i32 = res[i] as i32;
            let v: i32 = b[i] as i32;
            if v < r - max_dl_down || v > r + max_dl_up {
                res[i] = 0;
            }
        }
        i = i + 1;
    }
    assert(res@ =~= steady_in(old(res)@, b@, max_dl_down as int, max_dl_up as int));
}

/// Whether two pixels are at most `n` columns and `n` rows apart.
pub open spec fn near(p: int, q: int, n: int, w: int) -> bool {
    &&& -n <= grid::col(p, w) - grid::col(q, w) <= n
    &&& -n <= grid::row(p, w) - grid::row(q, w) <= n
}

/// Whether a pixel that is not blank lies near pixel `q`.
pub open spec fn covered(im: Seq<u8>, w: int, n: int, q: int) -> bool {
    exists|p: int| 0 <= p < im.len() && #[trigger] im[p] != 0 && near(p, q, n, w)
}

/// Every pixel within `n` columns and `n` rows of one that is not blank is
/// white, and all others are blank. For `n <= 0` the image itself.
pub open spec fn dilated(im: Seq<u8>, w: int, n: int) -> Seq<u8> {
    if n <= 0 {
        im
    } else {
        Seq::new(
            im.len(),
            |q: int|
                if covered(im, w, n, q) {
                    255u8
                } else {
                    0u8
                },
        )
    }
}

/// Dilating once more widens the reach by one.
proof fn lemma_dilated_once_more(im: Seq<u8>, w: int, h: int, n: int)
    requires
        0 <= w,
        0 <= h,
        im.len() == w * h,
        n >= 0,
    ensures
        dilated(dilated(im, w, n), w, 1) == dilated(im, w, n + 1),
{
    let a = dilated(im, w, n);
    let one = dilated(a, w, 1);
    let all = dilated(im, w, n + 1);
    assert forall|q: int| 0 <= q < im.len() implies one[q] == all[q] by {
        grid::lemma_of(q, w, h);
        if covered(a, w, 1, q) {
            let r = choose|r: int| 0 <= r < a.len() && #[trigger] a[r] != 0 && near(r, q, 1, w);
            if n == 0 {
                assert(im[r] != 0 && near(r, q, n + 1, w));
            } else {
                assert(covered(im, w, n, r));
                let p = choose|p: int| 0 <= p < im.len() && #[trigger] im[p] != 0 && near(p, r, n, w);
                assert(near(p, q, n + 1, w));
            }
            assert(covered(im, w, n + 1, q));
        }
        if covered(im, w, n + 1, q) {
            let p = choose|p: int|
                0 <= p < im.len() && #[trigger] im[p] != 0 && near(p, q, n + 1, w);
            grid::lemma_of(p, w, h);
            let dx: int = if grid::col(p, w) > grid::col(q, w) {
                1
            } else if grid::col(p, w) < grid::col(q, w) {
                -1
            } else {
                0
            };
            let dy: int = if grid::row(p, w) > grid::row(q, w) {
                1
            } else if grid::row(p, w) < grid::row(q, w) {
                -1
            } else {
                0
            };
            let x = grid::col(q, w) + dx;
            let y = grid::row(q, w) + dy;
            grid::lemma_at(x, y, w, h);
            let r = y * w + x;
            assert(near(r, q, 1, w));
            if n == 0 {
                assert(r == p);
                assert(a[r] != 0);
            } else {
                assert(near(p, r, n, w));
                assert(covered(im, w, n, r));
                assert(a[r] == 255);
            }
            assert(covered(a, w, 1, q));
        }
    }
    assert(one =~= all);
}

/// Dilating by `a` and then by `b` is dilating by `a + b`.
pub proof fn dilation_adds_up(im: Seq<u8>, w: int, h: int, a: int, b: int)
    requires
        0 <= w,
        0 <= h,
        im.len() == w * h,
        a >= 0,
        b >= 0,
    ensures
        dilated(dilated(im, w, a), w, b) == dilated(im, w, a + b),
    decreases b,
{
    if b > 0 {
        dilation_adds_up(im, w, h, a, b - 1);
        lemma_dilated_once_more(dilated(im, w, a), w, h, b - 1);
        lemma_dilated_once_more(im, w, h, a + b - 1);
    }
}

/// Paints the pixels around `(x, y)` white.
fn paint_around(im: &mut Vec<u8>, x: usize, y: usize, w: usize, h: usize)
    requires
        grid::frame_size(w as int, h as int),
        old(im)@.len() == w * h,
        x < w,
        y < h,
    ensures
        final(im)@.len() == old(im)@.len(),
        forall|q: int|
            0 <= q < old(im)@.len() ==> #[trigger] final(im)@[q] == if near(
                y * w + x,
                q,
                1,
                w as int,
            ) {
                255u8
            } else {
                old(im)@[q]
            },
{
    let ghost wi = w as int;
    let ghost hi = h as int;
    let ghost before = im@;
    let ghost p = y * w + x;
    proof {
        grid::lemma_sides(wi, hi);
        grid::lemma_at(x as int, y as int, wi, hi);
    }
    let y0: usize = if y > 0 {
        y - 1
    } else {
        0
    };
    let y1: usize = if y + 1 < h {
        y + 1
    } else {
        h - 1
    };
    let x0: usize = if x > 0 {
        x - 1
    } else {
        0
    };
    let x1: usize = if x + 1 < w {
        x + 1
    } else {
        w - 1
    };
    let mut ny: usize = y0;
    while ny <= y1
        invariant
            grid::frame_size(wi, hi),
            wi == w,
            hi == h,
            w <= 0x7fff_ffff,
            h <= 0x7fff_ffff,
            before.len() == w * h,
            im@.len() == before.len(),
            x == grid::col(p, wi),
            y == grid::row(p, wi),
            x < w,
            y < h,
            y0 <= ny <= y1 + 1,
            y0 <= y <= y0 + 1,
            y0 < y || y == 0,
            y <= y1 <= y + 1,
            y1 < h,
            y1 == y + 1 || y1 == h - 1,
            x0 <= x <= x0 + 1,
            x0 < x || x == 0,
            x <= x1 <= x + 1,
            x1 < w,
            x1 == x + 1 || x1 == w - 1,
            forall|q: int|
                0 <= q < before.len() ==> #[trigger] im@[q] == if near(p, q, 1, wi) && grid::row(
                    q,
                    wi,
                ) < ny {
                    255u8
                } else {
                    before[q]
                },
        decreases y1 + 1 - ny,
    {
        let mut nx: usize = x0;
        while nx <= x1
            invariant
                grid::frame_size(wi, hi),
                wi == w,
                hi == h,
                w <= 0x7fff_ffff,
                h <= 0x7fff_ffff,
                before.len() == w * h,
                im@.len() == before.len(),
                x == grid::col(p, wi),
                y == grid::row(p, wi),
                x < w,
                y < h,
                y0 <= ny <= y1,
                y0 <= y <= y0 + 1,
                y <= y1 <= y + 1,
                y1 < h,
                x0 <= nx <= x1 + 1,
                x0 <= x <= x0 + 1,
                x0 < x || x == 0,
                x <= x1 <= x + 1,
                x1 < w,
                x1 == x + 1 || x1 == w - 1,
                forall|q: int|
                    0 <= q < before.len() ==> #[trigger] im@[q] == if near(p, q, 1, wi) && (
                    grid::row(q, wi) < ny || (grid::row(q, wi) == ny && grid::col(q, wi) < nx)) {
                        255u8
                    } else {
                        before[q]
                    },
            decreases x1 + 1 - nx,
        {
            proof {
                grid::lemma_at(nx as int, ny as int, wi, hi);
            }
            let ghost prev = im@;
            let k: usize = ny * w + nx;
            im.set(k, 255);
            proof {
                assert forall|q: int| 0 <= q < before.len() implies #[trigger] im@[q] == if near(
                    p,
                    q,
                    1,
                    wi,
                ) && (grid::row(q, wi) < ny || (grid::row(q, wi) == ny && grid::col(q, wi) < nx
                    + 1)) {
                    255u8
                } else {
                    before[q]
                } by {
                    grid::lemma_of(q, wi, hi);
                    if q != k {
                        assert(im@[q] == prev[q]);
                    }
                }
            }
            nx = nx + 1;
        }
        proof {
            assert forall|q: int| 0 <= q < before.len() implies #[trigger] im@[q] == if near(
                p,
                q,
                1,
                wi,
            ) && grid::row(q, wi) < ny + 1 {
                255u8
            } else {
                before[q]
            } by {
                grid::lemma_of(q, wi, hi);
            }
        }
        ny = ny + 1;
    }
    proof {
        assert forall|q: int| 0 <= q < before.len() implies #[trigger] im@[q] == if near(
            p,
            q,
            1,
            wi,
        ) {
            255u8
        } else {
            before[q]
        } by {
            grid::lemma_of(q, wi, hi);
        }
    }
}

/// Dilates an image by a square of three by three pixels.
fn dilate_once(im: &Vec<u8>, w: usize, h: usize) -> (next: Vec<u8>)
    requires
        grid::frame_size(w as int, h as int),
        im@.len() == w * h,
    ensures
        next@ == dilated(im@, w as int, 1),
{
    let ghost wi = w as int;
    let ghost hi = h as int;
    let mut next: Vec<u8> = im.clone();
    let mut p: usize = 0;
    proof {
        grid::lemma_sides(wi, hi);
        assert(next@ =~= im@);
    }
    while p < im.len()
        invariant
            grid::frame_size(wi, hi),
            wi == w,
            hi == h,
            im@.len() == w * h,
            p <= im@.len(),
            next@.len() == im@.len(),
            forall|q: int|
                0 <= q < im@.len() ==> #[trigger] next@[q] == if exists|r: int|
                    0 <= r < p && #[trigger] im@[r] != 0 && near(r, q, 1, wi) {
                    255u8
                } else {
                    im@[q]
                },
        decreases im@.len() - p,
    {
        let ghost prev = next@;
        if im[p] != 0 {
            proof {
                grid::lemma_of(p as int, wi, hi);
            }
            paint_around(&mut next, p % w, p / w, w, h);
        }
        proof {
            assert forall|q: int| 0 <= q < im@.len() implies #[trigger] next@[q] == if exists|
                r: int,
            |
                0 <= r < p + 1 && #[trigger] im@[r] != 0 && near(r, q, 1, wi) {
                255u8
            } else {
                im@[q]
            } by {
                if exists|r: int| 0 <= r < p && #[trigger] im@[r] != 0 && near(r, q, 1, wi) {
                    let r = choose|r: int|
                        0 <= r < p && #[trigger] im@[r] != 0 && near(r, q, 1, wi);
                    assert(0 <= r < p + 1 && im@[r] != 0);
                }
                assert(prev[q] == if exists|r: int|
                    0 <= r < p && #[trigger] im@[r] != 0 && near(r, q, 1, wi) {
                    255u8
                } else {
                    im@[q]
                });
            }
        }
        p = p + 1;
    }
    proof {
        assert forall|q: int| 0 <= q < im@.len() implies next@[q] == dilated(im@, wi, 1)[q] by {
            if !covered(im@, wi, 1, q) {
                assert(near(q, q, 1, wi));
                assert(im@[q] == 0);
            }
        }
        assert(next@ =~= dilated(im@, wi, 1));
    }
    next
}

/// Dilates an image `iters` times by a square of three by three pixels.
pub fn dilate(im: &[u8], w: usize, h: usize, iters: i32) -> (res: Vec<u8>)
    requires
        grid::frame_size(w as int, h as int),
        im@.len() == w * h,
    ensures
        res@ == dilated(im@, w as int, iters as int),
        res@.len() == im@.len(),
{
    let mut cur: Vec<u8> = copy(im);
    let mut k: i32 = 0;
    while k < iters
        invariant
            grid::frame_size(w as int, h as int),
            im@.len() == w * h,
            0 <= k,
            k <= iters || k == 0,
            cur@ == dilated(im@, w as int, k as int),
            cur@.len() == im@.len(),
        decreases iters - k,
    {
        proof {
            lemma_dilated_once_more(im@, w as int, h as int, k as int);
        }
        cur = dilate_once(&cur, w, h);
        k = k + 1;
    }
    cur
}

/// A copy of an image.
pub fn copy<T: Copy>(im: &[T]) -> (res: Vec<T>)
    ensures
        res@ == im@,
{
    let mut res: Vec<T> = Vec::new();
    let mut i: usize = 0;
    while i < im.len()
        invariant
            i <= im@.len(),
            res@ == im@.take(i as int),
        decreases im@.len() - i,
    {
        res.push(im[i]);
        proof {
            assert(im@.take(i + 1) =~= im@.take(i as int).push(im@[i as int]));
        }
        i = i + 1;
    }
    proof {
        assert(im@.take(i as int) =~= im@);
    }
    res
}

/// Overwrites an image with another of the same size.
pub fn overwrite<T: Copy>(to: &mut [T], from: &[T])
    requires
        old(to)@.len() == from@.len(),
    ensures
        final(to)@ == from@,
{
    let mut i: usize = 0;
    while i < from.len()
        invariant
            to@.len() == from@.len(),
            i <= from@.len(),
            forall|j: int| 0 <= j < i ==> to@[j] == from@[j],
        decreases from@.len() - i,
    {
        to[i] = from[i];
        i = i + 1;
    }
    assert(to@ =~= from@);
}

} // verus!
