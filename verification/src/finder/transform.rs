//! From the pixels of a frame to its text areas. The operators that split a
//! picture into planes and find edges in it are given by the caller.
use super::edges;
use super::edges::{
    align_bands, average_edges, band_offsets, border_clear, combine_edges, finish_image,
    gather_bands, mark_edges, no_text, spread_bands, sum_edges, TransformedImage,
};
use super::filter;
use super::grid;
use super::imgops::copy;
use super::params::Params;
use super::single::Single;
use super::text_rows;
use super::text_rows::color_filtration;
use vstd::prelude::*;
use vstd::slice::slice_subrange;

verus! {

/// Whether an operator can turn `a`, a picture of `h` rows of `w` pixels, into `r`.
pub open spec fn turns<T, F: Fn(&[T], usize, usize) -> Vec<u16>>(
    f: F,
    a: Seq<T>,
    w: usize,
    h: usize,
    r: Seq<u16>,
) -> bool {
    exists|x: &[T], v: Vec<u16>| #[trigger]
        call_ensures(f, (x, w, h), v) && x@ == a && v@ == r
}

/// An operator that takes all pictures and keeps their size.
pub open spec fn keeps_size<T, F: Fn(&[T], usize, usize) -> Vec<u16>>(f: F) -> bool {
    &&& forall|x: &[T], w: usize, h: usize|
        x@.len() == w * h ==> #[trigger] call_requires(f, (x, w, h))
    &&& forall|x: &[T], w: usize, h: usize, v: Vec<u16>| #[trigger]
        call_ensures(f, (x, w, h), v) && x@.len() == w * h ==> v@.len() == w * h
}

/// An operator that finds edges of which eleven can be added.
pub open spec fn finds_edges<F: Fn(&[u8], usize, usize) -> Vec<u16>>(f: F) -> bool {
    &&& keeps_size::<u8, F>(f)
    &&& forall|x: &[u8], w: usize, h: usize, v: Vec<u16>| #[trigger]
        call_ensures(f, (x, w, h), v) && x@.len() == w * h ==> edges::edges_fit(v@, w * h)
}

/// Whether an operator can cut `a` at a fraction of its largest value into `r`.
pub open spec fn cuts<F: Fn(&[u16], Single) -> Vec<u16>>(
    f: F,
    a: Seq<u16>,
    s: Single,
    r: Seq<u16>,
) -> bool {
    exists|x: &[u16], v: Vec<u16>| #[trigger]
        call_ensures(f, (x, s), v) && x@ == a && v@ == r
}

/// An operator that takes all rows of pixels and keeps their number.
pub open spec fn keeps_length<F: Fn(&[u16], Single) -> Vec<u16>>(f: F) -> bool {
    &&& forall|x: &[u16], s: Single| #[trigger] call_requires(f, (x, s))
    &&& forall|x: &[u16], s: Single, v: Vec<u16>| #[trigger]
        call_ensures(f, (x, s), v) ==> v@.len() == x@.len()
}

/// Whether an operator can split a picture into three planes.
pub open spec fn splits<F: Fn(&[u8], usize, usize) -> (Vec<u8>, Vec<u8>, Vec<u8>)>(
    f: F,
    bgr: Seq<u8>,
    w: usize,
    h: usize,
    y: Seq<u8>,
    u: Seq<u8>,
    v: Seq<u8>,
) -> bool {
    exists|x: &[u8], r: (Vec<u8>, Vec<u8>, Vec<u8>)| #[trigger]
        call_ensures(f, (x, w, h), r) && x@ == bgr && r.0@ == y && r.1@ == u && r.2@ == v
}

/// An operator that splits all pictures into three planes of their size.
pub open spec fn finds_planes<F: Fn(&[u8], usize, usize) -> (Vec<u8>, Vec<u8>, Vec<u8>)>(
    f: F,
) -> bool {
    &&& forall|x: &[u8], w: usize, h: usize|
        x@.len() >= w * h * 3 ==> #[trigger] call_requires(f, (x, w, h))
    &&& forall|x: &[u8], w: usize, h: usize, r: (Vec<u8>, Vec<u8>, Vec<u8>)| #[trigger]
        call_ensures(f, (x, w, h), r) && x@.len() >= w * h * 3 ==> r.0@.len() == w * h
            && r.1@.len() == w * h && r.2@.len() == w * h
}

fn turn<F: Fn(&[u16], usize, usize) -> Vec<u16>>(f: F, a: &[u16], w: usize, h: usize) -> (r: Vec<
    u16,
>)
    requires
        keeps_size::<u16, F>(f),
        a@.len() == w * h,
    ensures
        turns(f, a@, w, h, r@),
        r@.len() == w * h,
{
    let r = f(a, w, h);
    assert(call_ensures(f, (a, w, h), r));
    r
}

fn find_edges<F: Fn(&[u8], usize, usize) -> Vec<u16>>(f: F, a: &[u8], w: usize, h: usize) -> (r:
    Vec<u16>)
    requires
        finds_edges(f),
        a@.len() == w * h,
    ensures
        turns(f, a@, w, h, r@),
        edges::edges_fit(r@, w * h),
{
    let r = f(a, w, h);
    assert(call_ensures(f, (a, w, h), r));
    r
}

fn cut<F: Fn(&[u16], Single) -> Vec<u16>>(f: F, a: &[u16], s: Single) -> (r: Vec<u16>)
    requires
        keeps_length(f),
    ensures
        cuts(f, a@, s, r@),
        r@.len() == a@.len(),
{
    let r = f(a, s);
    assert(call_ensures(f, (a, s), r));
    r
}

/// A picture with the pixels from `at` on replaced by `part`.
pub open spec fn replaced(im: Seq<u16>, at: int, part: Seq<u16>) -> Seq<u16> {
    Seq::new(
        im.len(),
        |i: int|
            if at <= i < at + part.len() {
                part[i - at]
            } else {
                im[i]
            },
    )
}

/// Whether `next` can be the picture with `count` pixels from `at` on cut.
pub open spec fn band_cut<T: Fn(&[u16], Single) -> Vec<u16>>(
    thr: T,
    im: Seq<u16>,
    at: int,
    count: int,
    s: Single,
    next: Seq<u16>,
) -> bool {
    exists|part: Seq<u16>| #[trigger]
        cuts(thr, im.subrange(at, at + count), s, part) && next == replaced(im, at, part)
}

/// Whether each picture after the first of `steps` can be the one before it with
/// the next band cut.
pub open spec fn cut_in_turn<T: Fn(&[u16], Single) -> Vec<u16>>(
    thr: T,
    steps: Seq<Seq<u16>>,
    offsets: Seq<usize>,
    dhs: Seq<usize>,
    w: int,
    s: Single,
) -> bool {
    forall|k: int|
        #![trigger offsets[k]]
        0 <= k < steps.len() - 1 ==> band_cut(
            thr,
            steps[k],
            offsets[k] as int,
            w * dhs[k],
            s,
            steps[k + 1],
        )
}

/// Whether `out` can be the picture with its bands cut, one after the other.
pub open spec fn bands_cut<T: Fn(&[u16], Single) -> Vec<u16>>(
    thr: T,
    im: Seq<u16>,
    offsets: Seq<usize>,
    dhs: Seq<usize>,
    w: int,
    s: Single,
    out: Seq<u16>,
) -> bool {
    exists|steps: Seq<Seq<u16>>|
        {
            &&& steps.len() == offsets.len() + 1
            &&& steps[0] == im
            &&& steps.last() == out
            &&& #[trigger] cut_in_turn(thr, steps, offsets, dhs, w, s)
        }
}

/// Replaces the pixels from `at` on.
fn put(im: &mut Vec<u16>, at: usize, part: &[u16])
    requires
        at + part@.len() <= old(im)@.len(),
    ensures
        final(im)@ == replaced(old(im)@, at as int, part@),
{
    let ghost before = im@;
    let n: usize = part.len();
    let size: usize = im.len();
    let mut i: usize = 0;
    while i < n
        invariant
            n == part@.len(),
            i <= n,
            at + n <= size,
            size == im@.len(),
            im@.len() == before.len(),
            im@ == replaced(before, at as int, part@.take(i as int)),
        decreases n - i,
    {
        im.set(at + i, part[i]);
        i = i + 1;
        proof {
            assert(im@ =~= replaced(before, at as int, part@.take(i as int)));
        }
    }
    proof {
        assert(part@.take(n as int) =~= part@);
    }
}

/// Cuts the bands of a picture one after the other.
fn cut_bands<T: Fn(&[u16], Single) -> Vec<u16> + Copy>(
    thr: T,
    im: Vec<u16>,
    offsets: &[usize],
    dhs: &[usize],
    w: usize,
    s: Single,
) -> (out: Vec<u16>)
    requires
        keeps_length(thr),
        offsets@.len() == dhs@.len(),
        forall|k: int|
            0 <= k < offsets@.len() ==> #[trigger] offsets@[k] + w * dhs@[k] <= im@.len(),
    ensures
        bands_cut(thr, im@, offsets@, dhs@, w as int, s, out@),
        out@.len() == im@.len(),
{
    let ghost start = im@;
    let ghost mut steps: Seq<Seq<u16>> = seq![start];
    let mut im = im;
    let size: usize = im.len();
    let mut k: usize = 0;
    while k < offsets.len()
        invariant
            size == im@.len(),
            keeps_length(thr),
            offsets@.len() == dhs@.len(),
            forall|k: int|
                0 <= k < offsets@.len() ==> #[trigger] offsets@[k] + w * dhs@[k] <= im@.len(),
            k <= offsets@.len(),
            steps.len() == k + 1,
            steps[0] == start,
            steps.last() == im@,
            im@.len() == start.len(),
            cut_in_turn(thr, steps, offsets@, dhs@, w as int, s),
        decreases offsets@.len() - k,
    {
        let ghost prev = im@;
        let at: usize = offsets[k];
        let d: usize = dhs[k];
        proof {
            assert(offsets@[k as int] + w * dhs@[k as int] <= im@.len());
            assert(w * d >= 0) by (nonlinear_arith)
                requires
                    w >= 0,
                    d >= 0,
            ;
        }
        let part: Vec<u16> = cut(thr, slice_subrange(im.as_slice(), at, at + w * d), s);
        put(&mut im, at, part.as_slice());
        proof {
            assert(cuts(thr, prev.subrange(at as int, at as int + w * d), s, part@));
            assert(band_cut(thr, prev, at as int, w * d, s, im@));
            let before = steps;
            steps = steps.push(im@);
            assert forall|j: int|
                #![trigger offsets@[j]]
                0 <= j < steps.len() - 1 implies band_cut(
                thr,
                steps[j],
                offsets@[j] as int,
                w * dhs@[j],
                s,
                steps[j + 1],
            ) by {
                if j < k {
                    assert(steps[j] == before[j] && steps[j + 1] == before[j + 1]);
                } else {
                    assert(steps[j] == before.last());
                }
            }
        }
        k = k + 1;
    }
    im
}

/// Whether `out` can be the strong edges of the bands: the edges of the three
/// planes added, smoothed, sharpened, averaged and cut.
pub open spec fn band_edges<
    S: Fn(&[u16], usize, usize) -> Vec<u16>,
    C: Fn(&[u16], usize, usize) -> Vec<u16>,
    T: Fn(&[u16], Single) -> Vec<u16>,
>(
    ess: S,
    ecp: C,
    thr: T,
    y: Seq<u16>,
    u: Seq<u16>,
    v: Seq<u16>,
    k: int,
    w: usize,
    h: usize,
    offsets: Seq<usize>,
    dhs: Seq<usize>,
    mthr: Single,
    out: Seq<u16>,
) -> bool {
    exists|s: Seq<u16>, e: Seq<u16>|
        {
            let smooth = edges::bordered(s, 2, w as int, h as int);
            &&& #[trigger] turns(ess, edges::strong_edges(y, u, v, k, w as int, h as int), w, h, s)
            &&& #[trigger] turns(ecp, edges::bordered(s, 2, w as int, h as int), w, h, e)
            &&& bands_cut(
                thr,
                edges::averaged(smooth, e, w as int, h as int),
                offsets,
                dhs,
                w as int,
                mthr,
                out,
            )
        }
}

/// Finds the strong edges of the bands, with a weight for the two color planes.
fn get_im_cmoe<
    S: Fn(&[u16], usize, usize) -> Vec<u16> + Copy,
    C: Fn(&[u16], usize, usize) -> Vec<u16> + Copy,
    T: Fn(&[u16], Single) -> Vec<u16> + Copy,
>(
    ess: S,
    ecp: C,
    thr: T,
    y_moe: &[u16],
    u_moe: &[u16],
    v_moe: &[u16],
    k: u16,
    w: usize,
    h: usize,
    offsets: &[usize],
    dhs: &[usize],
    mthr: Single,
) -> (r: Vec<u16>)
    requires
        keeps_size::<u16, S>(ess),
        keeps_size::<u16, C>(ecp),
        keeps_length(thr),
        grid::frame_size(w as int, h as int),
        k <= 5,
        edges::edges_fit(y_moe@, w * h),
        edges::edges_fit(u_moe@, w * h),
        edges::edges_fit(v_moe@, w * h),
        offsets@.len() == dhs@.len(),
        forall|j: int|
            0 <= j < offsets@.len() ==> #[trigger] offsets@[j] + w * dhs@[j] <= w * h,
    ensures
        band_edges(
            ess,
            ecp,
            thr,
            y_moe@,
            u_moe@,
            v_moe@,
            k as int,
            w,
            h,
            offsets@,
            dhs@,
            mthr,
            r@,
        ),
        r@.len() == w * h,
{
    let strong: Vec<u16> = combine_edges(y_moe, u_moe, v_moe, k, w, h);
    proof {
        assert(strong@.len() == w * h);
    }
    let mut smooth: Vec<u16> = turn(ess, strong.as_slice(), w, h);
    let ghost s = smooth@;
    border_clear(smooth.as_mut_slice(), 2, w, h);
    let sharp: Vec<u16> = turn(ecp, smooth.as_slice(), w, h);
    let mean: Vec<u16> = average_edges(smooth.as_slice(), sharp.as_slice(), w, h);
    proof {
        assert(turns(ecp, edges::bordered(s, 2, w as int, h as int), w, h, sharp@));
    }
    cut_bands(thr, mean, offsets, dhs, w, mthr)
}

/// Finds the strong edges of the bands, with all planes of the same weight.
pub fn get_im_cmoe_with_thr1<
    S: Fn(&[u16], usize, usize) -> Vec<u16> + Copy,
    C: Fn(&[u16], usize, usize) -> Vec<u16> + Copy,
    T: Fn(&[u16], Single) -> Vec<u16> + Copy,
>(
    ess: S,
    ecp: C,
    thr: T,
    y_moe: &[u16],
    u_moe: &[u16],
    v_moe: &[u16],
    w: usize,
    h: usize,
    offsets: &[usize],
    dhs: &[usize],
    mthr: Single,
) -> (r: Vec<u16>)
    requires
        keeps_size::<u16, S>(ess),
        keeps_size::<u16, C>(ecp),
        keeps_length(thr),
        grid::frame_size(w as int, h as int),
        edges::edges_fit(y_moe@, w * h),
        edges::edges_fit(u_moe@, w * h),
        edges::edges_fit(v_moe@, w * h),
        offsets@.len() == dhs@.len(),
        forall|j: int|
            0 <= j < offsets@.len() ==> #[trigger] offsets@[j] + w * dhs@[j] <= w * h,
    ensures
        band_edges(
            ess,
            ecp,
            thr,
            y_moe@,
            u_moe@,
            v_moe@,
            1,
            w,
            h,
            offsets@,
            dhs@,
            mthr,
            r@,
        ),
        r@.len() == w * h,
{
    get_im_cmoe(ess, ecp, thr, y_moe, u_moe, v_moe, 1, w, h, offsets, dhs, mthr)
}

/// Finds the strong edges of the bands, with five times the weight for the two
/// color planes.
pub fn get_im_cmoe_with_thr2<
    S: Fn(&[u16], usize, usize) -> Vec<u16> + Copy,
    C: Fn(&[u16], usize, usize) -> Vec<u16> + Copy,
    T: Fn(&[u16], Single) -> Vec<u16> + Copy,
>(
    ess: S,
    ecp: C,
    thr: T,
    y_moe: &[u16],
    u_moe: &[u16],
    v_moe: &[u16],
    w: usize,
    h: usize,
    offsets: &[usize],
    dhs: &[usize],
    mthr: Single,
) -> (r: Vec<u16>)
    requires
        keeps_size::<u16, S>(ess),
        keeps_size::<u16, C>(ecp),
        keeps_length(thr),
        grid::frame_size(w as int, h as int),
        edges::edges_fit(y_moe@, w * h),
        edges::edges_fit(u_moe@, w * h),
        edges::edges_fit(v_moe@, w * h),
        offsets@.len() == dhs@.len(),
        forall|j: int|
            0 <= j < offsets@.len() ==> #[trigger] offsets@[j] + w * dhs@[j] <= w * h,
    ensures
        band_edges(
            ess,
            ecp,
            thr,
            y_moe@,
            u_moe@,
            v_moe@,
            5,
            w,
            h,
            offsets@,
            dhs@,
            mthr,
            r@,
        ),
        r@.len() == w * h,
{
    get_im_cmoe(ess, ecp, thr, y_moe, u_moe, v_moe, 5, w, h, offsets, dhs, mthr)
}

/// Whether `out` can be the edges of a whole frame.
pub open spec fn frame_edges<
    N: Fn(&[u8], usize, usize) -> Vec<u16>,
    T: Fn(&[u16], Single) -> Vec<u16>,
>(
    sobel: N,
    thr: T,
    y: Seq<u8>,
    u: Seq<u8>,
    v: Seq<u8>,
    w: usize,
    h: usize,
    mnthr: Single,
    out: Seq<u8>,
) -> bool {
    exists|ey: Seq<u16>, eu: Seq<u16>, ev: Seq<u16>, a: Seq<u16>, b: Seq<u16>|
        {
            &&& #[trigger] turns(sobel, y, w, h, ey)
            &&& #[trigger] turns(sobel, u, w, h, eu)
            &&& #[trigger] turns(sobel, v, w, h, ev)
            &&& #[trigger] cuts(thr, edges::summed(ey, eu, ev, 1, w as int, h as int), mnthr, a)
            &&& #[trigger] cuts(thr, edges::summed(ey, eu, ev, 5, w as int, h as int), mnthr, b)
            &&& out == edges::either(a, b, w as int, h as int)
        }
}

fn find_frame_edges<
    N: Fn(&[u8], usize, usize) -> Vec<u16> + Copy,
    T: Fn(&[u16], Single) -> Vec<u16> + Copy,
>(sobel: N, thr: T, y: &[u8], u: &[u8], v: &[u8], w: usize, h: usize, mnthr: Single) -> (r: Vec<u8>)
    requires
        finds_edges(sobel),
        keeps_length(thr),
        grid::frame_size(w as int, h as int),
        y@.len() == w * h,
        u@.len() == w * h,
        v@.len() == w * h,
    ensures
        frame_edges(sobel, thr, y@, u@, v@, w, h, mnthr, r@),
        r@.len() == w * h,
{
    let ey: Vec<u16> = find_edges(sobel, y, w, h);
    let eu: Vec<u16> = find_edges(sobel, u, w, h);
    let ev: Vec<u16> = find_edges(sobel, v, w, h);
    let even: Vec<u16> = sum_edges(ey.as_slice(), eu.as_slice(), ev.as_slice(), 1, w, h);
    let colored: Vec<u16> = sum_edges(ey.as_slice(), eu.as_slice(), ev.as_slice(), 5, w, h);
    let a: Vec<u16> = cut(thr, even.as_slice(), mnthr);
    let b: Vec<u16> = cut(thr, colored.as_slice(), mnthr);
    proof {
        assert(cuts(thr, edges::summed(ey@, eu@, ev@, 1, w as int, h as int), mnthr, a@));
        assert(cuts(thr, edges::summed(ey@, eu@, ev@, 5, w as int, h as int), mnthr, b@));
    }
    mark_edges(a.as_slice(), b.as_slice(), w, h)
}

/// Finds the edges of a whole frame in all directions.
pub fn get_im_ne<
    N: Fn(&[u8], usize, usize) -> Vec<u16> + Copy,
    T: Fn(&[u16], Single) -> Vec<u16> + Copy,
>(sobel_n: N, thr: T, y: &[u8], u: &[u8], v: &[u8], w: usize, h: usize, p: &Params) -> (r: Vec<u8>)
    requires
        finds_edges(sobel_n),
        keeps_length(thr),
        grid::frame_size(w as int, h as int),
        y@.len() == w * h,
        u@.len() == w * h,
        v@.len() == w * h,
    ensures
        frame_edges(sobel_n, thr, y@, u@, v@, w, h, p.mnthr, r@),
        r@.len() == w * h,
{
    find_frame_edges(sobel_n, thr, y, u, v, w, h, p.mnthr)
}

/// Finds the horizontal edges of a whole frame.
pub fn get_im_he<
    H: Fn(&[u8], usize, usize) -> Vec<u16> + Copy,
    T: Fn(&[u16], Single) -> Vec<u16> + Copy,
>(sobel_h: H, thr: T, y: &[u8], u: &[u8], v: &[u8], w: usize, h: usize, p: &Params) -> (r: Vec<u8>)
    requires
        finds_edges(sobel_h),
        keeps_length(thr),
        grid::frame_size(w as int, h as int),
        y@.len() == w * h,
        u@.len() == w * h,
        v@.len() == w * h,
    ensures
        frame_edges(sobel_h, thr, y@, u@, v@, w, h, p.mnthr, r@),
        r@.len() == w * h,
{
    find_frame_edges(sobel_h, thr, y, u, v, w, h, p.mnthr)
}

/// Whether `ff` can be the text areas of the bands of a frame: white where the
/// strong edges are, with or without the weight for the color planes.
pub open spec fn foreground<
    M: Fn(&[u8], usize, usize) -> Vec<u16>,
    S: Fn(&[u16], usize, usize) -> Vec<u16>,
    C: Fn(&[u16], usize, usize) -> Vec<u16>,
    T: Fn(&[u16], Single) -> Vec<u16>,
>(
    sobel_m: M,
    ess: S,
    ecp: C,
    thr: T,
    y: Seq<u8>,
    u: Seq<u8>,
    v: Seq<u8>,
    bs: Seq<(i32, i32)>,
    w: usize,
    h: usize,
    mthr: Single,
    ff: Seq<u8>,
) -> bool {
    let wi = w as int;
    let rows = edges::rows_of(bs) as usize;
    let at = edges::starts(bs, wi);
    let dhs = edges::heights(bs);
    exists|ey: Seq<u16>, eu: Seq<u16>, ev: Seq<u16>, a: Seq<u16>, b: Seq<u16>|
        {
            &&& #[trigger] turns(sobel_m, edges::gathered(y, bs, wi), w, rows, ey)
            &&& #[trigger] turns(sobel_m, edges::gathered(u, bs, wi), w, rows, eu)
            &&& #[trigger] turns(sobel_m, edges::gathered(v, bs, wi), w, rows, ev)
            &&& #[trigger] band_edges(ess, ecp, thr, ey, eu, ev, 1, w, rows, at, dhs, mthr, a)
            &&& #[trigger] band_edges(ess, ecp, thr, ey, eu, ev, 5, w, rows, at, dhs, mthr, b)
            &&& ff == edges::spread(a, b, bs, wi, h as int)
        }
}

proof fn lemma_rows(bs: Seq<(i32, i32)>, w: int, h: int)
    requires
        text_rows::stacked(bs, h),
        w >= 1,
        h >= 0,
    ensures
        edges::area(bs, w) == w * edges::rows_of(bs),
        0 <= edges::rows_of(bs),
    decreases bs.len(),
{
    if bs.len() > 0 {
        edges::lemma_stacked_prefix(bs, h);
        lemma_rows(bs.drop_last(), w, h);
        let a = edges::rows_of(bs.drop_last());
        let d = bs.last().1 - bs.last().0 + 1;
        assert(w * a + w * d == w * (a + d)) by (nonlinear_arith);
    } else {
        assert(w * 0 == 0);
    }
}

/// Finds the text areas of the bands of a frame, the same without the rows that
/// the last band no longer reaches, and the bands moved to strips.
pub fn get_im_ff<
    M: Fn(&[u8], usize, usize) -> Vec<u16> + Copy,
    S: Fn(&[u16], usize, usize) -> Vec<u16> + Copy,
    C: Fn(&[u16], usize, usize) -> Vec<u16> + Copy,
    T: Fn(&[u16], Single) -> Vec<u16> + Copy,
>(
    sobel_m: M,
    ess: S,
    ecp: C,
    thr: T,
    y_full: &[u8],
    u_full: &[u8],
    v_full: &[u8],
    lb: &[i32],
    le: &[i32],
    w: usize,
    h: usize,
    p: &Params,
) -> (r: (Vec<u8>, Vec<u8>, Vec<i32>, Vec<i32>))
    requires
        finds_edges(sobel_m),
        keeps_size::<u16, S>(ess),
        keeps_size::<u16, C>(ecp),
        keeps_length(thr),
        grid::frame_size(w as int, h as int),
        1 <= p.segh <= h,
        y_full@.len() == w * h,
        u_full@.len() == w * h,
        v_full@.len() == w * h,
        lb@.len() == le@.len(),
        lb@.len() >= 1,
        text_rows::stacked(edges::bands(lb@, le@), h as int),
    ensures
        foreground(
            sobel_m,
            ess,
            ecp,
            thr,
            y_full@,
            u_full@,
            v_full@,
            edges::bands(lb@, le@),
            w,
            h,
            p.mthr,
            r.0@,
        ),
        r.1@ == edges::cut_below(r.0@, le@, p.segh as int, w as int, h as int),
        r.2@ == edges::aligned_firsts(lb@, p.segh as int),
        r.3@ == edges::aligned_ends(le@, p.segh as int, h as int),
        r.0@.len() == w * h,
        filter::bands_fit(r.2@, r.3@, lb@.len() as int, h as int),
{
    let ghost bs = edges::bands(lb@, le@);
    let ghost wi = w as int;
    let (offsets, dhs) = band_offsets(lb, le, w, h);
    let y: Vec<u8> = gather_bands(y_full, lb, le, w, h);
    let u: Vec<u8> = gather_bands(u_full, lb, le, w, h);
    let v: Vec<u8> = gather_bands(v_full, lb, le, w, h);
    let rows: usize = y.len() / w;
    proof {
        edges::lemma_area(bs, wi, h as int);
        lemma_rows(bs, wi, h as int);
        let n = edges::rows_of(bs);
        assert((wi * n) / wi == n) by (nonlinear_arith)
            requires
                wi >= 1,
                n >= 0,
        ;
        assert(rows == n);
        assert(edges::rows_of(bs) as usize == rows);
        assert(wi * rows == edges::area(bs, wi));
    }
    let ey: Vec<u16> = find_edges(sobel_m, y.as_slice(), w, rows);
    let eu: Vec<u16> = find_edges(sobel_m, u.as_slice(), w, rows);
    let ev: Vec<u16> = find_edges(sobel_m, v.as_slice(), w, rows);
    let even: Vec<u16> = get_im_cmoe_with_thr1(
        ess,
        ecp,
        thr,
        ey.as_slice(),
        eu.as_slice(),
        ev.as_slice(),
        w,
        rows,
        offsets.as_slice(),
        dhs.as_slice(),
        p.mthr,
    );
    let colored: Vec<u16> = get_im_cmoe_with_thr2(
        ess,
        ecp,
        thr,
        ey.as_slice(),
        eu.as_slice(),
        ev.as_slice(),
        w,
        rows,
        offsets.as_slice(),
        dhs.as_slice(),
        p.mthr,
    );
    let im_ff: Vec<u8> = spread_bands(even.as_slice(), colored.as_slice(), lb, le, w, h);
    let mut im_sf: Vec<u8> = copy(im_ff.as_slice());
    let (first, last) = align_bands(im_sf.as_mut_slice(), lb, le, p.segh, w, h);
    (im_ff, im_sf, first, last)
}

/// Whether `r` can be the pictures of a frame with bands of text rows.
pub open spec fn transformed<
    Y: Fn(&[u8], usize, usize) -> (Vec<u8>, Vec<u8>, Vec<u8>),
    M: Fn(&[u8], usize, usize) -> Vec<u16>,
    N: Fn(&[u8], usize, usize) -> Vec<u16>,
    H: Fn(&[u8], usize, usize) -> Vec<u16>,
    S: Fn(&[u16], usize, usize) -> Vec<u16>,
    C: Fn(&[u16], usize, usize) -> Vec<u16>,
    T: Fn(&[u16], Single) -> Vec<u16>,
>(
    yuv: Y,
    sobel_m: M,
    sobel_n: N,
    sobel_h: H,
    ess: S,
    ecp: C,
    thr: T,
    bgr: Seq<u8>,
    bs: Seq<(i32, i32)>,
    w: usize,
    h: usize,
    p: Params,
    r: TransformedImage,
) -> bool {
    let lb = Seq::new(bs.len(), |k: int| bs[k].0);
    let le = Seq::new(bs.len(), |k: int| bs[k].1);
    exists|y: Seq<u8>, u: Seq<u8>, v: Seq<u8>, ff: Seq<u8>, ne: Seq<u8>, he: Seq<u8>|
        {
            &&& #[trigger] splits(yuv, bgr, w, h, y, u, v)
            &&& #[trigger] foreground(sobel_m, ess, ecp, thr, y, u, v, bs, w, h, p.mthr, ff)
            &&& #[trigger] frame_edges(sobel_n, thr, y, u, v, w, h, p.mnthr, ne)
            &&& #[trigger] frame_edges(sobel_h, thr, y, u, v, w, h, p.mnthr, he)
            &&& edges::finished(
                r,
                ff,
                edges::cut_below(ff, le, p.segh as int, w as int, h as int),
                ne,
                he,
                y,
                edges::aligned_firsts(lb, p.segh as int),
                edges::aligned_ends(le, p.segh as int, h as int),
                w as int,
                h as int,
                p,
            )
        }
}

/// Finds the text areas of a frame.
pub fn get_transformed_image<
    Y: Fn(&[u8], usize, usize) -> (Vec<u8>, Vec<u8>, Vec<u8>) + Copy,
    M: Fn(&[u8], usize, usize) -> Vec<u16> + Copy,
    N: Fn(&[u8], usize, usize) -> Vec<u16> + Copy,
    H: Fn(&[u8], usize, usize) -> Vec<u16> + Copy,
    S: Fn(&[u16], usize, usize) -> Vec<u16> + Copy,
    C: Fn(&[u16], usize, usize) -> Vec<u16> + Copy,
    T: Fn(&[u16], Single) -> Vec<u16> + Copy,
>(
    yuv: Y,
    sobel_m: M,
    sobel_n: N,
    sobel_h: H,
    ess: S,
    ecp: C,
    thr: T,
    bgr: &[u8],
    w: usize,
    h: usize,
    p: &Params,
) -> (r: TransformedImage)
    requires
        finds_planes(yuv),
        finds_edges(sobel_m),
        finds_edges(sobel_n),
        finds_edges(sobel_h),
        keeps_size::<u16, S>(ess),
        keeps_size::<u16, C>(ecp),
        keeps_length(thr),
        p.wf(),
        text_rows::text_bands(bgr@, w as int, h as int, *p).len() > 0 ==> p.segh <= h,
        w <= 0x7fff_ffff,
        grid::frame_size(w as int, h as int),
        bgr@.len() >= w * h * 3,
    ensures
        ({
            let bs = text_rows::text_bands(bgr@, w as int, h as int, *p);
            if bs.len() == 0 {
                edges::all_blank(r, w as int, h as int)
            } else {
                transformed(
                    yuv,
                    sobel_m,
                    sobel_n,
                    sobel_h,
                    ess,
                    ecp,
                    thr,
                    bgr@,
                    bs,
                    w,
                    h,
                    *p,
                    r,
                )
            }
        }),
{
    let ghost bs = text_rows::text_bands(bgr@, w as int, h as int, *p);
    let (lb, le, n) = color_filtration(bgr, w, h, p);
    if n == 0 {
        return no_text(w, h);
    }
    proof {
        assert(edges::bands(lb@, le@) =~= bs);
    }
    let (y, u, v) = yuv(bgr, w, h);
    proof {
        assert(call_ensures(yuv, (bgr, w, h), (y, u, v)));
        assert(splits(yuv, bgr@, w, h, y@, u@, v@));
    }
    let (im_ff, im_sf, first, last) = get_im_ff(
        sobel_m,
        ess,
        ecp,
        thr,
        y.as_slice(),
        u.as_slice(),
        v.as_slice(),
        lb.as_slice(),
        le.as_slice(),
        w,
        h,
        p,
    );
    let ne: Vec<u8> = get_im_ne(sobel_n, thr, y.as_slice(), u.as_slice(), v.as_slice(), w, h, p);
    let he: Vec<u8> = get_im_he(sobel_h, thr, y.as_slice(), u.as_slice(), v.as_slice(), w, h, p);
    finish_image(im_ff, im_sf, ne, he.as_slice(), y, first, last, w, h, p)
}

} // verus!
