//! Comparison of the subtitles of two frames.

use super::bands;
use super::bands::get_lines_info;
use super::filter;
use super::filter::{clear_image_from_small_symbols, clear_rows, second_filtration};
use super::grid;
use super::imgops;
use super::imgops::{add_two_images, copy, dilate, intersect_two_images_inplace, intersect_y_images};
use super::params::Params;
use super::plane::Plane;
use super::preprocess;
use super::preprocess::analyse_image;
use super::runs;
use super::single::Single;
use super::strip;
use super::strip::StripLimits;
use vstd::prelude::*;

verus! {

/// The number of integers in `a..b` with a property.
pub open spec fn count_if(f: spec_fn(int) -> bool, a: int, b: int) -> nat
    decreases b - a,
{
    if a >= b {
        0
    } else {
        count_if(f, a, b - 1) + if f(b - 1) {
            1nat
        } else {
            0
        }
    }
}

/// Whether two images agree in the inner rows of a band, on the white pixels
/// of `mask`: the pixels that are white only in the first, and those that
/// differ otherwise, are not too many against those that are white in both.
pub open spec fn agree_in(
    mask: Seq<u8>,
    v1: Seq<u8>,
    v2: Seq<u8>,
    w: int,
    band: (i32, i32),
    limit: Single,
) -> bool {
    let a = (band.0 + 1) * w;
    let b = (band.1 - 1) * w;
    let only_first = count_if(|i: int| mask[i] == 255 && v1[i] != v2[i] && v1[i] == 255, a, b);
    let other = count_if(|i: int| mask[i] == 255 && v1[i] != v2[i] && v1[i] != 255, a, b);
    let both = count_if(|i: int| mask[i] == 255 && v1[i] == v2[i] && v1[i] == 255, a, b);
    &&& both > 0
    &&& !limit.exceeded_by(only_first, both)
    &&& !limit.exceeded_by(other, both)
}

/// Whether two images agree in all bands.
pub open spec fn agree(
    mask: Seq<u8>,
    v1: Seq<u8>,
    v2: Seq<u8>,
    w: int,
    bs: Seq<(i32, i32)>,
    limit: Single,
) -> bool {
    forall|k: int|
        #![trigger bs[k]]
        0 <= k < bs.len() ==> agree_in(mask, v1, v2, w, bs[k], limit)
}

/// Compares two images in the inner rows of one band.
fn agrees_in(
    mask: &[u8],
    v1: &[u8],
    v2: &[u8],
    w: usize,
    h: usize,
    band: (i32, i32),
    limit: Single,
) -> (r: bool)
    requires
        limit.wf(),
        grid::frame_size(w as int, h as int),
        mask@.len() == w * h,
        v1@.len() == w * h,
        v2@.len() == w * h,
        0 <= band.0 <= band.1 < h,
    ensures
        r == agree_in(mask@, v1@, v2@, w as int, band, limit),
{
    let ghost wi = w as int;
    let ghost a = (band.0 + 1) * wi;
    let ghost b = (band.1 - 1) * wi;
    let ghost f1 = |i: int| mask@[i] == 255 && v1@[i] != v2@[i] && v1@[i] == 255;
    let ghost f2 = |i: int| mask@[i] == 255 && v1@[i] != v2@[i] && v1@[i] != 255;
    let ghost f3 = |i: int| mask@[i] == 255 && v1@[i] == v2@[i] && v1@[i] == 255;
    proof {
        grid::lemma_sides(wi, h as int);
    }
    if band.1 - band.0 < 2 {
        proof {
            assert(b <= a) by (nonlinear_arith)
                requires
                    a == (band.0 + 1) * wi,
                    b == (band.1 - 1) * wi,
                    band.1 - 1 <= band.0 + 1,
                    wi >= 1,
            ;
        }
        return false;
    }
    proof {
        grid::lemma_row_start(band.0 + 1, wi, h as int);
        grid::lemma_row_start(band.1 - 1, wi, h as int);
        assert(a <= b) by (nonlinear_arith)
            requires
                a == (band.0 + 1) * wi,
                b == (band.1 - 1) * wi,
                band.0 + 1 <= band.1 - 1,
                wi >= 1,
        ;
    }
    let start: usize = (band.0 as usize + 1) * w;
    let end: usize = (band.1 as usize - 1) * w;
    let mut only_first: u64 = 0;
    let mut other: u64 = 0;
    let mut both: u64 = 0;
    let mut i: usize = start;
    while i < end
        invariant
            mask@.len() == w * h,
            v1@.len() == w * h,
            v2@.len() == w * h,
            w * h <= 0x7fff_ffff,
            a == start,
            b == end,
            start <= i <= end <= w * h,
            f1 == (|i: int| mask@[i] == 255 && v1@[i] != v2@[i] && v1@[i] == 255),
            f2 == (|i: int| mask@[i] == 255 && v1@[i] != v2@[i] && v1@[i] != 255),
            f3 == (|i: int| mask@[i] == 255 && v1@[i] == v2@[i] && v1@[i] == 255),
            only_first == count_if(f1, a, i as int),
            other == count_if(f2, a, i as int),
            both == count_if(f3, a, i as int),
            only_first <= i,
            other <= i,
            both <= i,
        decreases end - i,
    {
        if mask[i] == 255 {
            if v1[i] != v2[i] {
                if v1[i] == 255 {
                    only_first = only_first + 1;
                } else {
                    other = other + 1;
                }
            } else if v1[i] == 255 {
                both = both + 1;
            }
        }
        i = i + 1;
    }
    let dif: u64 = if other > only_first {
        other
    } else {
        only_first
    };
    proof {
        let scale = vstd::arithmetic::power2::pow2(limit.shift as nat);
        assert(only_first * scale <= dif * scale && other * scale <= dif * scale)
            by (nonlinear_arith)
            requires
                only_first <= dif,
                other <= dif,
                scale >= 0,
        ;
    }
    both > 0 && !limit.is_exceeded_by(dif, both)
}

/// Compares the edges `im_ve1` and `im_ve2` of two frames in the text bands,
/// where `im_res` is white.
fn compare_ve(
    im_res: &[u8],
    bs: &Vec<(i32, i32)>,
    w: usize,
    h: usize,
    limit: Single,
    im_ve1: &[u8],
    im_ve2: &[u8],
) -> (r: bool)
    requires
        limit.wf(),
        grid::frame_size(w as int, h as int),
        im_res@.len() == w * h,
        im_ve1@.len() == w * h,
        im_ve2@.len() == w * h,
        runs::separated(bs@, h as int),
    ensures
        r == agree(im_res@, im_ve1@, im_ve2@, w as int, bs@, limit),
{
    let mut k: usize = 0;
    while k < bs.len()
        invariant
            limit.wf(),
            grid::frame_size(w as int, h as int),
            im_res@.len() == w * h,
            im_ve1@.len() == w * h,
            im_ve2@.len() == w * h,
            runs::separated(bs@, h as int),
            k <= bs@.len(),
            forall|j: int|
                #![trigger bs@[j]]
                0 <= j < k ==> agree_in(im_res@, im_ve1@, im_ve2@, w as int, bs@[j], limit),
        decreases bs@.len() - k,
    {
        proof {
            let _ = bs@[k as int];
        }
        if !agrees_in(im_res, im_ve1, im_ve2, w, h, bs[k], limit) {
            return false;
        }
        k = k + 1;
    }
    true
}

/// An image that is white everywhere.
pub open spec fn all_white(n: nat) -> Seq<u8> {
    Seq::new(n, |i: int| 255u8)
}

/// Compares the text areas `im1` and `im2` of two frames in the text bands.
fn compare_ila(
    bs: &Vec<(i32, i32)>,
    w: usize,
    h: usize,
    limit: Single,
    im1: &[u8],
    im2: &[u8],
) -> (r: bool)
    requires
        limit.wf(),
        grid::frame_size(w as int, h as int),
        im1@.len() == w * h,
        im2@.len() == w * h,
        runs::separated(bs@, h as int),
    ensures
        r == agree(all_white((w * h) as nat), im1@, im2@, w as int, bs@, limit),
{
    let everywhere: Vec<u8> = vec![255u8; im1.len()];
    proof {
        assert(everywhere@ =~= all_white((w * h) as nat));
    }
    compare_ve(everywhere.as_slice(), bs, w, h, limit, im1, im2)
}

/// `im` without the pixels that have no brightness in `ila`, where there is one.
pub open spec fn lit(im: Seq<u8>, ila: Option<Seq<u16>>) -> Seq<u8> {
    match ila {
        Some(b) => imgops::masked(im, b, 0u8),
        None => im,
    }
}

/// One side of a comparison.
#[verifier::ext_equal]
pub struct Side {
    /// Text areas.
    pub im: Seq<u8>,
    /// Brightness, where it is to be compared.
    pub ila: Option<Seq<u16>>,
    /// Edges.
    pub ve: Seq<u8>,
}

impl Side {
    /// Whether all images have `n` pixels.
    pub open spec fn sized(self, n: nat) -> bool {
        &&& self.im.len() == n
        &&& self.ve.len() == n
        &&& self.ila is Some ==> self.ila->0.len() == n
    }
}

/// The text bands of two frames taken together.
pub open spec fn common_bands(a: Seq<u8>, b: Seq<u8>, w: int, h: int, segh: int) -> Seq<
    (i32, i32),
> {
    bands::lines_info(imgops::union(a, b, (w * h) as nat), w, h, segh)
}

/// The text areas of the first side that lie on its edges.
pub open spec fn edged(a: Side, also: Option<Seq<u8>>) -> Seq<u8> {
    let on_first = imgops::masked(lit(a.im, a.ila), a.ve, 0u8);
    match also {
        Some(ve) => imgops::masked(on_first, ve, 0u8),
        None => on_first,
    }
}

/// The part of `text` that keeps its brightness from `i1` to `i2`, widened by
/// one pixel inside `text`, and on the edges `ve`.
pub open spec fn lasting(
    text: Seq<u8>,
    i1: Seq<u16>,
    i2: Seq<u16>,
    ve: Seq<u8>,
    w: int,
    p: Params,
) -> Seq<u8> {
    let both = imgops::steady_in(i1, i2, p.max_dl_down as int, p.max_dl_up as int);
    let wide = imgops::dilated(imgops::masked(text, both, 0u8), w, 1);
    imgops::masked(imgops::masked(wide, text, 0u8), ve, 0u8)
}

/// Whether two frames show the same subtitle.
///
/// In every text band the edges of the first side, or else the edges `also`,
/// agree with those of the second. Where both sides have a brightness, the text
/// on the edges of the first side also lasts into the second.
pub open spec fn same_subs(
    a: Side,
    also: Option<Seq<u8>>,
    b: Side,
    w: int,
    h: int,
    p: Params,
) -> bool {
    let fa = lit(a.im, a.ila);
    let fb = lit(b.im, b.ila);
    let all = imgops::union(fa, fb, (w * h) as nat);
    let bs = bands::lines_info(all, w, h, p.segh as int);
    let text = edged(a, also);
    &&& bs.len() > 0
    &&& agree(all, a.ve, b.ve, w, bs, p.veple) || (also is Some && agree(
        all,
        also->0,
        b.ve,
        w,
        bs,
        p.veple,
    ))
    &&& a.ila is Some && b.ila is Some ==> agree(
        all_white((w * h) as nat),
        lasting(text, a.ila->0, b.ila->0, b.ve, w, p),
        text,
        w,
        bs,
        p.ilaple,
    )
}

/// The view of an optional image.
pub open spec fn view16(a: Option<&[u16]>) -> Option<Seq<u16>> {
    match a {
        Some(s) => Some(s@),
        None => None,
    }
}

/// The view of an optional image.
pub open spec fn view8(a: Option<&[u8]>) -> Option<Seq<u8>> {
    match a {
        Some(s) => Some(s@),
        None => None,
    }
}

/// A copy of `im` without the pixels that have no brightness in `ila`.
fn light(im: &[u8], ila: Option<&[u16]>) -> (r: Vec<u8>)
    ensures
        r@ == lit(im@, view16(ila)),
        r@.len() == im@.len(),
{
    let mut r: Vec<u8> = copy(im);
    match ila {
        Some(b) => {
            intersect_two_images_inplace(r.as_mut_slice(), b, 0u8);
        },
        None => {},
    }
    r
}

/// Decides whether the text on the edges of the first side lasts into the second.
fn compare_brightness(
    ff: &Vec<u8>,
    ila1: &[u16],
    ve1: &[u8],
    ve1b: Option<&[u8]>,
    ila2: &[u16],
    ve2: &[u8],
    bs: &Vec<(i32, i32)>,
    w: usize,
    h: usize,
    p: &Params,
) -> (r: bool)
    requires
        p.wf(),
        grid::frame_size(w as int, h as int),
        ff@.len() == w * h,
        runs::separated(bs@, h as int),
    ensures
        ({
            let on_first = imgops::masked(ff@, ve1@, 0u8);
            let text = match view8(ve1b) {
                Some(ve) => imgops::masked(on_first, ve, 0u8),
                None => on_first,
            };
            r == agree(
                all_white((w * h) as nat),
                lasting(text, ila1@, ila2@, ve2@, w as int, *p),
                text,
                w as int,
                bs@,
                p.ilaple,
            )
        }),
{
    let mut text: Vec<u8> = copy(ff.as_slice());
    intersect_two_images_inplace(text.as_mut_slice(), ve1, 0u8);
    match ve1b {
        Some(ve) => {
            intersect_two_images_inplace(text.as_mut_slice(), ve, 0u8);
        },
        None => {},
    }
    let mut both: Vec<u16> = copy(ila1);
    intersect_y_images(both.as_mut_slice(), ila2, p.max_dl_down as i32, p.max_dl_up as i32);
    let mut kept: Vec<u8> = copy(text.as_slice());
    intersect_two_images_inplace(kept.as_mut_slice(), both.as_slice(), 0u8);
    let mut wide: Vec<u8> = dilate(kept.as_slice(), w, h, 1);
    intersect_two_images_inplace(wide.as_mut_slice(), text.as_slice(), 0u8);
    intersect_two_images_inplace(wide.as_mut_slice(), ve2, 0u8);
    compare_ila(bs, w, h, p.ilaple, wide.as_slice(), text.as_slice())
}

/// Compares the subtitles of two frames. True when they are the same.
pub fn compare_two_subs(
    im1: &[u8],
    ila1: Option<&[u16]>,
    ve1: &[u8],
    ve1b: Option<&[u8]>,
    im2: &[u8],
    ila2: Option<&[u16]>,
    ve2: &[u8],
    w: usize,
    h: usize,
    p: &Params,
) -> (same: bool)
    requires
        p.wf(),
        grid::frame_size(w as int, h as int),
        im1@.len() == w * h,
        ve1@.len() == w * h,
        ve1b is Some ==> ve1b->0@.len() == w * h,
        im2@.len() == w * h,
        ve2@.len() == w * h,
    ensures
        same == same_subs(
            (Side { im: im1@, ila: view16(ila1), ve: ve1@ }),
            view8(ve1b),
            (Side { im: im2@, ila: view16(ila2), ve: ve2@ }),
            w as int,
            h as int,
            *p,
        ),
{
    let ff1: Vec<u8> = light(im1, ila1);
    let ff2: Vec<u8> = light(im2, ila2);
    let all: Vec<u8> = add_two_images(ff1.as_slice(), ff2.as_slice(), ff1.len());
    let bs: Vec<(i32, i32)> = get_lines_info(all.as_slice(), w, h, p.segh);
    if bs.len() == 0 {
        return false;
    }
    let edges: bool = compare_ve(all.as_slice(), &bs, w, h, p.veple, ve1, ve2) || match ve1b {
        Some(ve) => compare_ve(all.as_slice(), &bs, w, h, p.veple, ve, ve2),
        None => false,
    };
    if !edges {
        return false;
    }
    match ila1 {
        Some(i1) => match ila2 {
            Some(i2) => compare_brightness(&ff1, i1, ve1, ve1b, i2, ve2, &bs, w, h, p),
            None => true,
        },
        None => true,
    }
}

/// The first rows of bands.
pub open spec fn firsts(bs: Seq<(i32, i32)>) -> Seq<i32> {
    Seq::new(bs.len(), |k: int| bs[k].0)
}

/// The last rows of bands.
pub open spec fn lasts(bs: Seq<(i32, i32)>) -> Seq<i32> {
    Seq::new(bs.len(), |k: int| bs[k].1)
}

/// One pass of filtering text areas: strips, then small figures where text is left.
pub open spec fn filtered_once(
    im: Seq<u8>,
    ne: Seq<u8>,
    bs: Seq<(i32, i32)>,
    w: int,
    h: int,
    p: Params,
) -> Seq<u8> {
    let (im1, text) = filter::bands_filtered(
        im,
        ne,
        firsts(bs),
        lasts(bs),
        bs.len(),
        h,
        StripLimits::given_by(p, w),
    );
    if text {
        filter::without_small(
            im1,
            w,
            strip::cap31(p.msh.part_of(h as nat)),
            p.segh as int,
        )
    } else {
        im1
    }
}

proof fn lemma_limits(p: Params, w: int)
    requires
        p.wf(),
        1 <= w <= 0x7fff_ffff,
    ensures
        StripLimits::given_by(p, w).wf(),
        StripLimits::given_by(p, w).w == w,
{
}

/// A pass only blanks pixels.
pub proof fn lemma_filtered_once(
    im: Seq<u8>,
    ne: Seq<u8>,
    bs: Seq<(i32, i32)>,
    w: int,
    h: int,
    p: Params,
)
    requires
        p.wf(),
        grid::frame_size(w, h),
        w <= 0x7fff_ffff,
        im.len() == w * h,
        runs::separated(bs, h),
    ensures
        grid::only_cleared(im, filtered_once(im, ne, bs, w, h, p)),
{
    lemma_limits(p, w);
    lemma_bands_fit(bs, h);
    filter::bands_only_lose_pixels(
        im,
        ne,
        firsts(bs),
        lasts(bs),
        bs.len(),
        h,
        StripLimits::given_by(p, w),
    );
}

proof fn lemma_bands_fit(bs: Seq<(i32, i32)>, h: int)
    requires
        runs::separated(bs, h),
    ensures
        filter::bands_fit(firsts(bs), lasts(bs), bs.len() as int, h),
{
    assert forall|k: int| 0 <= k < bs.len() implies 0 <= #[trigger] firsts(bs)[k] by {
        let _ = bs[k];
    }
    assert forall|k: int| 0 <= k < bs.len() implies #[trigger] lasts(bs)[k] < h by {
        let _ = bs[k];
    }
}

/// Text areas filtered until a pass changes nothing.
pub open spec fn image_filtered(
    im: Seq<u8>,
    ne: Seq<u8>,
    bs: Seq<(i32, i32)>,
    w: int,
    h: int,
    p: Params,
) -> Seq<u8>
    decreases grid::marked(im),
    when p.wf() && grid::frame_size(w, h) && w <= 0x7fff_ffff && im.len() == w * h
        && runs::separated(bs, h)
{
    let once = filtered_once(im, ne, bs, w, h, p);
    if once == im {
        im
    } else {
        proof {
            lemma_filtered_once(im, ne, bs, w, h, p);
            grid::lemma_fewer_marked(im, once);
        }
        image_filtered(once, ne, bs, w, h, p)
    }
}

/// Filters text areas until a pass changes nothing.
fn filter_image(
    im_f: &mut Vec<u8>,
    im_ne: &[u8],
    w: usize,
    h: usize,
    p: &Params,
    bs: &Vec<(i32, i32)>,
)
    requires
        p.wf(),
        grid::frame_size(w as int, h as int),
        w <= 0x7fff_ffff,
        old(im_f)@.len() == w * h,
        im_ne@.len() == w * h,
        runs::separated(bs@, h as int),
    ensures
        final(im_f)@ == image_filtered(old(im_f)@, im_ne@, bs@, w as int, h as int, *p),
        final(im_f)@.len() == old(im_f)@.len(),
{
    let ghost goal = image_filtered(im_f@, im_ne@, bs@, w as int, h as int, *p);
    let mut lb: Vec<i32> = Vec::new();
    let mut le: Vec<i32> = Vec::new();
    let mut k: usize = 0;
    while k < bs.len()
        invariant
            k <= bs@.len(),
            lb@ == firsts(bs@.take(k as int)),
            le@ == lasts(bs@.take(k as int)),
        decreases bs@.len() - k,
    {
        lb.push(bs[k].0);
        le.push(bs[k].1);
        k = k + 1;
        proof {
            assert(lb@ =~= firsts(bs@.take(k as int)));
            assert(le@ =~= lasts(bs@.take(k as int)));
        }
    }
    proof {
        assert(bs@.take(k as int) =~= bs@);
        lemma_bands_fit(bs@, h as int);
        lemma_limits(*p, w as int);
    }
    loop
        invariant_except_break
            goal == image_filtered(im_f@, im_ne@, bs@, w as int, h as int, *p),
        invariant
            p.wf(),
            grid::frame_size(w as int, h as int),
            w <= 0x7fff_ffff,
            im_f@.len() == w * h,
            im_ne@.len() == w * h,
            runs::separated(bs@, h as int),
            lb@ == firsts(bs@),
            le@ == lasts(bs@),
            filter::bands_fit(lb@, le@, bs@.len() as int, h as int),
        ensures
            goal == im_f@,
        decreases grid::marked(im_f@),
    {
        let prev: Vec<u8> = copy(im_f.as_slice());
        proof {
            lemma_filtered_once(prev@, im_ne@, bs@, w as int, h as int, *p);
            grid::lemma_fewer_marked(
                prev@,
                filtered_once(prev@, im_ne@, bs@, w as int, h as int, *p),
            );
        }
        if second_filtration(
            im_f.as_mut_slice(),
            im_ne,
            lb.as_slice(),
            le.as_slice(),
            bs.len(),
            w,
            h,
            p,
        ) == 1 {
            clear_image_from_small_symbols(im_f.as_mut_slice(), w, h, p);
        }
        assert(im_f@ == filtered_once(prev@, im_ne@, bs@, w as int, h as int, *p));
        if same_pixels(&prev, im_f) {
            break;
        }
    }
}

/// Whether two images of the same size are equal.
fn same_pixels(a: &Vec<u8>, b: &Vec<u8>) -> (r: bool)
    requires
        a@.len() == b@.len(),
    ensures
        r == (a@ == b@),
{
    let mut i: usize = 0;
    while i < a.len()
        invariant
            a@.len() == b@.len(),
            i <= a@.len(),
            forall|j: int| 0 <= j < i ==> a@[j] == b@[j],
        decreases a@.len() - i,
    {
        if a[i] != b[i] {
            return false;
        }
        i = i + 1;
    }
    assert(a@ =~= b@);
    true
}

/// The rows of a band as an image of their own.
pub open spec fn band_of(im: Seq<u8>, w: int, b: (i32, i32)) -> Seq<u8> {
    im.subrange(b.0 * w, (b.1 + 1) * w)
}

/// Whether a row lies in a band without a line of text.
pub open spec fn in_idle_band(
    im: Seq<u8>,
    w: int,
    bs: Seq<(i32, i32)>,
    n: int,
    p: Params,
    y: int,
) -> bool {
    exists|k: int|
        #![trigger bs[k]]
        0 <= k < n && runs::in_run(bs[k], y) && !preprocess::has_text(
            band_of(im, w, bs[k]),
            w,
            bs[k].1 - bs[k].0 + 1,
            p,
        )
}

/// The image with the bands blanked that have no line of text.
pub open spec fn idle_cleared(im: Seq<u8>, w: int, h: int, p: Params) -> Seq<u8> {
    let bs = bands::lines_info(im, w, h, p.segh as int);
    Seq::new(
        im.len(),
        |i: int|
            if in_idle_band(im, w, bs, bs.len() as int, p, grid::row(i, w)) {
                0u8
            } else {
                im[i]
            },
    )
}

/// Whether the rows of a band hold a line of text.
fn band_has_text(im: &Vec<u8>, w: usize, h: usize, p: &Params, b: (i32, i32)) -> (r: bool)
    requires
        p.wf(),
        grid::frame_size(w as int, h as int),
        w <= 0x7fff_ffff,
        im@.len() == w * h,
        0 <= b.0 <= b.1 < h,
    ensures
        r == preprocess::has_text(band_of(im@, w as int, b), w as int, b.1 - b.0 + 1, *p),
{
    let ghost wi = w as int;
    let ghost hi = h as int;
    let ghost rows = b.1 - b.0 + 1;
    proof {
        grid::lemma_sides(wi, hi);
        grid::lemma_row_start(b.0 as int, wi, hi);
        grid::lemma_row_start(b.1 + 1, wi, hi);
        assert((b.1 + 1) * wi - b.0 * wi == rows * wi) by (nonlinear_arith)
            requires
                rows == b.1 - b.0 + 1,
        ;
        assert(0 <= rows * wi) by (nonlinear_arith)
            requires
                rows >= 0,
                wi >= 0,
        ;
    }
    let start: usize = b.0 as usize * w;
    let end: usize = (b.1 as usize + 1) * w;
    let mut sub: Vec<u8> = Vec::new();
    let mut i: usize = start;
    while i < end
        invariant
            start <= i <= end <= im@.len(),
            sub@ == im@.subrange(start as int, i as int),
        decreases end - i,
    {
        sub.push(im[i]);
        i = i + 1;
        proof {
            assert(sub@ =~= im@.subrange(start as int, i as int));
        }
    }
    match Plane::new((b.1 - b.0) as usize + 1, w, sub) {
        Some(plane) => analyse_image(&plane, p),
        None => false,
    }
}

/// Blanks the bands of an image that have no line of text.
fn filter_image_analyse(im_f: &mut Vec<u8>, w: usize, h: usize, p: &Params)
    requires
        p.wf(),
        grid::frame_size(w as int, h as int),
        w <= 0x7fff_ffff,
        old(im_f)@.len() == w * h,
    ensures
        final(im_f)@ == idle_cleared(old(im_f)@, w as int, h as int, *p),
        final(im_f)@.len() == old(im_f)@.len(),
{
    let ghost before = im_f@;
    let ghost wi = w as int;
    let ghost hi = h as int;
    let bs: Vec<(i32, i32)> = get_lines_info(im_f.as_slice(), w, h, p.segh);
    let mut k: usize = 0;
    while k < bs.len()
        invariant
            p.wf(),
            grid::frame_size(wi, hi),
            wi == w,
            hi == h,
            w <= 0x7fff_ffff,
            before.len() == w * h,
            im_f@.len() == before.len(),
            runs::separated(bs@, hi),
            k <= bs@.len(),
            forall|i: int|
                #![trigger im_f@[i]]
                0 <= i < before.len() ==> im_f@[i] == if in_idle_band(
                    before,
                    wi,
                    bs@,
                    k as int,
                    *p,
                    grid::row(i, wi),
                ) {
                    0u8
                } else {
                    before[i]
                },
        decreases bs@.len() - k,
    {
        let b: (i32, i32) = bs[k];
        let ghost prev = im_f@;
        proof {
            assert(bs@[k as int] == b);
            grid::lemma_row_start(b.0 as int, wi, hi);
            grid::lemma_row_start(b.1 + 1, wi, hi);
            assert(b.0 * wi <= (b.1 + 1) * wi) by (nonlinear_arith)
                requires
                    b.0 <= b.1,
                    wi >= 0,
            ;
            assert forall|i: int| b.0 * wi <= i < (b.1 + 1) * wi implies prev[i] == before[i] by {
                grid::lemma_of(i, wi, hi);
                let y = grid::row(i, wi);
                assert(runs::in_run(b, y)) by {
                    assert(y * wi > (b.0 - 1) * wi) by {
                        assert((b.0 - 1) * wi == b.0 * wi - wi) by (nonlinear_arith);
                    }
                    assert(y >= b.0) by (nonlinear_arith)
                        requires
                            y * wi > (b.0 - 1) * wi,
                            wi >= 1,
                    ;
                    assert(y < b.1 + 1) by (nonlinear_arith)
                        requires
                            y * wi < (b.1 + 1) * wi,
                            wi >= 1,
                    ;
                }
                if in_idle_band(before, wi, bs@, k as int, *p, y) {
                    let j = choose|j: int|
                        #![trigger bs@[j]]
                        0 <= j < k && runs::in_run(bs@[j], y) && !preprocess::has_text(
                            band_of(before, wi, bs@[j]),
                            wi,
                            bs@[j].1 - bs@[j].0 + 1,
                            *p,
                        );
                    assert(bs@[j].1 + 1 < bs@[k as int].0);
                }
            }
            assert(band_of(prev, wi, b) =~= band_of(before, wi, b));
        }
        let some: bool = band_has_text(im_f, w, h, p, b);
        if !some {
            clear_rows(im_f.as_mut_slice(), w, h, b.0 as usize, b.1 as usize);
        }
        proof {
            assert forall|i: int|
                #![trigger im_f@[i]]
                0 <= i < before.len() implies im_f@[i] == if in_idle_band(
                before,
                wi,
                bs@,
                k + 1,
                *p,
                grid::row(i, wi),
            ) {
                0u8
            } else {
                before[i]
            } by {
                let y = grid::row(i, wi);
                let _ = prev[i];
                if in_idle_band(before, wi, bs@, k as int, *p, y) {
                    let j = choose|j: int|
                        #![trigger bs@[j]]
                        0 <= j < k && runs::in_run(bs@[j], y) && !preprocess::has_text(
                            band_of(before, wi, bs@[j]),
                            wi,
                            bs@[j].1 - bs@[j].0 + 1,
                            *p,
                        );
                    assert(0 <= j < k + 1 && runs::in_run(bs@[j], y));
                    assert(in_idle_band(before, wi, bs@, k + 1, *p, y));
                }
                if runs::in_run(b, y) && !some {
                    assert(bs@[k as int] == b);
                    assert(in_idle_band(before, wi, bs@, k + 1, *p, y));
                }
            }
        }
        k = k + 1;
    }
    assert(im_f@ =~= idle_cleared(before, wi, hi, *p));
}

/// Text areas freed of noise: those with a brightness, filtered in the text
/// bands `bs` where there are any, and without bands that have no line of text.
pub open spec fn denoised(
    s: Side,
    bs: Seq<(i32, i32)>,
    w: int,
    h: int,
    p: Params,
) -> Seq<u8> {
    let im = lit(s.im, s.ila);
    idle_cleared(
        if bs.len() > 0 {
            image_filtered(im, s.ve, bs, w, h, p)
        } else {
            im
        },
        w,
        h,
        p,
    )
}

/// Whether two frames show the same subtitle, as they are or freed of noise.
pub open spec fn same_subs_optimal(
    a: Side,
    also: Option<Seq<u8>>,
    b: Side,
    w: int,
    h: int,
    p: Params,
) -> bool {
    let bs = common_bands(a.im, b.im, w, h, p.segh as int);
    same_subs(a, also, b, w, h, p) || same_subs(
        Side { im: denoised(a, bs, w, h, p), ..a },
        also,
        Side { im: denoised(b, bs, w, h, p), ..b },
        w,
        h,
        p,
    )
}

/// Frees text areas of noise.
fn denoise(
    im: &[u8],
    ila: Option<&[u16]>,
    ve: &[u8],
    bs: &Vec<(i32, i32)>,
    w: usize,
    h: usize,
    p: &Params,
) -> (r: Vec<u8>)
    requires
        p.wf(),
        grid::frame_size(w as int, h as int),
        w <= 0x7fff_ffff,
        im@.len() == w * h,
        ve@.len() == w * h,
        runs::separated(bs@, h as int),
    ensures
        r@ == denoised(
            (Side { im: im@, ila: view16(ila), ve: ve@ }),
            bs@,
            w as int,
            h as int,
            *p,
        ),
        r@.len() == w * h,
{
    let mut r: Vec<u8> = light(im, ila);
    if bs.len() > 0 {
        filter_image(&mut r, ve, w, h, p, bs);
    }
    filter_image_analyse(&mut r, w, h, p);
    r
}

/// Compares the subtitles of two frames, and once more freed of noise when
/// they differ. True when they are the same.
pub fn compare_two_subs_optimal(
    im1: &[u8],
    ila1: Option<&[u16]>,
    ve1: &[u8],
    ve1b: Option<&[u8]>,
    im2: &[u8],
    ila2: Option<&[u16]>,
    ve2: &[u8],
    w: usize,
    h: usize,
    _min_x: i32,
    _max_x: i32,
    p: &Params,
) -> (same: bool)
    requires
        p.wf(),
        grid::frame_size(w as int, h as int),
        w <= 0x7fff_ffff,
        im1@.len() == w * h,
        ve1@.len() == w * h,
        ve1b is Some ==> ve1b->0@.len() == w * h,
        im2@.len() == w * h,
        ve2@.len() == w * h,
    ensures
        same == same_subs_optimal(
            (Side { im: im1@, ila: view16(ila1), ve: ve1@ }),
            view8(ve1b),
            (Side { im: im2@, ila: view16(ila2), ve: ve2@ }),
            w as int,
            h as int,
            *p,
        ),
{
    if compare_two_subs(im1, ila1, ve1, ve1b, im2, ila2, ve2, w, h, p) {
        return true;
    }
    let all: Vec<u8> = add_two_images(im1, im2, im1.len());
    let bs: Vec<(i32, i32)> = get_lines_info(all.as_slice(), w, h, p.segh);
    let ff1: Vec<u8> = denoise(im1, ila1, ve1, &bs, w, h, p);
    let ff2: Vec<u8> = denoise(im2, ila2, ve2, &bs, w, h, p);
    compare_two_subs(ff1.as_slice(), ila1, ve1, ve1b, ff2.as_slice(), ila2, ve2, w, h, p)
}

} // verus!
