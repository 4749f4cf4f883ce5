//! What makes an image count as one with text, and what clearing it of other
//! things leaves.
use super::agreement;
use super::agreement::number;
use super::compare;
use super::compare::Side;
use super::grid;
use super::params::Params;
use super::preprocess;
use super::runs;
use super::strip;
use vstd::prelude::*;

verus! {

/// Whether a pixel is white.
pub open spec fn white(im: Seq<u8>) -> spec_fn(int) -> bool {
    |i: int| im[i] == 255
}

/// How many white pixels a strip of an image has, of those that divide it from
/// above.
pub open spec fn strip_whites(im: Seq<u8>, w: int, segh: int, k: int) -> nat {
    number(white(im), k * segh * w, (k + 1) * segh * w)
}

/// Whether a column of a strip has a white pixel.
pub open spec fn strip_column(im: Seq<u8>, w: int, segh: int, k: int) -> spec_fn(int) -> bool {
    |x: int|
        exists|y: int| k * segh <= y < k * segh + segh && #[trigger] im[y * w + x] == 255
}

/// How many columns of a strip have a white pixel.
pub open spec fn strip_columns(im: Seq<u8>, w: int, segh: int, k: int) -> nat {
    number(strip_column(im, w, segh, k), 0, w)
}

/// Whether a strip is the first of those with the most white pixels.
pub open spec fn is_whitest(im: Seq<u8>, w: int, segh: int, n: int, k: int) -> bool {
    &&& 0 <= k < n
    &&& forall|j: int|
        0 <= j < n ==> #[trigger] strip_whites(im, w, segh, j) <= strip_whites(im, w, segh, k)
    &&& forall|j: int|
        0 <= j < k ==> #[trigger] strip_whites(im, w, segh, j) < strip_whites(im, w, segh, k)
}

proof fn lemma_white(im: Seq<u8>, a: int, b: int)
    ensures
        strip::count_white(im, a, b) == compare::count_if(white(im), a, b),
    decreases b - a,
{
    if a < b {
        lemma_white(im, a, b - 1);
    }
}

proof fn lemma_density(im: Seq<u8>, w: int, segh: int, k: int)
    ensures
        preprocess::density(im, w, segh, k) == strip_whites(im, w, segh, k),
{
    lemma_white(im, k * segh * w, (k + 1) * segh * w);
    agreement::lemma_number(white(im), k * segh * w, (k + 1) * segh * w);
}

proof fn lemma_columns(im: Seq<u8>, w: int, segh: int, k: int, n: nat)
    ensures
        preprocess::text_columns(im, w, k * segh, segh, n) == compare::count_if(
            strip_column(im, w, segh, k),
            0,
            n as int,
        ),
    decreases n,
{
    if n > 0 {
        lemma_columns(im, w, segh, k, (n - 1) as nat);
        let x = n - 1;
        let top = k * segh;
        let f = strip_column(im, w, segh, k);
        if preprocess::text_column(im, w, top, segh, x) {
            let y = choose|y: int|
                top <= y < top + segh && #[trigger] grid::at(im, w, x, y) == 255;
            assert(im[y * w + x] == 255);
            assert(f(x));
        }
        if f(x) {
            let y = choose|y: int|
                k * segh <= y < k * segh + segh && #[trigger] im[y * w + x] == 255;
            assert(grid::at(im, w, x, y) == 255);
        }
    }
}

/// An image has text just when the strip with the most white pixels, the first of
/// them, has white pixels in more than the given part of its columns.
pub proof fn text_fills_the_whitest_strip(im: Seq<u8>, w: int, h: int, p: Params, k: int)
    requires
        p.wf(),
        0 <= w,
        is_whitest(im, w, p.segh as int, h / (p.segh as int), k),
    ensures
        preprocess::has_text(im, w, h, p) <==> strip_columns(im, w, p.segh as int, k)
            > p.mtpl.part_of(w as nat),
{
    let segh = p.segh as int;
    let n = h / segh;
    assert forall|j: int| #[trigger] preprocess::density(im, w, segh, j) == strip_whites(
        im,
        w,
        segh,
        j,
    ) by {
        lemma_density(im, w, segh, j);
    }
    assert(preprocess::densest(im, w, segh, n, k)) by {
        assert forall|j: int| 0 <= j < n implies #[trigger] preprocess::density(im, w, segh, j)
            <= preprocess::density(im, w, segh, k) by {
            assert(strip_whites(im, w, segh, j) <= strip_whites(im, w, segh, k));
        }
        assert forall|j: int| 0 <= j < k implies #[trigger] preprocess::density(im, w, segh, j)
            < preprocess::density(im, w, segh, k) by {
            assert(strip_whites(im, w, segh, j) < strip_whites(im, w, segh, k));
        }
    }
    lemma_columns(im, w, segh, k, w as nat);
    agreement::lemma_number(strip_column(im, w, segh, k), 0, w);
    assert(preprocess::text_columns(im, w, k * p.segh, segh, w as nat) == strip_columns(
        im,
        w,
        segh,
        k,
    ));
    assert forall|j: int|
        preprocess::densest(im, w, segh, n, j) implies j == k by {
        if j < k {
            assert(preprocess::density(im, w, segh, j) < preprocess::density(im, w, segh, k));
            assert(preprocess::density(im, w, segh, k) <= preprocess::density(im, w, segh, j));
        } else if k < j {
            assert(preprocess::density(im, w, segh, k) < preprocess::density(im, w, segh, j));
            assert(preprocess::density(im, w, segh, j) <= preprocess::density(im, w, segh, k));
        }
    }
}

/// Two frames show the same subtitle as soon as they do as they are, or do when
/// both are freed of noise.
pub proof fn noise_does_not_hide_a_subtitle(
    a: Side,
    also: Option<Seq<u8>>,
    b: Side,
    w: int,
    h: int,
    p: Params,
)
    ensures
        ({
            let bs = compare::common_bands(a.im, b.im, w, h, p.segh as int);
            let fa = Side { im: compare::denoised(a, bs, w, h, p), ..a };
            let fb = Side { im: compare::denoised(b, bs, w, h, p), ..b };
            compare::same_subs_optimal(a, also, b, w, h, p) <==> compare::same_subs(
                a,
                also,
                b,
                w,
                h,
                p,
            ) || compare::same_subs(fa, also, fb, w, h, p)
        }),
{
}

/// Filtering goes on until it changes nothing any more, and only blanks pixels.
pub proof fn filtering_ends_where_nothing_changes(
    im: Seq<u8>,
    ne: Seq<u8>,
    bs: Seq<(i32, i32)>,
    w: int,
    h: int,
    p: Params,
)
    requires
        p.wf(),
        grid::frame_size(w, h),
        w <= 0x7fff_ffff,
        im.len() == w * h,
        runs::separated(bs, h),
    ensures
        ({
            let r = compare::image_filtered(im, ne, bs, w, h, p);
            &&& r.len() == im.len()
            &&& compare::filtered_once(r, ne, bs, w, h, p) == r
            &&& forall|i: int| 0 <= i < im.len() ==> #[trigger] r[i] == im[i] || r[i] == 0
            &&& compare::filtered_once(im, ne, bs, w, h, p) == im ==> r == im
        }),
    decreases grid::marked(im),
{
    let once = compare::filtered_once(im, ne, bs, w, h, p);
    if once != im {
        compare::lemma_filtered_once(im, ne, bs, w, h, p);
        grid::lemma_fewer_marked(im, once);
        filtering_ends_where_nothing_changes(once, ne, bs, w, h, p);
        let r = compare::image_filtered(im, ne, bs, w, h, p);
        assert forall|i: int| 0 <= i < im.len() implies #[trigger] r[i] == im[i] || r[i] == 0 by {
            assert(once[i] == im[i] || once[i] == 0);
        }
    }
}

/// The rows of a line without enough text are blanked, those of a line with
/// enough of it and those outside all lines stay.
pub proof fn lines_without_text_are_cleared(
    im: Seq<u8>,
    w: int,
    h: int,
    p: Params,
    k: int,
    i: int,
)
    requires
        0 <= h <= 0x7fff_ffff,
        0 < w,
        0 <= i < im.len(),
        0 <= k < super::bands::lines_info(im, w, h, p.segh as int).len(),
        super::bands::lines_info(im, w, h, p.segh as int)[k].0 <= i / w
            <= super::bands::lines_info(im, w, h, p.segh as int)[k].1,
    ensures
        ({
            let b = super::bands::lines_info(im, w, h, p.segh as int)[k];
            let line = im.subrange(b.0 * w, (b.1 + 1) * w);
            compare::idle_cleared(im, w, h, p)[i] == if preprocess::has_text(
                line,
                w,
                b.1 - b.0 + 1,
                p,
            ) {
                im[i]
            } else {
                0u8
            }
        }),
{
    let bs = super::bands::lines_info(im, w, h, p.segh as int);
    super::bands::text_bands_are_separated(im, w, h, p.segh as int);
    let y = grid::row(i, w);
    assert(runs::in_run(bs[k], y));
    if compare::in_idle_band(im, w, bs, bs.len() as int, p, y) {
        let j = choose|j: int|
            #![trigger bs[j]]
            0 <= j < bs.len() && runs::in_run(bs[j], y) && !preprocess::has_text(
                compare::band_of(im, w, bs[j]),
                w,
                bs[j].1 - bs[j].0 + 1,
                p,
            );
        if j < k {
            assert(bs[j].1 + 1 < bs[k].0);
        } else if k < j {
            assert(bs[k].1 + 1 < bs[j].0);
        }
    }
}

/// Freeing text areas of noise leaves only pixels of them, and only such with a
/// lasting brightness.
pub proof fn freed_areas_hold_lasting_pixels(
    s: Side,
    bs: Seq<(i32, i32)>,
    w: int,
    h: int,
    p: Params,
    i: int,
)
    requires
        p.wf(),
        grid::frame_size(w, h),
        w <= 0x7fff_ffff,
        s.sized((w * h) as nat),
        w * h >= 0,
        runs::separated(bs, h),
        0 <= i < s.im.len(),
    ensures
        compare::denoised(s, bs, w, h, p).len() == s.im.len(),
        compare::denoised(s, bs, w, h, p)[i] == 0 || compare::denoised(s, bs, w, h, p)[i]
            == s.im[i],
        s.ila is Some && s.ila->0[i] == 0 ==> compare::denoised(s, bs, w, h, p)[i] == 0,
{
    let im = compare::lit(s.im, s.ila);
    assert(im[i] == s.im[i] || im[i] == 0);
    if bs.len() > 0 {
        filtering_ends_where_nothing_changes(im, s.ve, bs, w, h, p);
        let r = compare::image_filtered(im, s.ve, bs, w, h, p);
        assert(r[i] == im[i] || r[i] == 0);
    }
}

} // verus!
