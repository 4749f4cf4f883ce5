//! Which figures of an image stay, and what is found round them.
use super::figure;
use super::filter;
use super::grid;
use super::imgops;
use super::lines;
use super::paragraphs::holds;
use super::params::Params;
use super::strip;
use super::strip::StripLimits;
use vstd::prelude::*;

verus! {

/// Two white pixels side by side, one above the other or at a corner belong to one
/// figure.
pub proof fn neighbours_belong_together(
    im: Seq<u8>,
    w: int,
    h: int,
    white: u8,
    x: int,
    y: int,
    a: int,
    b: int,
)
    requires
        im.len() == w * h,
        0 <= x < w,
        0 <= y < h,
        0 <= a < w,
        0 <= b < h,
        -1 <= x - a <= 1,
        -1 <= y - b <= 1,
        im[y * w + x] == white,
        im[b * w + a] == white,
    ensures
        figure::linked(im, w, white, y * w + x, b * w + a),
{
    grid::lemma_at(x, y, w, h);
    grid::lemma_at(a, b, w, h);
    figure::lemma_linked_self(im, w, white, y * w + x);
    figure::lemma_linked_step(im, w, white, y * w + x, y * w + x, b * w + a);
}

proof fn lemma_left(im: Seq<u8>, w: int, white: u8, c: int, path: Seq<int>, n: int)
    requires
        figure::is_path(im, w, white, path),
        path[0] % w < c,
        forall|i: int| 0 <= i < im.len() && i % w == c ==> #[trigger] im[i] != white,
        0 <= n < path.len(),
    ensures
        path[n] % w < c,
    decreases n,
{
    if n > 0 {
        lemma_left(im, w, white, c, path, n - 1);
        assert(figure::touch(path[n - 1], path[n], w));
        assert(im[path[n]] == white);
    }
}

proof fn lemma_above(im: Seq<u8>, w: int, white: u8, c: int, path: Seq<int>, n: int)
    requires
        figure::is_path(im, w, white, path),
        path[0] / w < c,
        forall|i: int| 0 <= i < im.len() && i / w == c ==> #[trigger] im[i] != white,
        0 <= n < path.len(),
    ensures
        path[n] / w < c,
    decreases n,
{
    if n > 0 {
        lemma_above(im, w, white, c, path, n - 1);
        assert(figure::touch(path[n - 1], path[n], w));
        assert(im[path[n]] == white);
    }
}

/// A column, or a row, without a white pixel parts the figures on its two sides.
pub proof fn blank_columns_and_rows_part_figures(
    im: Seq<u8>,
    w: int,
    white: u8,
    c: int,
    p: int,
    q: int,
)
    ensures
        (forall|i: int| 0 <= i < im.len() && i % w == c ==> #[trigger] im[i] != white) && p % w < c
            && q % w > c ==> !figure::linked(im, w, white, p, q),
        (forall|i: int| 0 <= i < im.len() && i / w == c ==> #[trigger] im[i] != white) && p / w < c
            && q / w > c ==> !figure::linked(im, w, white, p, q),
{
    if figure::linked(im, w, white, p, q) {
        let path = choose|path: Seq<int>| #[trigger]
            figure::is_path(im, w, white, path) && path[0] == p && path.last() == q;
        if (forall|i: int| 0 <= i < im.len() && i % w == c ==> #[trigger] im[i] != white) && p % w
            < c {
            lemma_left(im, w, white, c, path, path.len() - 1);
        }
        if (forall|i: int| 0 <= i < im.len() && i / w == c ==> #[trigger] im[i] != white) && p / w
            < c {
            lemma_above(im, w, white, c, path, path.len() - 1);
        }
    }
}

/// A figure stays whole if the mask marks one of its pixels, and goes whole else.
/// Other pixels stay as they are.
pub proof fn marked_figures_stay_whole(im: Seq<u8>, mask: Seq<u8>, w: int, p: int, q: int)
    requires
        0 <= p < im.len(),
        im.len() == mask.len(),
    ensures
        ({
            let r = filter::touched_by(im, mask, w);
            &&& r.len() == im.len()
            &&& im[p] != 255 ==> r[p] == im[p]
            &&& im[p] == 255 && mask[p] != 0 ==> r[p] == 255
            &&& figure::linked(im, w, 255, p, q) ==> r[p] == r[q] && (r[p] == 255 || r[p] == 0)
            &&& figure::linked(im, w, 255, p, q) && mask[q] != 0 ==> r[p] == 255
            &&& im[p] == 255 && (forall|k: int| #[trigger]
                figure::linked(im, w, 255, p, k) ==> mask[k] == 0) ==> r[p] == 0
        }),
{
    if im[p] == 255 {
        figure::lemma_linked_self(im, w, 255, p);
    }
    if figure::linked(im, w, 255, p, q) {
        figure::lemma_linked_ends(im, w, 255, p, q);
        figure::lemma_linked_symmetric(im, w, 255, p, q);
        if filter::marked_figure(im, mask, w, p) {
            let k = choose|k: int| #[trigger] figure::linked(im, w, 255, p, k) && mask[k] != 0;
            figure::lemma_linked_transitive(im, w, 255, q, p, k);
        }
        if filter::marked_figure(im, mask, w, q) {
            let k = choose|k: int| #[trigger] figure::linked(im, w, 255, q, k) && mask[k] != 0;
            figure::lemma_linked_transitive(im, w, 255, p, q, k);
        }
    }
}

/// Whether the figure of a pixel reaches over `rows` rows.
pub open spec fn reaches_down(im: Seq<u8>, w: int, p: int, rows: int) -> bool {
    exists|a: int, b: int|
        #![trigger figure::linked(im, w, 255, p, a), figure::linked(im, w, 255, p, b)]
        figure::linked(im, w, 255, p, a) && figure::linked(im, w, 255, p, b) && a / w - b / w + 1
            >= rows
}

/// Whether the figure of a pixel reaches over `cols` columns.
pub open spec fn reaches_across(im: Seq<u8>, w: int, p: int, cols: int) -> bool {
    exists|a: int, b: int|
        #![trigger figure::linked(im, w, 255, p, a), figure::linked(im, w, 255, p, b)]
        figure::linked(im, w, 255, p, a) && figure::linked(im, w, 255, p, b) && a % w - b % w + 1
            >= cols
}

/// A figure stays if it is as high as the smallest letter, and higher and wider
/// than a strip is high; else it goes. Other pixels stay as they are.
pub proof fn small_figures_go(im: Seq<u8>, w: int, min_h: int, segh: int, p: int)
    requires
        0 <= p < im.len(),
    ensures
        ({
            let r = filter::without_small(im, w, min_h, segh);
            &&& r.len() == im.len()
            &&& im[p] != 255 ==> r[p] == im[p]
            &&& im[p] == 255 ==> r[p] == if reaches_down(im, w, p, min_h) && reaches_down(
                im,
                w,
                p,
                segh + 1,
            ) && reaches_across(im, w, p, segh + 1) {
                255u8
            } else {
                0u8
            }
        }),
{
    reveal(filter::large);
    lemma_rows(im, w, p, min_h - 1);
    lemma_rows(im, w, p, segh);
    lemma_cols(im, w, p, segh);
}

proof fn lemma_rows(im: Seq<u8>, w: int, p: int, n: int)
    ensures
        filter::spans_rows(im, w, p, n) == reaches_down(im, w, p, n + 1),
{
    if filter::spans_rows(im, w, p, n) {
        let (a, b) = choose|a: int, b: int|
            #![trigger figure::linked(im, w, 255, p, a), figure::linked(im, w, 255, p, b)]
            figure::linked(im, w, 255, p, a) && figure::linked(im, w, 255, p, b) && grid::row(a, w)
                - grid::row(b, w) >= n;
        assert(a / w - b / w + 1 >= n + 1);
    }
    if reaches_down(im, w, p, n + 1) {
        let (a, b) = choose|a: int, b: int|
            #![trigger figure::linked(im, w, 255, p, a), figure::linked(im, w, 255, p, b)]
            figure::linked(im, w, 255, p, a) && figure::linked(im, w, 255, p, b) && a / w - b / w
                + 1 >= n + 1;
        assert(grid::row(a, w) - grid::row(b, w) >= n);
    }
}

proof fn lemma_cols(im: Seq<u8>, w: int, p: int, n: int)
    ensures
        filter::spans_cols(im, w, p, n) == reaches_across(im, w, p, n + 1),
{
    if filter::spans_cols(im, w, p, n) {
        let (a, b) = choose|a: int, b: int|
            #![trigger figure::linked(im, w, 255, p, a), figure::linked(im, w, 255, p, b)]
            figure::linked(im, w, 255, p, a) && figure::linked(im, w, 255, p, b) && grid::col(a, w)
                - grid::col(b, w) >= n;
        assert(a % w - b % w + 1 >= n + 1);
    }
    if reaches_across(im, w, p, n + 1) {
        let (a, b) = choose|a: int, b: int|
            #![trigger figure::linked(im, w, 255, p, a), figure::linked(im, w, 255, p, b)]
            figure::linked(im, w, 255, p, a) && figure::linked(im, w, 255, p, b) && a % w - b % w
                + 1 >= n + 1;
        assert(grid::col(a, w) - grid::col(b, w) >= n);
    }
}

/// Whether a row has a pixel that is not blank.
pub open spec fn inked_row(im: Seq<u8>, w: int, y: int) -> bool {
    exists|x: int| 0 <= x < w && #[trigger] im[y * w + x] != 0
}

/// Whether a row with a pixel that is not blank lies at most `dy` rows from
/// another one.
pub open spec fn ink_nearby(im: Seq<u8>, w: int, h: int, dy: int, y: int) -> bool {
    exists|k: int| 0 <= k < h && -dy <= k - y <= dy && #[trigger] inked_row(im, w, k)
}

/// Rows near what is left are restored, the others stay as they are.
pub proof fn rows_near_ink_are_restored(
    im: Seq<u8>,
    orig: Seq<u8>,
    w: int,
    h: int,
    dy: int,
    i: int,
)
    requires
        0 <= i < im.len(),
    ensures
        filter::restored(im, orig, w, h, dy).len() == im.len(),
        filter::restored(im, orig, w, h, dy)[i] == if ink_nearby(im, w, h, dy, i / w) {
            orig[i]
        } else {
            im[i]
        },
{
    let y = i / w;
    if filter::near_busy_row(im, w, h, dy, y) {
        let k = choose|k: int|
            0 <= k < h && -dy <= k - y <= dy && #[trigger] super::lines::busy_row(im, w, k);
        let x = choose|x: int| 0 <= x < w && #[trigger] grid::at(im, w, x, k) != 0;
        assert(im[k * w + x] != 0);
        assert(inked_row(im, w, k));
    }
    if ink_nearby(im, w, h, dy, y) {
        let k = choose|k: int| 0 <= k < h && -dy <= k - y <= dy && #[trigger] inked_row(im, w, k);
        let x = choose|x: int| 0 <= x < w && #[trigger] im[k * w + x] != 0;
        assert(grid::at(im, w, x, k) != 0);
        assert(super::lines::busy_row(im, w, k));
    }
}

/// Whether one image has only pixels of another one: where that is blank, it is.
pub open spec fn only_from(im: Seq<u8>, source: Seq<u8>) -> bool {
    im.len() == source.len() && forall|i: int|
        0 <= i < im.len() && #[trigger] im[i] != 0 ==> source[i] != 0
}

/// Filtering invents nothing: what is left of the areas, and the text found in
/// them, are pixels of the areas near an edge.
#[verifier::spinoff_prover]
#[verifier::rlimit(60)]
pub proof fn filtering_invents_nothing(
    sf: Seq<u8>,
    ne: Seq<u8>,
    lb: Seq<i32>,
    le: Seq<i32>,
    n: nat,
    w: int,
    h: int,
    p: Params,
    i: int,
)
    requires
        p.wf(),
        grid::frame_size(w, h),
        w <= 0x7fff_ffff,
        sf.len() == w * h,
        ne.len() == w * h,
        filter::bands_fit(lb, le, n as int, h),
        0 <= i < sf.len(),
    ensures
        ({
            let f = filter::filtered(sf, ne, lb, le, n, w, h, p);
            let reach = strip::cap31(p.min_h.part_of(h as nat)) / 2;
            &&& f.sf[i] != 0 ==> f.sf[i] == sf[i] && imgops::dilated(ne, w, reach)[i] != 0
            &&& f.tf is Some && f.tf->0[i] != 0 ==> sf[i] != 0 && imgops::dilated(ne, w, reach)[i]
                != 0
            &&& f.text ==> f.tf is Some
        }),
{
    let reach = strip::cap31(p.min_h.part_of(h as nat)) / 2;
    let areas = imgops::masked(sf, imgops::dilated(ne, w, reach), 0u8);
    let l = StripLimits::given_by(p, w);
    lemma_limits(p, w);
    filter::bands_only_lose_pixels(areas, ne, lb, le, n, h, l);
    let (cleaned, some) = filter::bands_filtered(areas, ne, lb, le, n, h, l);
    let dy = filter::restore_distance(p, h);
    let min_h = strip::cap31(p.msh.part_of(h as nat));
    assert(only_from(cleaned, areas));
    let back = filter::restored(cleaned, areas, w, h, dy);
    assert(only_from(back, areas));
    let whole = filter::touched_by(back, cleaned, w);
    assert(only_from(whole, areas)) by {
        assert forall|k: int| 0 <= k < whole.len() && #[trigger] whole[k] != 0 implies areas[k]
            != 0 by {
            assert(back[k] != 0);
        }
    }
    let big = filter::without_small(whole, w, min_h, p.segh as int);
    assert(only_from(big, areas)) by {
        assert forall|k: int| 0 <= k < big.len() && #[trigger] big[k] != 0 implies areas[k]
            != 0 by {
            assert(whole[k] != 0);
        }
    }
    let last = filter::restored(big, whole, w, h, dy);
    assert(only_from(last, areas)) by {
        assert forall|k: int| 0 <= k < last.len() && #[trigger] last[k] != 0 implies areas[k]
            != 0 by {
            assert(whole[k] != 0 || big[k] != 0);
        }
    }
    let ext = filter::extended(last, areas, w, h);
    assert(only_from(ext, areas)) by {
        assert forall|k: int| 0 <= k < ext.len() && #[trigger] ext[k] != 0 implies areas[k]
            != 0 by {
            assert(last[k] != 0 || areas[k] != 0);
        }
    }
    assert(cleaned[i] == areas[i] || cleaned[i] == 0);
}

proof fn lemma_limits(p: Params, w: int)
    requires
        p.wf(),
        1 <= w <= 0x7fff_ffff,
    ensures
        StripLimits::given_by(p, w).wf(),
        StripLimits::given_by(p, w).w == w,
        StripLimits::given_by(p, w).segh == p.segh,
{
}

proof fn lemma_wider(a: Seq<u8>, b: Seq<u8>, w: int, p: int, q: int)
    requires
        a.len() == b.len(),
        forall|i: int| 0 <= i < a.len() && #[trigger] a[i] == 255 ==> b[i] == 255,
        figure::linked(a, w, 255, p, q),
    ensures
        figure::linked(b, w, 255, p, q),
{
    let path = choose|path: Seq<int>| #[trigger]
        figure::is_path(a, w, 255, path) && path[0] == p && path.last() == q;
    assert(figure::is_path(b, w, 255, path));
}

/// A figure of what is left of the areas that is as high as the smallest letter,
/// and higher and wider than a strip is high, is text, with all its pixels.
#[verifier::spinoff_prover]
#[verifier::rlimit(60)]
pub proof fn large_figures_are_text(
    sf: Seq<u8>,
    ne: Seq<u8>,
    lb: Seq<i32>,
    le: Seq<i32>,
    n: nat,
    w: int,
    h: int,
    p: Params,
    i: int,
)
    requires
        p.wf(),
        grid::frame_size(w, h),
        w <= 0x7fff_ffff,
        sf.len() == w * h,
        ne.len() == w * h,
        filter::bands_fit(lb, le, n as int, h),
        0 <= i < sf.len(),
        filter::filtered(sf, ne, lb, le, n, w, h, p).tf is Some,
        ({
            let left = filter::filtered(sf, ne, lb, le, n, w, h, p).sf;
            &&& left[i] == 255
            &&& reaches_down(left, w, i, strip::cap31(p.msh.part_of(h as nat)))
            &&& reaches_down(left, w, i, p.segh + 1)
            &&& reaches_across(left, w, i, p.segh + 1)
        }),
    ensures
        ({
            let f = filter::filtered(sf, ne, lb, le, n, w, h, p);
            f.text && f.tf is Some && f.tf->0[i] == 255
        }),
{
    let reach = strip::cap31(p.min_h.part_of(h as nat)) / 2;
    let areas = imgops::masked(sf, imgops::dilated(ne, w, reach), 0u8);
    let l = StripLimits::given_by(p, w);
    lemma_limits(p, w);
    filter::bands_only_lose_pixels(areas, ne, lb, le, n, h, l);
    let cleaned = filter::bands_filtered(areas, ne, lb, le, n, h, l).0;
    let dy = filter::restore_distance(p, h);
    let min_h = strip::cap31(p.msh.part_of(h as nat));
    lemma_kept(areas, cleaned, w, h, dy, min_h, p.segh as int, i);
}

#[verifier::spinoff_prover]
#[verifier::rlimit(60)]
proof fn lemma_kept(
    areas: Seq<u8>,
    cleaned: Seq<u8>,
    w: int,
    h: int,
    dy: int,
    min_h: int,
    segh: int,
    i: int,
)
    requires
        grid::only_cleared(areas, cleaned),
        0 <= i < cleaned.len(),
        cleaned[i] == 255,
        reaches_down(cleaned, w, i, min_h),
        reaches_down(cleaned, w, i, segh + 1),
        reaches_across(cleaned, w, i, segh + 1),
    ensures
        ({
            let whole = filter::touched_by(
                filter::restored(cleaned, areas, w, h, dy),
                cleaned,
                w,
            );
            let big = filter::without_small(whole, w, min_h, segh);
            &&& filter::has_large(whole, w, min_h, segh)
            &&& filter::extended(filter::restored(big, whole, w, h, dy), areas, w, h)[i] == 255
        }),
{
    let back = filter::restored(cleaned, areas, w, h, dy);
    let whole = filter::touched_by(back, cleaned, w);
    lemma_whole(areas, cleaned, w, h, dy);
    assert(whole[i] == 255);
    lemma_still_reaches(cleaned, whole, w, i, min_h);
    lemma_still_reaches(cleaned, whole, w, i, segh + 1);
    lemma_rows(whole, w, i, min_h - 1);
    lemma_rows(whole, w, i, segh);
    lemma_cols(whole, w, i, segh);
    assert(filter::large(whole, w, i, min_h, segh)) by {
        reveal(filter::large);
    }
    assert(filter::has_large(whole, w, min_h, segh));
    let big = filter::without_small(whole, w, min_h, segh);
    assert(big[i] == 255);
    let last = filter::restored(big, whole, w, h, dy);
    assert(last[i] == 255);
}

proof fn lemma_whole(areas: Seq<u8>, cleaned: Seq<u8>, w: int, h: int, dy: int)
    requires
        grid::only_cleared(areas, cleaned),
    ensures
        ({
            let whole = filter::touched_by(
                filter::restored(cleaned, areas, w, h, dy),
                cleaned,
                w,
            );
            &&& whole.len() == cleaned.len()
            &&& forall|k: int|
                0 <= k < cleaned.len() && #[trigger] cleaned[k] == 255 ==> whole[k] == 255
        }),
{
    let back = filter::restored(cleaned, areas, w, h, dy);
    let whole = filter::touched_by(back, cleaned, w);
    assert forall|k: int| 0 <= k < cleaned.len() && #[trigger] cleaned[k] == 255 implies whole[k]
        == 255 by {
        assert(cleaned[k] == areas[k] || cleaned[k] == 0);
        assert(back[k] == 255);
        figure::lemma_linked_self(back, w, 255, k);
    }
}

proof fn lemma_still_reaches(a: Seq<u8>, b: Seq<u8>, w: int, p: int, n: int)
    requires
        a.len() == b.len(),
        forall|i: int| 0 <= i < a.len() && #[trigger] a[i] == 255 ==> b[i] == 255,
    ensures
        reaches_down(a, w, p, n) ==> reaches_down(b, w, p, n),
        reaches_across(a, w, p, n) ==> reaches_across(b, w, p, n),
{
    if reaches_down(a, w, p, n) {
        let (q, r) = choose|q: int, r: int|
            #![trigger figure::linked(a, w, 255, p, q), figure::linked(a, w, 255, p, r)]
            figure::linked(a, w, 255, p, q) && figure::linked(a, w, 255, p, r) && q / w - r / w + 1
                >= n;
        lemma_wider(a, b, w, p, q);
        lemma_wider(a, b, w, p, r);
    }
    if reaches_across(a, w, p, n) {
        let (q, r) = choose|q: int, r: int|
            #![trigger figure::linked(a, w, 255, p, q), figure::linked(a, w, 255, p, r)]
            figure::linked(a, w, 255, p, q) && figure::linked(a, w, 255, p, r) && q % w - r % w + 1
                >= n;
        lemma_wider(a, b, w, p, q);
        lemma_wider(a, b, w, p, r);
    }
}

/// A band is cut into whole strips from its first row on: as many as it takes to
/// hold all its rows or, near the lower border, as many as end above the last row
/// of the frame. What the strips leave of the band is blanked, and nothing
/// outside the band and its strips changes.
pub proof fn bands_are_cut_into_strips(
    im: Seq<u8>,
    ne: Seq<u8>,
    lb: int,
    le: int,
    h: int,
    l: StripLimits,
    i: int,
)
    requires
        l.wf(),
        grid::frame_size(l.w as int, h),
        im.len() == l.w * h,
        0 <= lb <= le < h,
        0 <= i < im.len(),
    ensures
        ({
            let n = filter::strip_count(lb, le, h, l.segh as int);
            let end = lb + n * l.segh;
            let y = i / (l.w as int);
            let r = filter::band_filtered(im, ne, lb, le, h, l).0;
            &&& n >= 0
            &&& le + l.segh <= h - 1 ==> le < end <= le + l.segh
            &&& le + l.segh > h - 1 ==> end <= h - 1 < end + l.segh
            &&& end <= y <= le ==> r[i] == 0
            &&& y < lb || (y >= end && y > le) ==> r[i] == im[i]
        }),
{
    let segh = l.segh as int;
    let w = l.w as int;
    let n = filter::strip_count(lb, le, h, segh);
    let rest = if le + segh <= h - 1 {
        le + segh - lb
    } else {
        h - 1 - lb
    };
    assert(n == rest / segh);
    assert(n * segh <= rest < n * segh + segh && n >= 0) by (nonlinear_arith)
        requires
            n == rest / segh,
            segh >= 1,
            rest >= 0,
    ;
    lemma_strips(im, ne, lb, n as nat, le, h, l, i);
}

proof fn lemma_strips(
    im: Seq<u8>,
    ne: Seq<u8>,
    lb: int,
    count: nat,
    le: int,
    h: int,
    l: StripLimits,
    i: int,
)
    requires
        l.wf(),
        grid::frame_size(l.w as int, h),
        im.len() == l.w * h,
        0 <= lb,
        le < h,
        count <= filter::strip_count(lb, le, h, l.segh as int),
        0 <= i < im.len(),
    ensures
        ({
            let r = filter::strips_filtered(im, ne, lb, count, l).0;
            &&& r.len() == im.len()
            &&& i / (l.w as int) < lb || i / (l.w as int) >= lb + count * l.segh ==> r[i] == im[i]
        }),
    decreases count,
{
    if count > 0 {
        let k = (count - 1) as nat;
        let w = l.w as int;
        let segh = l.segh as int;
        lemma_strips(im, ne, lb, k, le, h, l, i);
        filter::lemma_strip_in_band(lb, le, h, w, segh, k as int);
        let top = lb + k * l.segh;
        let before = filter::strips_filtered(im, ne, lb, k, l).0;
        assert(l.fits(before, top));
        super::settling::strips_lose_outer_columns(before, ne, top, l);
        let r = filter::strips_filtered(im, ne, lb, count, l).0;
        let (a, b) = choose|a: int, b: int| #[trigger]
            super::settling::narrowed(before, r, top, l, a, b);
        assert(lb + count * l.segh == top + l.segh) by (nonlinear_arith)
            requires
                top == lb + k * l.segh,
                count == k + 1,
        ;
        assert(lb <= top) by (nonlinear_arith)
            requires
                top == lb + k * l.segh,
                k >= 0,
                l.segh >= 0,
        ;
        if i / w < lb || i / w >= lb + count * l.segh {
            assert(!super::settling::in_strip(top, l, i));
            assert(r[i] == before[i]);
        }
    }
}

/// Whether a place lies in the box of one of the lines that the close lines of an
/// image become.
pub open spec fn in_a_line(im: Seq<u8>, w: int, h: int, i: int) -> bool {
    let found = lines::text_lines(im, w, h);
    let ts = lines::merged(found, found.len() - 2);
    exists|k: int| 0 <= k < ts.len() && holds(#[trigger] ts[k], i % w, i / w)
}

/// In the boxes of the lines the pixels of the source are added, and nothing else
/// changes.
pub proof fn lines_are_filled_from_the_source(
    im: Seq<u8>,
    source: Seq<u8>,
    w: int,
    h: int,
    i: int,
)
    requires
        0 <= i < im.len(),
        im.len() == source.len(),
    ensures
        filter::extended(im, source, w, h).len() == im.len(),
        filter::extended(im, source, w, h)[i] == if source[i] != 0 && in_a_line(im, w, h, i) {
            255u8
        } else {
            im[i]
        },
{
    let found = lines::text_lines(im, w, h);
    let ts = lines::merged(found, found.len() - 2);
    if filter::in_lines(ts, w, i) {
        let k = choose|k: int|
            #![trigger ts[k]]
            0 <= k < ts.len() && ts[k].top <= grid::row(i, w) <= ts[k].bottom && ts[k].left
                <= grid::col(i, w) <= ts[k].right;
        assert(holds(ts[k], i % w, i / w));
    }
    if in_a_line(im, w, h, i) {
        let k = choose|k: int| 0 <= k < ts.len() && holds(#[trigger] ts[k], i % w, i / w);
        assert(ts[k].top <= grid::row(i, w));
    }
}

/// A frame has a subtitle by what filtering its lasting areas as one band finds;
/// the mask is the text found, and blank where there was nothing to look at.
pub proof fn presence_is_text_in_lasting_areas(
    ne: Seq<u8>,
    isa: Seq<u8>,
    il: Seq<u16>,
    w: int,
    h: int,
    p: Params,
    i: int,
)
    requires
        p.wf(),
        grid::frame_size(w, h),
        w <= 0x7fff_ffff,
        0 < h <= 0x7fff_ffff,
        isa.len() == w * h,
        il.len() == w * h,
        ne.len() == w * h,
        0 <= i < isa.len(),
    ensures
        ({
            let (mask, text) = filter::presence(ne, isa, il, w, h, p);
            &&& mask[i] != 0 ==> isa[i] != 0 && il[i] != 0
            &&& (forall|k: int| 0 <= k < isa.len() && #[trigger] isa[k] != 0 ==> il[k] == 0)
                ==> mask[i] == 0
        }),
{
    let lasting = imgops::masked(isa, il, 0u8);
    filtering_invents_nothing(lasting, ne, seq![0i32], seq![(h - 1) as i32], 1, w, h, p, i);
    if forall|k: int| 0 <= k < isa.len() && #[trigger] isa[k] != 0 ==> il[k] == 0 {
        assert(lasting[i] == 0) by {
            if isa[i] != 0 {
                assert(il[i] == 0);
            }
        }
    }
}

} // verus!
