//! What holds of every comparison of two subtitles.

use super::bands;
use super::compare;
use super::compare::Side;
use super::grid;
use super::imgops;
use super::laws;
use super::params::Params;
use super::runs;
use super::single::Single;
use vstd::prelude::*;

verus! {

/// Whether an image is black and white.
pub open spec fn black_and_white(im: Seq<u8>) -> bool {
    forall|i: int| 0 <= i < im.len() ==> #[trigger] im[i] == 0 || im[i] == 255
}

/// Whether two images have the same white pixels.
pub open spec fn same_white(a: Seq<u8>, b: Seq<u8>) -> bool {
    &&& a.len() == b.len()
    &&& forall|i: int| 0 <= i < a.len() ==> (#[trigger] a[i] == 255 <==> b[i] == 255)
}

proof fn lemma_same_count(f: spec_fn(int) -> bool, g: spec_fn(int) -> bool, a: int, b: int)
    requires
        forall|i: int| a <= i < b ==> #[trigger] f(i) == g(i),
    ensures
        compare::count_if(f, a, b) == compare::count_if(g, a, b),
    decreases b - a,
{
    if a < b {
        lemma_same_count(f, g, a, b - 1);
        assert(f(b - 1) == g(b - 1));
    }
}

/// The text bands depend on the white pixels alone.
pub proof fn lemma_same_bands(a: Seq<u8>, b: Seq<u8>, w: int, h: int, segh: int)
    requires
        0 <= w,
        0 <= h,
        a.len() == w * h,
        same_white(a, b),
    ensures
        bands::lines_info(a, w, h, segh) == bands::lines_info(b, w, h, segh),
{
    assert forall|y: int| 0 <= y < h implies bands::white_row(a, w, y) == bands::white_row(
        b,
        w,
        y,
    ) by {
        assert forall|x: int| 0 <= x < w implies (grid::at(a, w, x, y) == 255 <==> grid::at(
            b,
            w,
            x,
            y,
        ) == 255) by {
            grid::lemma_at(x, y, w, h);
            assert(a[y * w + x] == 255 <==> b[y * w + x] == 255);
        }
        if bands::white_row(a, w, y) {
            let x = choose|x: int| 0 <= x < w && #[trigger] grid::at(a, w, x, y) == 255;
            assert(grid::at(b, w, x, y) == 255);
        }
        if bands::white_row(b, w, y) {
            let x = choose|x: int| 0 <= x < w && #[trigger] grid::at(b, w, x, y) == 255;
            assert(grid::at(a, w, x, y) == 255);
        }
    }
    assert(Seq::new(h as nat, |y: int| bands::white_row(a, w, y)) =~= Seq::new(
        h as nat,
        |y: int| bands::white_row(b, w, y),
    ));
}

/// Black and white edges agree in a band in either order.
proof fn lemma_agree_in(
    m1: Seq<u8>,
    m2: Seq<u8>,
    v1: Seq<u8>,
    v2: Seq<u8>,
    w: int,
    h: int,
    band: (i32, i32),
    limit: Single,
)
    requires
        0 <= w,
        m1.len() == w * h,
        same_white(m1, m2),
        v1.len() == w * h,
        v2.len() == w * h,
        black_and_white(v1),
        black_and_white(v2),
        0 <= band.0 <= band.1 < h,
    ensures
        compare::agree_in(m1, v1, v2, w, band, limit) == compare::agree_in(
            m2,
            v2,
            v1,
            w,
            band,
            limit,
        ),
{
    let a = (band.0 + 1) * w;
    let b = (band.1 - 1) * w;
    assert(0 <= a && b <= w * h) by (nonlinear_arith)
        requires
            a == (band.0 + 1) * w,
            b == (band.1 - 1) * w,
            0 <= band.0,
            band.1 < h,
            0 <= w,
    ;
    let first1 = |i: int| m1[i] == 255 && v1[i] != v2[i] && v1[i] == 255;
    let other1 = |i: int| m1[i] == 255 && v1[i] != v2[i] && v1[i] != 255;
    let both1 = |i: int| m1[i] == 255 && v1[i] == v2[i] && v1[i] == 255;
    let first2 = |i: int| m2[i] == 255 && v2[i] != v1[i] && v2[i] == 255;
    let other2 = |i: int| m2[i] == 255 && v2[i] != v1[i] && v2[i] != 255;
    let both2 = |i: int| m2[i] == 255 && v2[i] == v1[i] && v2[i] == 255;
    assert forall|i: int| a <= i < b implies #[trigger] first1(i) == other2(i) by {
        assert(m1[i] == 255 <==> m2[i] == 255);
        assert(v1[i] == 0 || v1[i] == 255);
        assert(v2[i] == 0 || v2[i] == 255);
    }
    assert forall|i: int| a <= i < b implies #[trigger] other1(i) == first2(i) by {
        assert(m1[i] == 255 <==> m2[i] == 255);
        assert(v1[i] == 0 || v1[i] == 255);
        assert(v2[i] == 0 || v2[i] == 255);
    }
    assert forall|i: int| a <= i < b implies #[trigger] both1(i) == both2(i) by {
        assert(m1[i] == 255 <==> m2[i] == 255);
    }
    lemma_same_count(first1, other2, a, b);
    lemma_same_count(other1, first2, a, b);
    lemma_same_count(both1, both2, a, b);
}

/// Two subtitles compare the same in either order, when at most one side has a
/// brightness, no other edges are given and the edges are black and white.
pub proof fn comparing_goes_either_way(a: Side, b: Side, w: int, h: int, p: Params)
    requires
        0 <= w,
        0 <= h <= 0x7fff_ffff,
        a.sized((w * h) as nat),
        b.sized((w * h) as nat),
        a.ila is None || b.ila is None,
        black_and_white(a.ve),
        black_and_white(b.ve),
    ensures
        compare::same_subs(a, None, b, w, h, p) == compare::same_subs(b, None, a, w, h, p),
{
    let n = (w * h) as nat;
    assert(w * h >= 0) by (nonlinear_arith)
        requires
            w >= 0,
            h >= 0,
    ;
    let fa = compare::lit(a.im, a.ila);
    let fb = compare::lit(b.im, b.ila);
    let m1 = imgops::union(fa, fb, n);
    let m2 = imgops::union(fb, fa, n);
    assert(same_white(m1, m2));
    let segh = p.segh as int;
    lemma_same_bands(m1, m2, w, h, segh);
    bands::text_bands_are_separated(m1, w, h, segh);
    let bs = bands::lines_info(m1, w, h, segh);
    assert forall|k: int|
        #![trigger bs[k]]
        0 <= k < bs.len() implies compare::agree_in(m1, a.ve, b.ve, w, bs[k], p.veple)
        == compare::agree_in(m2, b.ve, a.ve, w, bs[k], p.veple) by {
        lemma_agree_in(m1, m2, a.ve, b.ve, w, h, bs[k], p.veple);
    }
}

/// Two subtitles without a white pixel are never the same.
pub proof fn blank_subtitles_are_not_the_same(
    a: Side,
    also: Option<Seq<u8>>,
    b: Side,
    w: int,
    h: int,
    p: Params,
)
    requires
        0 <= w,
        0 <= h <= 0x7fff_ffff,
        a.sized((w * h) as nat),
        b.sized((w * h) as nat),
        !laws::shows_white(a.im),
        !laws::shows_white(b.im),
    ensures
        !compare::same_subs(a, also, b, w, h, p),
{
    let n = (w * h) as nat;
    assert(w * h >= 0) by (nonlinear_arith)
        requires
            w >= 0,
            h >= 0,
    ;
    let all = imgops::union(compare::lit(a.im, a.ila), compare::lit(b.im, b.ila), n);
    let marks = Seq::new(h as nat, |y: int| bands::white_row(all, w, y));
    assert forall|i: int| 0 <= i < all.len() implies #[trigger] all[i] != 255 by {
        assert(a.im[i] != 255 && b.im[i] != 255);
    }
    assert forall|y: int| 0 <= y < h implies !#[trigger] marks[y] by {
        if bands::white_row(all, w, y) {
            let x = choose|x: int| 0 <= x < w && #[trigger] grid::at(all, w, x, y) == 255;
            grid::lemma_at(x, y, w, h);
            assert(all[y * w + x] == 255);
        }
    }
    runs::runs_cover(marks);
    let rs = runs::runs(marks);
    if rs.len() > 0 {
        assert(runs::in_run(rs[0], rs[0].0 as int));
        assert(marks[rs[0].0 as int]);
    }
}

/// Freeing the text of noise only finds more subtitles to be the same.
pub proof fn the_same_stays_the_same_without_noise(
    a: Side,
    also: Option<Seq<u8>>,
    b: Side,
    w: int,
    h: int,
    p: Params,
)
    requires
        compare::same_subs(a, also, b, w, h, p),
    ensures
        compare::same_subs_optimal(a, also, b, w, h, p),
{
}

} // verus!
