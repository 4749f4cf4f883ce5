//! When two frames show the same subtitle, in terms of their pixels.

use super::alike;
use super::alike::black_and_white;
use super::bands;
use super::compare;
use super::compare::Side;
use super::grid;
use super::imgops;
use super::params::Params;
use super::runs;
use super::single::Single;
use vstd::arithmetic::power2::pow2;
use vstd::prelude::*;
use vstd::set_lib::set_int_range;

verus! {

/// How many of the pixels from `a` up to `b` have a property.
pub open spec fn number(f: spec_fn(int) -> bool, a: int, b: int) -> nat {
    set_int_range(a, b).filter(f).len()
}

/// Counting the pixels one after the other comes to their number.
pub proof fn lemma_number(f: spec_fn(int) -> bool, a: int, b: int)
    ensures
        compare::count_if(f, a, b) == number(f, a, b),
        set_int_range(a, b).filter(f).finite(),
    decreases b - a,
{
    let s = set_int_range(a, b).filter(f);
    if a >= b {
        assert(s =~= Set::<int>::empty());
    } else {
        lemma_number(f, a, b - 1);
        let t = set_int_range(a, b - 1).filter(f);
        if f(b - 1) {
            assert(s =~= t.insert(b - 1));
        } else {
            assert(s =~= t);
        }
    }
}

/// Something with a property is counted.
pub proof fn lemma_some(f: spec_fn(int) -> bool, a: int, b: int)
    ensures
        number(f, a, b) > 0 <==> exists|i: int| a <= i < b && #[trigger] f(i),
{
    lemma_number(f, a, b);
    let s = set_int_range(a, b).filter(f);
    if s.len() > 0 {
        let i = s.choose();
        assert(s.contains(i));
        assert(f(i));
    }
    if exists|i: int| a <= i < b && #[trigger] f(i) {
        let i = choose|i: int| a <= i < b && #[trigger] f(i);
        assert(s.contains(i));
        if s.len() == 0 {
            assert(s =~= Set::<int>::empty());
        }
    }
}

/// What holds of the same pixels is counted alike.
proof fn lemma_alike(f: spec_fn(int) -> bool, g: spec_fn(int) -> bool, a: int, b: int)
    requires
        forall|i: int| a <= i < b ==> #[trigger] f(i) == g(i),
    ensures
        number(f, a, b) == number(g, a, b),
{
    assert(set_int_range(a, b).filter(f) =~= set_int_range(a, b).filter(g)) by {
        assert forall|i: int| set_int_range(a, b).filter(f).contains(i) == set_int_range(
            a,
            b,
        ).filter(g).contains(i) by {
            if a <= i < b {
                assert(f(i) == g(i));
            }
        }
    }
}

/// Whether a pixel of a frame belongs to its text: it is white, and has a brightness
/// where brightness counts.
pub open spec fn text_at(s: Side, i: int) -> bool {
    s.im[i] == 255 && (s.ila is Some ==> s.ila->0[i] != 0)
}

/// The text of two frames taken together, in white.
pub open spec fn both_texts(a: Side, b: Side, n: nat) -> Seq<u8> {
    Seq::new(
        n,
        |i: int|
            if text_at(a, i) || text_at(b, i) {
                255u8
            } else {
                0u8
            },
    )
}

/// Whether `num` out of `den` are no more than a fraction allows.
pub open spec fn at_most(num: nat, den: nat, limit: Single) -> bool {
    num * pow2(limit.shift as nat) <= limit.mant * den
}

/// Whether edges are shared in the inner rows of a band: on the text of both frames,
/// some pixel is an edge in both, and those that are an edge in only one of them are
/// few against those.
pub open spec fn edges_shared(
    a: Side,
    b: Side,
    v1: Seq<u8>,
    v2: Seq<u8>,
    w: int,
    band: (i32, i32),
    limit: Single,
) -> bool {
    let from = (band.0 + 1) * w;
    let to = (band.1 - 1) * w;
    let shared = number(
        |i: int| (text_at(a, i) || text_at(b, i)) && v1[i] == 255 && v2[i] == 255,
        from,
        to,
    );
    let first = number(
        |i: int| (text_at(a, i) || text_at(b, i)) && v1[i] == 255 && v2[i] != 255,
        from,
        to,
    );
    let second = number(
        |i: int| (text_at(a, i) || text_at(b, i)) && v1[i] != 255 && v2[i] == 255,
        from,
        to,
    );
    shared > 0 && at_most(first, shared, limit) && at_most(second, shared, limit)
}

/// Whether a pixel is text of the first frame on its edges.
pub open spec fn text_on_edge(a: Side, also: Option<Seq<u8>>, i: int) -> bool {
    text_at(a, i) && a.ve[i] != 0 && (also is Some ==> also->0[i] != 0)
}

/// Whether a pixel is text on edges whose brightness stays in the second frame.
pub open spec fn stays_bright(a: Side, also: Option<Seq<u8>>, b: Side, p: Params, i: int) -> bool {
    &&& text_on_edge(a, also, i)
    &&& a.ila->0[i] - p.max_dl_down <= b.ila->0[i]
    &&& b.ila->0[i] <= a.ila->0[i] + p.max_dl_up
}

/// Whether two pixels are the same or touch, by a side or a corner.
pub open spec fn touch(p: int, q: int, w: int) -> bool {
    &&& -1 <= grid::col(p, w) - grid::col(q, w) <= 1
    &&& -1 <= grid::row(p, w) - grid::row(q, w) <= 1
}

/// Whether text of the first frame lasts into the second at a pixel: it is text on
/// edges of both, and touches text whose brightness stays.
pub open spec fn lasts(
    a: Side,
    also: Option<Seq<u8>>,
    b: Side,
    w: int,
    n: nat,
    p: Params,
    i: int,
) -> bool {
    &&& text_on_edge(a, also, i)
    &&& b.ve[i] != 0
    &&& exists|q: int| 0 <= q < n && #[trigger] stays_bright(a, also, b, p, q) && touch(q, i, w)
}

/// Whether the text of the first frame lasts in the inner rows of a band: somewhere,
/// and what does not last is little against what does.
pub open spec fn text_lasts(
    a: Side,
    also: Option<Seq<u8>>,
    b: Side,
    w: int,
    n: nat,
    p: Params,
    band: (i32, i32),
) -> bool {
    let from = (band.0 + 1) * w;
    let to = (band.1 - 1) * w;
    let kept = number(|i: int| lasts(a, also, b, w, n, p, i), from, to);
    let lost = number(
        |i: int| text_on_edge(a, also, i) && !lasts(a, also, b, w, n, p, i),
        from,
        to,
    );
    kept > 0 && at_most(lost, kept, p.ilaple)
}

proof fn lemma_rows(band: (i32, i32), w: int, h: int)
    requires
        0 <= w,
        0 <= band.0 <= band.1 < h,
    ensures
        0 <= (band.0 + 1) * w,
        (band.1 - 1) * w <= w * h,
{
    assert(0 <= (band.0 + 1) * w && (band.1 - 1) * w <= w * h) by (nonlinear_arith)
        requires
            0 <= w,
            0 <= band.0 <= band.1 < h,
    ;
}

proof fn lemma_edges(
    a: Side,
    b: Side,
    all: Seq<u8>,
    v1: Seq<u8>,
    v2: Seq<u8>,
    w: int,
    h: int,
    band: (i32, i32),
    limit: Single,
)
    requires
        0 <= w,
        0 <= band.0 <= band.1 < h,
        all.len() == w * h,
        v1.len() == w * h,
        v2.len() == w * h,
        black_and_white(v1),
        black_and_white(v2),
        forall|i: int|
            0 <= i < all.len() ==> (#[trigger] all[i] == 255 <==> text_at(a, i) || text_at(b, i)),
    ensures
        compare::agree_in(all, v1, v2, w, band, limit) == edges_shared(
            a,
            b,
            v1,
            v2,
            w,
            band,
            limit,
        ),
{
    let from = (band.0 + 1) * w;
    let to = (band.1 - 1) * w;
    lemma_rows(band, w, h);
    let f1 = |i: int| all[i] == 255 && v1[i] != v2[i] && v1[i] == 255;
    let f2 = |i: int| all[i] == 255 && v1[i] != v2[i] && v1[i] != 255;
    let f3 = |i: int| all[i] == 255 && v1[i] == v2[i] && v1[i] == 255;
    let g1 = |i: int| (text_at(a, i) || text_at(b, i)) && v1[i] == 255 && v2[i] != 255;
    let g2 = |i: int| (text_at(a, i) || text_at(b, i)) && v1[i] != 255 && v2[i] == 255;
    let g3 = |i: int| (text_at(a, i) || text_at(b, i)) && v1[i] == 255 && v2[i] == 255;
    lemma_number(f1, from, to);
    lemma_number(f2, from, to);
    lemma_number(f3, from, to);
    assert forall|i: int| from <= i < to implies #[trigger] f1(i) == g1(i) by {
        assert(all[i] == 255 <==> text_at(a, i) || text_at(b, i));
    }
    assert forall|i: int| from <= i < to implies #[trigger] f2(i) == g2(i) by {
        assert(all[i] == 255 <==> text_at(a, i) || text_at(b, i));
        assert(v1[i] == 0 || v1[i] == 255);
        assert(v2[i] == 0 || v2[i] == 255);
    }
    assert forall|i: int| from <= i < to implies #[trigger] f3(i) == g3(i) by {
        assert(all[i] == 255 <==> text_at(a, i) || text_at(b, i));
    }
    lemma_alike(f1, g1, from, to);
    lemma_alike(f2, g2, from, to);
    lemma_alike(f3, g3, from, to);
}

proof fn lemma_lasting(
    a: Side,
    also: Option<Seq<u8>>,
    b: Side,
    w: int,
    h: int,
    p: Params,
    band: (i32, i32),
)
    requires
        0 <= w,
        0 <= band.0 <= band.1 < h,
        a.sized((w * h) as nat),
        b.sized((w * h) as nat),
        also is Some ==> also->0.len() == w * h,
        a.ila is Some,
        b.ila is Some,
        black_and_white(a.im),
    ensures
        compare::agree_in(
            compare::all_white((w * h) as nat),
            compare::lasting(
                compare::edged(a, also),
                a.ila->0,
                b.ila->0,
                b.ve,
                w,
                p,
            ),
            compare::edged(a, also),
            w,
            band,
            p.ilaple,
        ) == text_lasts(a, also, b, w, (w * h) as nat, p, band),
{
    let n = (w * h) as nat;
    assert(w * h >= 0) by (nonlinear_arith)
        requires
            w >= 0,
            h >= 0,
    ;
    lemma_rows(band, w, h);
    let from = (band.0 + 1) * w;
    let to = (band.1 - 1) * w;
    let white = compare::all_white(n);
    let text = compare::edged(a, also);
    let i1 = a.ila->0;
    let i2 = b.ila->0;
    let both = imgops::steady_in(i1, i2, p.max_dl_down as int, p.max_dl_up as int);
    let core = imgops::masked(text, both, 0u8);
    let wide = imgops::dilated(core, w, 1);
    let last = compare::lasting(text, i1, i2, b.ve, w, p);
    assert forall|i: int| 0 <= i < n implies #[trigger] text[i] == if text_on_edge(a, also, i) {
        255u8
    } else {
        0u8
    } by {
        assert(a.im[i] == 0 || a.im[i] == 255);
    }
    assert forall|i: int| 0 <= i < n implies (#[trigger] core[i] != 0 <==> stays_bright(
        a,
        also,
        b,
        p,
        i,
    )) by {
        assert(text[i] == 0 || text_on_edge(a, also, i));
    }
    assert forall|i: int| 0 <= i < n implies #[trigger] last[i] == if lasts(
        a,
        also,
        b,
        w,
        n,
        p,
        i,
    ) {
        255u8
    } else {
        0u8
    } by {
        let _ = text[i];
        if imgops::covered(core, w, 1, i) {
            let q = choose|q: int|
                0 <= q < core.len() && #[trigger] core[q] != 0 && imgops::near(q, i, 1, w);
            assert(stays_bright(a, also, b, p, q) && touch(q, i, w));
        }
        if exists|q: int| 0 <= q < n && #[trigger] stays_bright(a, also, b, p, q) && touch(q, i, w) {
            let q = choose|q: int|
                0 <= q < n && #[trigger] stays_bright(a, also, b, p, q) && touch(q, i, w);
            assert(core[q] != 0 && imgops::near(q, i, 1, w));
        }
    }
    let f1 = |i: int| white[i] == 255 && last[i] != text[i] && last[i] == 255;
    let f2 = |i: int| white[i] == 255 && last[i] != text[i] && last[i] != 255;
    let f3 = |i: int| white[i] == 255 && last[i] == text[i] && last[i] == 255;
    let never = |i: int| false;
    let lost = |i: int| text_on_edge(a, also, i) && !lasts(a, also, b, w, n, p, i);
    let kept = |i: int| lasts(a, also, b, w, n, p, i);
    lemma_number(f1, from, to);
    lemma_number(f2, from, to);
    lemma_number(f3, from, to);
    assert forall|i: int| from <= i < to implies #[trigger] f1(i) == never(i) by {
        let _ = (last[i], text[i]);
    }
    assert forall|i: int| from <= i < to implies #[trigger] f2(i) == lost(i) by {
        let _ = (last[i], text[i]);
    }
    assert forall|i: int| from <= i < to implies #[trigger] f3(i) == kept(i) by {
        let _ = (last[i], text[i]);
    }
    lemma_alike(f1, never, from, to);
    lemma_alike(f2, lost, from, to);
    lemma_alike(f3, kept, from, to);
    assert(number(never, from, to) == 0) by {
        lemma_some(never, from, to);
    }
    assert(0 * pow2(p.ilaple.shift as nat) == 0);
    assert(p.ilaple.mant * number(kept, from, to) >= 0) by (nonlinear_arith);
}

/// Two frames show the same subtitle just when there is text, in every band of the
/// text of both their edges are shared, or else other edges of the first frame share
/// those of the second in every band, and, where both frames have a brightness, in
/// every band the text of the first lasts.
pub proof fn same_subtitles_agree_in_every_band(
    a: Side,
    also: Option<Seq<u8>>,
    b: Side,
    w: int,
    h: int,
    p: Params,
)
    requires
        0 <= w,
        0 <= h <= 0x7fff_ffff,
        a.sized((w * h) as nat),
        b.sized((w * h) as nat),
        also is Some ==> also->0.len() == w * h && black_and_white(also->0),
        black_and_white(a.im),
        black_and_white(a.ve),
        black_and_white(b.ve),
    ensures
        ({
            let n = (w * h) as nat;
            let bs = bands::lines_info(both_texts(a, b, n), w, h, p.segh as int);
            compare::same_subs(a, also, b, w, h, p) <==> {
                &&& bs.len() > 0
                &&& {
                    ||| forall|k: int|
                        0 <= k < bs.len() ==> edges_shared(
                            a,
                            b,
                            a.ve,
                            b.ve,
                            w,
                            #[trigger] bs[k],
                            p.veple,
                        )
                    ||| also is Some && forall|k: int|
                        0 <= k < bs.len() ==> edges_shared(
                            a,
                            b,
                            also->0,
                            b.ve,
                            w,
                            #[trigger] bs[k],
                            p.veple,
                        )
                }
                &&& a.ila is Some && b.ila is Some ==> forall|k: int|
                    0 <= k < bs.len() ==> text_lasts(a, also, b, w, n, p, #[trigger] bs[k])
            }
        }),
{
    let n = (w * h) as nat;
    assert(w * h >= 0) by (nonlinear_arith)
        requires
            w >= 0,
            h >= 0,
    ;
    let segh = p.segh as int;
    let all = imgops::union(compare::lit(a.im, a.ila), compare::lit(b.im, b.ila), n);
    let ours = both_texts(a, b, n);
    assert forall|i: int| 0 <= i < n implies (#[trigger] all[i] == 255 <==> text_at(a, i)
        || text_at(b, i)) by {
    }
    assert(alike::same_white(all, ours)) by {
        assert forall|i: int| 0 <= i < all.len() implies (#[trigger] all[i] == 255 <==> ours[i]
            == 255) by {
        }
    }
    alike::lemma_same_bands(all, ours, w, h, segh);
    bands::text_bands_are_separated(all, w, h, segh);
    let bs = bands::lines_info(all, w, h, segh);
    assert forall|k: int|
        #![trigger bs[k]]
        0 <= k < bs.len() implies compare::agree_in(all, a.ve, b.ve, w, bs[k], p.veple)
        == edges_shared(a, b, a.ve, b.ve, w, bs[k], p.veple) by {
        lemma_edges(a, b, all, a.ve, b.ve, w, h, bs[k], p.veple);
    }
    if also is Some {
        assert forall|k: int|
            #![trigger bs[k]]
            0 <= k < bs.len() implies compare::agree_in(all, also->0, b.ve, w, bs[k], p.veple)
            == edges_shared(a, b, also->0, b.ve, w, bs[k], p.veple) by {
            lemma_edges(a, b, all, also->0, b.ve, w, h, bs[k], p.veple);
        }
    }
    if a.ila is Some && b.ila is Some {
        let text = compare::edged(a, also);
        let last = compare::lasting(text, a.ila->0, b.ila->0, b.ve, w, p);
        assert forall|k: int|
            #![trigger bs[k]]
            0 <= k < bs.len() implies compare::agree_in(
            compare::all_white(n),
            last,
            text,
            w,
            bs[k],
            p.ilaple,
        ) == text_lasts(a, also, b, w, n, p, bs[k]) by {
            lemma_lasting(a, also, b, w, h, p, bs[k]);
        }
    }
}

/// Frames that have no edge in common on the text of some band are never the same
/// subtitle, however much they agree elsewhere.
pub proof fn one_changed_line_makes_another_subtitle(
    a: Side,
    b: Side,
    w: int,
    h: int,
    p: Params,
    k: int,
)
    requires
        0 <= w,
        0 <= h <= 0x7fff_ffff,
        a.sized((w * h) as nat),
        b.sized((w * h) as nat),
        black_and_white(a.im),
        black_and_white(a.ve),
        black_and_white(b.ve),
        ({
            let bs = bands::lines_info(both_texts(a, b, (w * h) as nat), w, h, p.segh as int);
            &&& 0 <= k < bs.len()
            &&& forall|i: int|
                bs[k].0 * w <= i < (bs[k].1 + 1) * w && (text_at(a, i) || text_at(b, i)) ==> !(
                #[trigger] a.ve[i] == 255 && b.ve[i] == 255)
        }),
    ensures
        !compare::same_subs(a, None, b, w, h, p),
{
    same_subtitles_agree_in_every_band(a, None, b, w, h, p);
    let n = (w * h) as nat;
    let ours = both_texts(a, b, n);
    let bs = bands::lines_info(ours, w, h, p.segh as int);
    let band = bs[k];
    let from = (band.0 + 1) * w;
    let to = (band.1 - 1) * w;
    assert(band.0 * w <= from && to <= (band.1 + 1) * w) by (nonlinear_arith)
        requires
            from == (band.0 + 1) * w,
            to == (band.1 - 1) * w,
            w >= 0,
    ;
    let f = |i: int| (text_at(a, i) || text_at(b, i)) && a.ve[i] == 255 && b.ve[i] == 255;
    lemma_some(f, from, to);
    if number(f, from, to) > 0 {
        let i = choose|i: int| from <= i < to && #[trigger] f(i);
        assert(!(a.ve[i] == 255 && b.ve[i] == 255));
    }
    assert(!edges_shared(a, b, a.ve, b.ve, w, bs[k], p.veple));
}

/// Whether the inner rows of a band hold text on an edge.
pub open spec fn edge_within(a: Side, w: int, band: (i32, i32)) -> bool {
    exists|i: int|
        (band.0 + 1) * w <= i < (band.1 - 1) * w && text_at(a, i) && #[trigger] a.ve[i] == 255
}

/// A frame shows the same subtitle as itself just when it has text, with an edge in
/// the inner rows of every band.
pub proof fn a_frame_shows_its_own_subtitle(a: Side, w: int, h: int, p: Params)
    requires
        0 <= w,
        0 <= h <= 0x7fff_ffff,
        a.sized((w * h) as nat),
        black_and_white(a.im),
        black_and_white(a.ve),
    ensures
        ({
            let bs = bands::lines_info(both_texts(a, a, (w * h) as nat), w, h, p.segh as int);
            compare::same_subs(a, None, a, w, h, p) <==> bs.len() > 0 && forall|k: int|
                0 <= k < bs.len() ==> edge_within(a, w, #[trigger] bs[k])
        }),
{
    same_subtitles_agree_in_every_band(a, None, a, w, h, p);
    let n = (w * h) as nat;
    assert(w * h >= 0) by (nonlinear_arith)
        requires
            w >= 0,
            h >= 0,
    ;
    let ours = both_texts(a, a, n);
    let bs = bands::lines_info(ours, w, h, p.segh as int);
    bands::text_bands_are_separated(ours, w, h, p.segh as int);
    assert forall|k: int|
        #![trigger bs[k]]
        0 <= k < bs.len() implies {
        let some = edge_within(a, w, bs[k]);
        &&& edges_shared(a, a, a.ve, a.ve, w, bs[k], p.veple) <==> some
        &&& a.ila is Some && some ==> text_lasts(a, None, a, w, n, p, bs[k])
    } by {
        let from = (bs[k].0 + 1) * w;
        let to = (bs[k].1 - 1) * w;
        lemma_rows(bs[k], w, h);
        let shared = |i: int|
            (text_at(a, i) || text_at(a, i)) && a.ve[i] == 255 && a.ve[i] == 255;
        let first = |i: int|
            (text_at(a, i) || text_at(a, i)) && a.ve[i] == 255 && a.ve[i] != 255;
        let second = |i: int|
            (text_at(a, i) || text_at(a, i)) && a.ve[i] != 255 && a.ve[i] == 255;
        lemma_some(shared, from, to);
        lemma_some(first, from, to);
        lemma_some(second, from, to);
        assert(0 * pow2(p.veple.shift as nat) == 0);
        assert(p.veple.mant * number(shared, from, to) >= 0) by (nonlinear_arith);
        if exists|i: int| from <= i < to && text_at(a, i) && #[trigger] a.ve[i] == 255 {
            let i = choose|i: int| from <= i < to && text_at(a, i) && #[trigger] a.ve[i] == 255;
            assert(shared(i));
        }
        if number(shared, from, to) > 0 {
            let i = choose|i: int| from <= i < to && #[trigger] shared(i);
            assert(text_at(a, i) && a.ve[i] == 255);
        }
        if a.ila is Some {
            let kept = |i: int| lasts(a, None, a, w, n, p, i);
            let lost = |i: int| text_on_edge(a, None, i) && !lasts(a, None, a, w, n, p, i);
            assert forall|i: int| from <= i < to && text_on_edge(a, None, i) implies #[trigger] lasts(
                a,
                None,
                a,
                w,
                n,
                p,
                i,
            ) by {
                assert(stays_bright(a, None, a, p, i) && touch(i, i, w));
            }
            lemma_some(kept, from, to);
            lemma_some(lost, from, to);
            assert(0 * pow2(p.ilaple.shift as nat) == 0);
            assert(p.ilaple.mant * number(kept, from, to) >= 0) by (nonlinear_arith);
            if exists|i: int| from <= i < to && text_at(a, i) && #[trigger] a.ve[i] == 255 {
                let i = choose|i: int| from <= i < to && text_at(a, i) && #[trigger] a.ve[i] == 255;
                assert(lasts(a, None, a, w, n, p, i));
                assert(kept(i));
            }
            if number(lost, from, to) > 0 {
                let i = choose|i: int| from <= i < to && #[trigger] lost(i);
                assert(lasts(a, None, a, w, n, p, i));
            }
        }
    }
}

} // verus!
