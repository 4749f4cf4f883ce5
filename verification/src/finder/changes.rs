//! Where one subtitle gives way to the next, and what the frames ahead have in
//! common.
use super::cache::{CacheView, FrameView};
use super::compare;
use super::compare::Side;
use super::imgops;
use super::params::Params;
use super::search;
use super::search::StoredView;
use super::state;
use vstd::prelude::*;

verus! {

proof fn lemma_new(
    c: CacheView,
    k: int,
    cur: StoredView,
    prev_ne: Seq<u8>,
    offset: int,
    p: Params,
)
    requires
        p.dl >= 1,
        0 <= offset <= p.dl - 1,
    ensures
        match search::offset_of_new(c, k, cur, prev_ne, offset, p) {
            Some(o) => {
                &&& offset <= o <= p.dl - 1
                &&& forall|j: int|
                    offset <= j < o ==> #[trigger] search::same_at(c, k, cur, prev_ne, j, p)
                        == Some(true)
                &&& o < p.dl - 1 ==> search::same_at(c, k, cur, prev_ne, o, p) == Some(false)
            },
            None => exists|o: int|
                offset <= o < p.dl - 1 && #[trigger] search::same_at(c, k, cur, prev_ne, o, p)
                    is None,
        },
    decreases p.dl - offset,
{
    if offset < p.dl - 1 {
        let now = search::same_at(c, k, cur, prev_ne, offset, p);
        if now == Some(true) {
            lemma_new(c, k, cur, prev_ne, offset + 1, p);
        }
    }
}

/// The new subtitle begins at the first frame, of those that a subtitle has to
/// last for, that does not show the current one, or at the last of them.
pub proof fn the_first_change_is_found(
    c: CacheView,
    k: int,
    cur: StoredView,
    prev_ne: Seq<u8>,
    p: Params,
)
    requires
        p.wf(),
    ensures
        match search::offset_of_new(c, k, cur, prev_ne, 0, p) {
            Some(o) => {
                &&& 0 <= o <= p.dl - 1
                &&& forall|j: int|
                    0 <= j < o ==> #[trigger] search::same_at(c, k, cur, prev_ne, j, p) == Some(
                        true,
                    )
                &&& o < p.dl - 1 ==> search::same_at(c, k, cur, prev_ne, o, p) == Some(false)
            },
            None => exists|o: int|
                0 <= o < p.dl - 1 && #[trigger] search::same_at(c, k, cur, prev_ne, o, p) is None,
        },
{
    lemma_new(c, k, cur, prev_ne, 0, p);
}

/// The edges of the frame before one of the frames from `k` on.
pub open spec fn edges_before(c: CacheView, k: int, prev_ne: Seq<u8>, offset: int) -> Seq<u8> {
    if offset == 0 {
        prev_ne
    } else {
        c.frame(k + offset - 1)->0.ne
    }
}

/// Whether a frame by itself shows the current subtitle.
pub open spec fn shows_current(
    c: CacheView,
    k: int,
    cur: StoredView,
    prev_ne: Seq<u8>,
    offset: int,
    p: Params,
) -> bool {
    let f = c.frame(k + offset)->0;
    compare::same_subs_optimal(
        Side { im: cur.im, ila: Some(cur.y), ve: cur.ne },
        Some(edges_before(c, k, prev_ne, offset)),
        Side { im: f.im, ila: None, ve: f.ne },
        c.w,
        c.h,
        p,
    )
}

/// A frame that by itself shows the current subtitle is not the start of another
/// one. One that does not is, unless what it has in common with the frames behind
/// it does: if it is the last one, it is.
pub proof fn frames_that_show_it_do_not_end_it(
    c: CacheView,
    k: int,
    cur: StoredView,
    prev_ne: Seq<u8>,
    offset: int,
    p: Params,
)
    requires
        p.wf(),
        0 <= offset < p.dl,
        c.frame(k + offset) is Some,
        offset > 0 ==> c.frame(k + offset - 1) is Some,
    ensures
        shows_current(c, k, cur, prev_ne, offset, p) ==> search::same_at(
            c,
            k,
            cur,
            prev_ne,
            offset,
            p,
        ) == Some(true),
        !shows_current(c, k, cur, prev_ne, offset, p) && offset >= p.dl - 2 ==> search::same_at(
            c,
            k,
            cur,
            prev_ne,
            offset,
            p,
        ) == Some(
            ({
                let f = c.frame(k + offset)->0;
                compare::same_subs_optimal(
                    Side { im: cur.im, ila: Some(cur.y), ve: cur.ne },
                    Some(edges_before(c, k, prev_ne, offset)),
                    Side { im: f.im, ila: Some(f.y), ve: f.ne },
                    c.w,
                    c.h,
                    p,
                )
            }),
        ),
{
    if offset >= p.dl - 2 {
        let f = c.frame(k + offset)->0;
        let fs = search::stretch(c, k + offset + 1, k + p.dl - 2);
        assert(fs =~= Seq::<FrameView>::empty());
        assert(state::white_in_all(f.im, search::areas(fs)) =~= f.im);
        assert(state::steady_in_all(f.y, search::lights(fs), p) =~= f.y);
    }
}

/// Whether the current subtitle is still seen on the edges of a frame: on all of
/// them, or on those that it has itself.
pub open spec fn still_seen(
    c: CacheView,
    k: int,
    cur: StoredView,
    prev_ne: Seq<u8>,
    offset: int,
    p: Params,
) -> bool {
    let also = edges_before(c, k, prev_ne, offset);
    let ne = c.frame(k + offset)->0.ne;
    let side = Side { im: cur.im, ila: Some(cur.y), ve: cur.ne };
    ||| compare::same_subs_optimal(side, Some(also), Side { ve: ne, ..side }, c.w, c.h, p)
    ||| compare::same_subs_optimal(
        side,
        Some(also),
        Side { ve: imgops::masked(ne, cur.ne, 0u8), ..side },
        c.w,
        c.h,
        p,
    )
}

proof fn lemma_fade(
    c: CacheView,
    k: int,
    cur: StoredView,
    prev_ne: Seq<u8>,
    also: Seq<u8>,
    offset: int,
    p: Params,
)
    requires
        p.dl >= 1,
        0 <= offset,
        also == edges_before(c, k, prev_ne, offset),
    ensures
        ({
            let o = search::fades_at(c, k, cur, also, offset, p);
            &&& o == 0 || offset <= o < p.dl - 1
            &&& o >= offset && (o > 0 || offset == 0) && o < p.dl - 1 && !(o == 0 && offset == 0
                && c.frame(k) is Some && still_seen(c, k, cur, prev_ne, 0, p)) ==> {
                &&& c.frame(k + o) is None || !still_seen(c, k, cur, prev_ne, o, p)
                &&& forall|j: int|
                    offset <= j < o ==> #[trigger] still_seen(c, k, cur, prev_ne, j, p)
            }
            &&& o == 0 && (offset > 0 || (c.frame(k) is Some && still_seen(
                c,
                k,
                cur,
                prev_ne,
                0,
                p,
            ))) ==> forall|j: int|
                offset <= j < p.dl - 1 ==> #[trigger] still_seen(c, k, cur, prev_ne, j, p)
        }),
    decreases p.dl - offset,
{
    if offset < p.dl - 1 {
        match c.frame(k + offset) {
            None => {},
            Some(f) => {
                assert(search::seen_on(cur, also, f.ne, c, p) == still_seen(
                    c,
                    k,
                    cur,
                    prev_ne,
                    offset,
                    p,
                ));
                if search::seen_on(cur, also, f.ne, c, p) {
                    assert(f.ne == edges_before(c, k, prev_ne, offset + 1));
                    lemma_fade(c, k, cur, prev_ne, f.ne, offset + 1, p);
                    let o = search::fades_at(c, k, cur, also, offset, p);
                    assert(o == search::fades_at(c, k, cur, f.ne, offset + 1, p));
                }
            },
        }
    }
}

/// A subtitle that is gone by the frame after the next ones ends with the last
/// frame before the first on whose edges it is not seen any more.
pub proof fn the_fade_is_found(
    c: CacheView,
    k: int,
    cur: StoredView,
    prev_ne: Seq<u8>,
    p: Params,
)
    requires
        p.wf(),
        c.frame(k) is Some,
    ensures
        ({
            let o = search::fades_at(c, k, cur, prev_ne, 0, p);
            &&& 0 <= o < p.dl
            &&& o > 0 ==> c.frame(k + o) is None || !still_seen(c, k, cur, prev_ne, o, p)
            &&& forall|j: int| 0 <= j < o ==> #[trigger] still_seen(c, k, cur, prev_ne, j, p)
            &&& o == 0 && still_seen(c, k, cur, prev_ne, 0, p) ==> forall|j: int|
                0 <= j < p.dl - 1 ==> #[trigger] still_seen(c, k, cur, prev_ne, j, p)
        }),
{
    lemma_fade(c, k, cur, prev_ne, prev_ne, 0, p);
}

/// Whether a frame ahead counts: all frames up to it are there, and it has text.
pub open spec fn counts_ahead(c: CacheView, k: int, n: int, j: int) -> bool {
    &&& k <= j < k + n
    &&& c.frame(j) is Some
    &&& c.frame(j)->0.has_text
    &&& forall|i: int| k <= i < j ==> (#[trigger] c.frame(i)) is Some
}

/// Whether a frame is one of those ahead that count.
spec fn is_ahead(c: CacheView, k: int, n: int, f: FrameView) -> bool {
    exists|j: int| #[trigger] counts_ahead(c, k, n, j) && f == c.frame(j)->0
}

proof fn lemma_ahead(c: CacheView, k: int, n: nat)
    ensures
        ({
            let fs = search::ahead(c, k, n);
            &&& forall|i: int| 0 <= i < fs.len() ==> is_ahead(c, k, n as int, #[trigger] fs[i])
            &&& forall|j: int| #[trigger]
                counts_ahead(c, k, n as int, j) ==> fs.contains(c.frame(j)->0)
        }),
    decreases n,
{
    let fs = search::ahead(c, k, n);
    if n > 0 && c.frame(k) is Some {
        let f = c.frame(k)->0;
        let m = (n - 1) as nat;
        let rest = search::ahead(c, k + 1, m);
        lemma_ahead(c, k + 1, m);
        let skip = if f.has_text {
            1int
        } else {
            0int
        };
        assert(fs.len() == rest.len() + skip);
        assert forall|i: int| 0 <= i < fs.len() implies is_ahead(
            c,
            k,
            n as int,
            #[trigger] fs[i],
        ) by {
            if i < skip {
                assert(counts_ahead(c, k, n as int, k));
            } else {
                assert(fs[i] == rest[i - skip]);
                assert(is_ahead(c, k + 1, m as int, rest[i - skip]));
                let j = choose|j: int| #[trigger]
                    counts_ahead(c, k + 1, m as int, j) && rest[i - skip] == c.frame(j)->0;
                assert(counts_ahead(c, k, n as int, j));
            }
        }
        assert forall|j: int| #[trigger] counts_ahead(c, k, n as int, j) implies fs.contains(
            c.frame(j)->0,
        ) by {
            if j == k {
                assert(fs[0] == f);
            } else {
                assert(counts_ahead(c, k + 1, m as int, j));
                let i = choose|i: int| 0 <= i < rest.len() && rest[i] == c.frame(j)->0;
                assert(fs[i + skip] == c.frame(j)->0);
            }
        }
    } else {
        assert forall|j: int| #[trigger] counts_ahead(c, k, n as int, j) implies fs.contains(
            c.frame(j)->0,
        ) by {
            if j > k {
                assert(c.frame(k) is Some);
            }
        }
    }
}

/// What the frames ahead have in common: a pixel is white if it is in all of them
/// that have text; without any such frame nothing is, and there is no text.
pub proof fn the_frames_ahead_are_intersected(c: CacheView, k: int, p: Params, i: int)
    requires
        p.wf(),
        0 <= i < c.w * c.h,
        forall|j: int| #[trigger]
            counts_ahead(c, k, p.dl as int, j) ==> c.frame(j)->0.im.len() == c.w * c.h,
    ensures
        ({
            let (im, y, text) = search::intersected(c, k, p);
            let some = exists|j: int| #[trigger] counts_ahead(c, k, p.dl as int, j);
            &&& im[i] == 255 <==> some && forall|j: int| #[trigger]
                counts_ahead(c, k, p.dl as int, j) ==> c.frame(j)->0.im[i] == 255
            &&& !some ==> !text
            &&& some ==> text == state::flat_text(im, Some(y), c.w, c.h, p)
        }),
{
    reveal(search::intersected);
    let fs = search::ahead(c, k, p.dl as nat);
    lemma_ahead(c, k, p.dl as nat);
    let (im, y, text) = search::intersected(c, k, p);
    if fs.len() == 0 {
        if exists|j: int| #[trigger] counts_ahead(c, k, p.dl as int, j) {
            let j = choose|j: int| #[trigger] counts_ahead(c, k, p.dl as int, j);
            assert(fs.contains(c.frame(j)->0));
        }
    } else {
        let ims = search::areas(fs.skip(1));
        assert(is_ahead(c, k, p.dl as int, fs[0]));
        let j0 = choose|j: int| #[trigger]
            counts_ahead(c, k, p.dl as int, j) && fs[0] == c.frame(j)->0;
        assert(counts_ahead(c, k, p.dl as int, j0));
        assert(im == state::white_in_all(fs[0].im, ims));
        if im[i] == 255 {
            assert forall|j: int| #[trigger] counts_ahead(c, k, p.dl as int, j) implies c.frame(
                j,
            )->0.im[i] == 255 by {
                assert(fs.contains(c.frame(j)->0));
                let n = choose|n: int| 0 <= n < fs.len() && fs[n] == c.frame(j)->0;
                if n > 0 {
                    assert(ims[n - 1] == fs[n].im);
                }
            }
        }
        if forall|j: int| #[trigger]
            counts_ahead(c, k, p.dl as int, j) ==> c.frame(j)->0.im[i] == 255 {
            assert(fs[0].im[i] == 255);
            assert forall|n: int| 0 <= n < ims.len() implies (#[trigger] ims[n])[i] == 255 by {
                assert(is_ahead(c, k, p.dl as int, fs[n + 1]));
                let j = choose|j: int| #[trigger]
                    counts_ahead(c, k, p.dl as int, j) && fs[n + 1] == c.frame(j)->0;
                assert(ims[n] == fs[n + 1].im);
            }
        }
    }
}

} // verus!
