//! What the search finds in a video that shows one subtitle.
use super::cache::{CacheView, FrameView};
use super::compare;
use super::imgops;
use super::params::Params;
use super::run;
use super::search;
use super::search::{KeyframeView, Now, Outcome, SearchView, StoredView};
use super::state;
use vstd::prelude::*;

verus! {

/// Whether two frames show the same picture.
pub open spec fn same_picture(a: FrameView, b: FrameView) -> bool {
    &&& a.bgr == b.bgr
    &&& a.im == b.im
    &&& a.ne == b.ne
    &&& a.y == b.y
    &&& a.has_text == b.has_text
}

/// Whether a picture shows a subtitle: it has text, by itself and where only its
/// lasting brightness counts, it is judged to show the same subtitle as itself, and
/// its text is still there when everything else is taken away.
pub open spec fn shows_subtitle(f: FrameView, w: int, h: int, p: Params) -> bool {
    let seen = StoredView { im: f.im, y: f.y, ne: f.ne, bgr: f.bgr };
    &&& f.has_text
    &&& f.sized(w, h)
    &&& state::flat_text(f.im, Some(f.y), w, h, p)
    &&& compare::same_subs_optimal(seen.side(), Some(f.ne), seen.side(), w, h, p)
    &&& mask_of(f, w, h, p).1
}

/// The mask of the text of a picture, and whether there is any.
pub open spec fn mask_of(f: FrameView, w: int, h: int, p: Params) -> (Seq<u8>, bool) {
    super::filter::presence(f.ne, f.im, f.y, w, h, p)
}

/// Whether the frames from `m0` up to `m` show one picture and the others no text,
/// later and later from the start of the video on.
pub open spec fn lasts(v: Seq<FrameView>, f: FrameView, m0: int, m: int) -> bool {
    &&& 0 <= m0 <= m <= v.len()
    &&& forall|k: int| m0 <= k < m ==> same_picture(#[trigger] v[k], f)
    &&& forall|k: int| 0 <= k < m0 || m <= k < v.len() ==> !(#[trigger] v[k]).has_text
    &&& forall|i: int, j: int|
        0 <= i < j < v.len() ==> (#[trigger] v[i]).pos < (#[trigger] v[j]).pos
    &&& v.len() > 0 ==> v[0].pos >= 0
}

/// Whether a window and the frames that come next are those of a video.
pub open spec fn is_part(c: CacheView, later: Seq<FrameView>, v: Seq<FrameView>) -> bool {
    &&& 0 <= c.start
    &&& v.len() == c.total() + later.len()
    &&& forall|k: int|
        c.start <= k < c.total() ==> #[trigger] c.frame(k) == Some(v[k])
    &&& forall|k: int| 0 <= k < later.len() ==> #[trigger] later[k] == v[c.total() + k]
}

/// Going on in a video shows the frames up to the one that is looked at, and those
/// from twenty before it.
pub proof fn lemma_part(c: CacheView, later: Seq<FrameView>, v: Seq<FrameView>, t: int)
    requires
        is_part(c, later, v),
    ensures
        ({
            let c1 = run::advanced(c, later, t);
            &&& is_part(c1, later.skip(run::taken(c, later, t)), v)
            &&& c1.total() <= v.len()
            &&& c1.total() > t || c1.total() == v.len()
            &&& c1.start <= c.start || c1.start <= t - 20
            &&& c1.w == c.w && c1.h == c.h
        }),
{
    let n = run::taken(c, later, t);
    let grown = CacheView { frames: c.frames + later.take(n), ..c };
    let c1 = run::advanced(c, later, t);
    let rest = later.skip(n);
    assert forall|k: int| grown.start <= k < grown.total() implies #[trigger] grown.frame(k) == Some(
        v[k],
    ) by {
        if k < c.total() {
            assert(c.frame(k) == Some(v[k]));
        } else {
            assert(later[k - c.total()] == v[k]);
        }
    }
    assert forall|k: int| c1.start <= k < c1.total() implies #[trigger] c1.frame(k) == Some(
        v[k],
    ) by {
        assert(grown.frame(k) == Some(v[k]));
    }
    assert forall|k: int| 0 <= k < rest.len() implies #[trigger] rest[k] == v[c1.total() + k] by {
        assert(later[k + n] == v[c.total() + k + n]);
    }
}

proof fn lemma_steady(f: FrameView, g: FrameView, p: Params)
    requires
        same_picture(f, g),
    ensures
        imgops::masked(f.im, g.im, 0u8) == f.im,
        imgops::steady_in(f.y, g.y, p.max_dl_down as int, p.max_dl_up as int) == f.y,
{
    assert(imgops::masked(f.im, g.im, 0u8) =~= f.im);
    assert(imgops::steady_in(f.y, g.y, p.max_dl_down as int, p.max_dl_up as int) =~= f.y);
}

/// Whether the frames of a window from one on show a picture, or no text.
pub open spec fn all_show(c: CacheView, from: int, f: FrameView) -> bool {
    forall|k: int|
        from <= k && (#[trigger] c.frame(k)) is Some && c.frame(k)->0.has_text ==> same_picture(
            c.frame(k)->0,
            f,
        )
}

/// Whether a frame of a window shows a picture.
pub open spec fn shown_at(c: CacheView, k: int, f: FrameView) -> bool {
    c.frame(k) is Some && same_picture(c.frame(k)->0, f)
}

proof fn lemma_ahead(c: CacheView, k: int, n: nat, f: FrameView)
    requires
        all_show(c, k, f),
        f.has_text,
    ensures
        forall|i: int|
            0 <= i < search::ahead(c, k, n).len() ==> same_picture(
                #[trigger] search::ahead(c, k, n)[i],
                f,
            ),
        n > 0 && shown_at(c, k, f) ==> search::ahead(c, k, n).len() > 0,
    decreases n,
{
    if n > 0 && c.frame(k) is Some {
        lemma_ahead(c, k + 1, (n - 1) as nat, f);
        let rest = search::ahead(c, k + 1, (n - 1) as nat);
        let all = search::ahead(c, k, n);
        if c.frame(k)->0.has_text {
            assert(all =~= seq![c.frame(k)->0] + rest);
            assert forall|i: int| 0 <= i < all.len() implies same_picture(#[trigger] all[i], f) by {
                if i > 0 {
                    assert(all[i] == rest[i - 1]);
                }
            }
        } else {
            assert(all == rest);
        }
    }
}

proof fn lemma_intersected(c: CacheView, k: int, f: FrameView, p: Params)
    requires
        p.wf(),
        all_show(c, k, f),
        shown_at(c, k, f),
        shows_subtitle(f, c.w, c.h, p),
    ensures
        search::intersected(c, k, p) == (f.im, f.y, true),
{
    reveal(search::intersected);
    let fs = search::ahead(c, k, p.dl as nat);
    lemma_ahead(c, k, p.dl as nat, f);
    assert(same_picture(fs[0], f));
    let rest = fs.skip(1);
    assert forall|i: int| 0 <= i < rest.len() implies same_picture(#[trigger] rest[i], f) by {
        assert(rest[i] == fs[i + 1]);
    }
    let im = state::white_in_all(fs[0].im, search::areas(rest));
    let y = state::steady_in_all(fs[0].y, search::lights(rest), p);
    assert forall|i: int| 0 <= i < im.len() implies im[i] == f.im[i] by {
        if exists|k: int|
            0 <= k < search::areas(rest).len() && (#[trigger] search::areas(rest)[k])[i] != 255 {
            let j = choose|k: int|
                0 <= k < search::areas(rest).len() && (#[trigger] search::areas(rest)[k])[i] != 255;
            assert(same_picture(rest[j], f));
        }
    }
    assert forall|i: int| 0 <= i < y.len() implies y[i] == f.y[i] by {
        if exists|k: int|
            0 <= k < search::lights(rest).len() && !imgops::steady(
                fs[0].y[i],
                (#[trigger] search::lights(rest)[k])[i],
                p.max_dl_down as int,
                p.max_dl_up as int,
            ) {
            let j = choose|k: int|
                0 <= k < search::lights(rest).len() && !imgops::steady(
                    fs[0].y[i],
                    (#[trigger] search::lights(rest)[k])[i],
                    p.max_dl_down as int,
                    p.max_dl_up as int,
                );
            assert(same_picture(rest[j], f));
        }
    }
    assert(im =~= f.im);
    assert(y =~= f.y);
}

proof fn lemma_narrowed(
    im: Seq<u8>,
    y: Seq<u16>,
    c: CacheView,
    a: int,
    b: int,
    f: FrameView,
    p: Params,
)
    requires
        im == f.im,
        y == f.y,
        c.start <= a,
        b < c.total(),
        forall|k: int| a <= k <= b ==> #[trigger] shown_at(c, k, f),
    ensures
        search::narrowed(im, y, c, a, b, p) == (im, y),
    decreases b + 1 - a,
{
    if a <= b {
        let g = c.frames[a - c.start];
        assert(shown_at(c, a, f));
        assert(c.frame(a) == Some(g));
        lemma_steady(f, g, p);
        lemma_narrowed(
            imgops::masked(im, g.im, 0u8),
            imgops::steady_in(y, g.y, p.max_dl_down as int, p.max_dl_up as int),
            c,
            a + 1,
            b,
            f,
            p,
        );
    }
}

/// The state of the search that follows a subtitle from a frame on.
pub open spec fn follows(s: SearchView, f: FrameView, first: int, m0: int, k: int) -> bool {
    &&& s.tracking
    &&& s.at == k
    &&& s.from == m0
    &&& s.bf == m0
    &&& s.ef == m0
    &&& s.pbf == -2
    &&& s.bt == first
    &&& s.cur == (StoredView { im: f.im, y: f.y, ne: f.ne, bgr: f.bgr })
    &&& s.prev_ne == f.ne
    &&& !s.has_prev
    &&& s.keyframes.len() == 0
}

/// One more frame of the picture is followed.
pub proof fn lemma_follow(
    s: SearchView,
    c: CacheView,
    f: FrameView,
    first: int,
    m0: int,
    k: int,
    p: Params,
)
    requires
        p.wf(),
        follows(s, f, first, m0, k),
        0 <= m0 < k,
        shows_subtitle(f, c.w, c.h, p),
        shown_at(c, k, f),
        c.frame(k - 1) is Some,
        all_show(c, k, f),
        c.frame(k)->0.pos != c.frame(k - 1)->0.pos,
    ensures
        search::stepped(s, c, p) is Going,
        follows(search::stepped(s, c, p)->Going_0, f, first, m0, k + 1),
{
    let g = c.frame(k)->0;
    assert(same_picture(g, f));
    lemma_intersected(c, k, f, p);
    lemma_steady(f, g, p);
    let now = Now { f: g, im: f.im, y: f.y };
    assert(now.stored() == s.cur);
    reveal(search::judged);
    reveal(search::carried_on);
}

/// The search at its start, but for the frame that it has come to.
pub open spec fn seeking(w: int, h: int, from: int) -> SearchView {
    SearchView { from, ..state::at_start(w, h) }
}

/// The first frame of the picture is the start of the subtitle.
pub proof fn lemma_begin(s: SearchView, c: CacheView, f: FrameView, m0: int, p: Params)
    requires
        p.wf(),
        0 <= m0,
        s == (SearchView { tracking: true, at: m0, ..seeking(c.w, c.h, m0) }),
        shows_subtitle(f, c.w, c.h, p),
        shown_at(c, m0, f),
        c.frame(m0)->0.pos >= 0,
        m0 > 0 ==> c.frame(m0 - 1) is Some && c.frame(m0 - 1)->0.pos != c.frame(m0)->0.pos,
        all_show(c, m0, f),
    ensures
        search::stepped(s, c, p) is Going,
        follows(search::stepped(s, c, p)->Going_0, f, c.frame(m0)->0.pos, m0, m0 + 1),
{
    let g = c.frame(m0)->0;
    assert(same_picture(g, f));
    lemma_intersected(c, m0, f, p);
    reveal(search::judged);
    reveal(search::carried_on);
}

/// The picture is found where it begins.
pub proof fn lemma_detect(c: CacheView, f: FrameView, m0: int, p: Params)
    requires
        p.wf(),
        0 <= m0,
        c.start <= m0,
        c.total() >= m0 + p.dl,
        shows_subtitle(f, c.w, c.h, p),
        forall|k: int| m0 <= k < m0 + p.dl ==> #[trigger] shown_at(c, k, f),
    ensures
        search::stepped(seeking(c.w, c.h, m0), c, p) == Outcome::Going(
            SearchView { tracking: true, at: m0, ..seeking(c.w, c.h, m0) },
        ),
{
    let s = seeking(c.w, c.h, m0);
    let half = p.dl as int / 2;
    let a = m0 + half - 1;
    let b = m0 + 2 * half - 1;
    assert(m0 <= a < b < m0 + p.dl);
    assert(shown_at(c, a, f) && shown_at(c, b, f));
    let f1 = c.frame(a)->0;
    let f2 = c.frame(b)->0;
    lemma_steady(f1, f2, p);
    lemma_narrowed(f1.im, f1.y, c, a + 1, b - 1, f, p);
    assert(search::begins(f1, f2, c, a, b, p));
}

proof fn lemma_shown(
    c: CacheView,
    later: Seq<FrameView>,
    v: Seq<FrameView>,
    f: FrameView,
    m0: int,
    m: int,
)
    requires
        is_part(c, later, v),
        lasts(v, f, m0, m),
    ensures
        all_show(c, 0, f),
        forall|k: int|
            c.start <= k < c.total() && m0 <= k < m ==> #[trigger] shown_at(c, k, f),
{
    assert forall|k: int|
        0 <= k && (#[trigger] c.frame(k)) is Some
            && c.frame(k)->0.has_text implies same_picture(c.frame(k)->0, f) by {
        assert(c.frame(k) == Some(v[k]));
    }
    assert forall|k: int| c.start <= k < c.total() && m0 <= k < m implies #[trigger] shown_at(
        c,
        k,
        f,
    ) by {
        assert(c.frame(k) == Some(v[k]));
    }
}

#[verifier::spinoff_prover]
#[verifier::rlimit(60)]
proof fn lemma_to_the_end(
    s: SearchView,
    c: CacheView,
    later: Seq<FrameView>,
    v: Seq<FrameView>,
    f: FrameView,
    m0: int,
    k: int,
    p: Params,
)
    requires
        run::runnable(s, c, later, p),
        is_part(c, later, v),
        lasts(v, f, m0, v.len() as int),
        shows_subtitle(f, c.w, c.h, p),
        v.len() >= m0 + p.dl,
        m0 < k <= v.len(),
        follows(s, f, v[m0].pos, m0, k),
        c.start <= 0 || c.start <= k - 2,
    ensures
        run::recorded_from(s, c, later, p) == Some(
            seq![
                search::record(
                    f.bgr,
                    mask_of(f, c.w, c.h, p).0,
                    c.w,
                    c.h,
                    v[m0].pos,
                    v[v.len() - 1].pos,
                ),
            ],
        ),
    decreases v.len() - k,
{
    let t = run::target(s);
    let c1 = run::advanced(c, later, t);
    let later1 = later.skip(run::taken(c, later, t));
    run::lemma_advanced(c, later, t);
    lemma_part(c, later, v, t);
    lemma_shown(c1, later1, v, f, m0, v.len() as int);
    if k < v.len() {
        assert(c1.frame(k) == Some(v[k]));
        assert(c1.frame(k - 1) == Some(v[k - 1]));
        assert(v[k - 1].pos < v[k].pos);
        assert(shown_at(c1, k, f));
        lemma_follow(s, c1, f, v[m0].pos, m0, k, p);
        let s1 = search::stepped(s, c1, p)->Going_0;
        lemma_to_the_end(s1, c1, later1, v, f, m0, k + 1, p);
    } else {
        assert(c1.frame(k) is None);
        let last = v.len() - 1;
        assert(c1.total() == v.len());
        assert(c1.frame(last) == Some(v[last]));
        assert(search::stepped(s, c1, p) is Ended);
        let found = mask_of(f, c.w, c.h, p);
        let ks = search::stepped(s, c1, p)->Ended_0.keyframes;
        assert(ks =~= seq![
            search::record(f.bgr, found.0, c.w, c.h, v[m0].pos, v[last].pos),
        ]);
    }
}

/// Where no further frame has text, nothing more is recorded.
#[verifier::spinoff_prover]
#[verifier::rlimit(60)]
proof fn lemma_idle(
    s: SearchView,
    c: CacheView,
    later: Seq<FrameView>,
    v: Seq<FrameView>,
    p: Params,
)
    requires
        run::runnable(s, c, later, p),
        is_part(c, later, v),
        !s.tracking,
        !s.has_prev,
        forall|k: int| s.from <= k < v.len() ==> !(#[trigger] v[k]).has_text,
    ensures
        run::recorded_from(s, c, later, p) == Some(s.keyframes),
    decreases v.len() + 1 - s.from,
{
    let t = run::target(s);
    let c1 = run::advanced(c, later, t);
    let later1 = later.skip(run::taken(c, later, t));
    run::lemma_advanced(c, later, t);
    lemma_part(c, later, v, t);
    run::steps_bring_forward(s, c1, p);
    let a = s.from + p.dl / 2 - 1;
    if c1.frame(a) is Some {
        assert(c1.frame(a) == Some(v[a]));
    }
    if let Outcome::Going(s1) = search::stepped(s, c1, p) {
        lemma_idle(s1, c1, later1, v, p);
    }
}

/// Whether a picture is not seen any more in a frame, by its edges.
pub open spec fn is_gone(f: FrameView, g: FrameView, w: int, h: int, p: Params) -> bool {
    let seen = StoredView { im: f.im, y: f.y, ne: f.ne, bgr: f.bgr };
    &&& !compare::same_subs_optimal(seen.side(), Some(f.ne), seen.side_on(g.ne), w, h, p)
    &&& !compare::same_subs_optimal(
        seen.side(),
        Some(f.ne),
        seen.side_on(imgops::masked(g.ne, f.ne, 0u8)),
        w,
        h,
        p,
    )
}

proof fn lemma_nothing_ahead(c: CacheView, k: int, n: nat)
    requires
        forall|j: int| k <= j && (#[trigger] c.frame(j)) is Some ==> !c.frame(j)->0.has_text,
    ensures
        search::ahead(c, k, n).len() == 0,
    decreases n,
{
    if n > 0 {
        lemma_nothing_ahead(c, k + 1, (n - 1) as nat);
    }
}

#[verifier::spinoff_prover]
#[verifier::rlimit(60)]
proof fn lemma_leave(
    s: SearchView,
    c: CacheView,
    f: FrameView,
    first: int,
    m0: int,
    k: int,
    p: Params,
)
    requires
        p.wf(),
        0 <= m0,
        follows(s, f, first, m0, k),
        k - m0 >= p.dl,
        shows_subtitle(f, c.w, c.h, p),
        c.frame(k) is Some,
        c.frame(k - 1) is Some,
        forall|j: int| k <= j && (#[trigger] c.frame(j)) is Some ==> !c.frame(j)->0.has_text,
        c.frame(k)->0.pos != c.frame(k - 1)->0.pos,
        is_gone(f, c.frame(k)->0, c.w, c.h, p),
    ensures
        search::stepped(s, c, p) is Going,
        ({
            let s1 = search::stepped(s, c, p)->Going_0;
            &&& !s1.tracking
            &&& !s1.has_prev
            &&& s1.from == k
            &&& s1.at == k
            &&& s1.keyframes == seq![
                search::record(
                    f.bgr,
                    mask_of(f, c.w, c.h, p).0,
                    c.w,
                    c.h,
                    first,
                    c.frame(k)->0.pos - 1,
                ),
            ]
        }),
{
    reveal(search::intersected);
    reveal(search::judged);
    reveal(search::disappeared);
    lemma_nothing_ahead(c, k, p.dl as nat);
    let g = c.frame(k)->0;
    let found = mask_of(f, c.w, c.h, p);
    assert(!search::seen_on(s.cur, s.prev_ne, g.ne, c, p));
    assert(search::fades_at(c, k, s.cur, s.prev_ne, 0, p) == 0);
    let ks = search::stepped(s, c, p)->Going_0.keyframes;
    assert(ks =~= seq![search::record(f.bgr, found.0, c.w, c.h, first, g.pos - 1)]);
}

#[verifier::spinoff_prover]
#[verifier::rlimit(60)]
proof fn lemma_until_gone(
    s: SearchView,
    c: CacheView,
    later: Seq<FrameView>,
    v: Seq<FrameView>,
    f: FrameView,
    m0: int,
    m: int,
    k: int,
    p: Params,
)
    requires
        run::runnable(s, c, later, p),
        is_part(c, later, v),
        lasts(v, f, m0, m),
        shows_subtitle(f, c.w, c.h, p),
        m0 + p.dl <= m < v.len(),
        is_gone(f, v[m], c.w, c.h, p),
        m0 < k <= m,
        follows(s, f, v[m0].pos, m0, k),
        c.start <= 0 || c.start <= k - 2,
    ensures
        run::recorded_from(s, c, later, p) == Some(
            seq![
                search::record(
                    f.bgr,
                    mask_of(f, c.w, c.h, p).0,
                    c.w,
                    c.h,
                    v[m0].pos,
                    v[m].pos - 1,
                ),
            ],
        ),
    decreases m - k,
{
    let t = run::target(s);
    let c1 = run::advanced(c, later, t);
    let later1 = later.skip(run::taken(c, later, t));
    run::lemma_advanced(c, later, t);
    lemma_part(c, later, v, t);
    lemma_shown(c1, later1, v, f, m0, m);
    assert(c1.frame(k) == Some(v[k]));
    assert(c1.frame(k - 1) == Some(v[k - 1]));
    assert(v[k - 1].pos < v[k].pos);
    if k < m {
        assert(shown_at(c1, k, f));
        lemma_follow(s, c1, f, v[m0].pos, m0, k, p);
        let s1 = search::stepped(s, c1, p)->Going_0;
        lemma_until_gone(s1, c1, later1, v, f, m0, m, k + 1, p);
    } else {
        assert forall|j: int| k <= j && (#[trigger] c1.frame(j)) is Some implies !c1.frame(
            j,
        )->0.has_text by {
            assert(c1.frame(j) == Some(v[j]));
        }
        lemma_leave(s, c1, f, v[m0].pos, m0, k, p);
        let s1 = search::stepped(s, c1, p)->Going_0;
        lemma_idle(s1, c1, later1, v, p);
    }
}

/// Where nothing has text yet, the search goes on to where the picture begins.
#[verifier::spinoff_prover]
#[verifier::rlimit(60)]
proof fn lemma_seek(
    c: CacheView,
    later: Seq<FrameView>,
    v: Seq<FrameView>,
    f: FrameView,
    m0: int,
    m: int,
    from: int,
    p: Params,
) -> (r: (CacheView, Seq<FrameView>))
    requires
        p.dl <= 18,
        run::runnable(seeking(c.w, c.h, from), c, later, p),
        is_part(c, later, v),
        lasts(v, f, m0, m),
        m0 + p.dl <= m,
        0 <= from <= m0,
        (m0 - from) % (p.dl as int / 2) == 0,
        c.start <= 0 || c.start <= from - 2,
    ensures
        run::recorded_from(seeking(c.w, c.h, from), c, later, p) == run::recorded_from(
            seeking(c.w, c.h, m0),
            r.0,
            r.1,
            p,
        ),
        run::runnable(seeking(c.w, c.h, m0), r.0, r.1, p),
        is_part(r.0, r.1, v),
        r.0.start <= 0 || r.0.start <= m0 - 2,
        r.0.w == c.w,
        r.0.h == c.h,
    decreases m0 - from,
{
    if from == m0 {
        (c, later)
    } else {
        let s = seeking(c.w, c.h, from);
        let half = p.dl as int / 2;
        let rest = m0 - from;
        assert(rest >= half && (rest - half) % half == 0) by (nonlinear_arith)
            requires
                rest > 0,
                half > 0,
                rest % half == 0,
        ;
        let t = run::target(s);
        let c1 = run::advanced(c, later, t);
        let later1 = later.skip(run::taken(c, later, t));
        run::lemma_advanced(c, later, t);
        lemma_part(c, later, v, t);
        let a = from + half - 1;
        assert(c1.frame(a) == Some(v[a]));
        assert(!v[a].has_text);
        let s1 = seeking(c.w, c.h, from + half);
        assert(search::stepped(s, c1, p) == Outcome::Going(s1));
        lemma_seek(c1, later1, v, f, m0, m, from + half, p)
    }
}

/// How the search gets to follow a picture.
#[verifier::spinoff_prover]
#[verifier::rlimit(60)]
proof fn lemma_first_steps(
    v: Seq<FrameView>,
    f: FrameView,
    m0: int,
    m: int,
    w: int,
    h: int,
    p: Params,
) -> (r: (SearchView, CacheView, Seq<FrameView>))
    requires
        p.wf(),
        p.dl <= 18,
        0 <= w,
        0 <= h,
        m0 + p.dl <= m <= v.len() <= 0x7fff_ffff,
        m0 % (p.dl as int / 2) == 0,
        forall|k: int| 0 <= k < v.len() ==> (#[trigger] v[k]).sized(w, h),
        lasts(v, f, m0, m),
        shows_subtitle(f, w, h, p),
    ensures
        run::all_recorded(v, w, h, p) == run::recorded_from(r.0, r.1, r.2, p),
        run::runnable(r.0, r.1, r.2, p),
        is_part(r.1, r.2, v),
        follows(r.0, f, v[m0].pos, m0, m0 + 1),
        r.1.start <= 0 || r.1.start <= m0 - 1,
        r.1.w == w,
        r.1.h == h,
        v[m0].pos >= 0,
{
    let start = state::at_start(w, h);
    let none = CacheView { w, h, start: 0, frames: Seq::empty() };
    assert(is_part(none, v, v));
    assert(start == seeking(w, h, 0));
    assert(run::runnable(start, none, v, p));
    let (c0, v0) = lemma_seek(none, v, v, f, m0, m, 0, p);
    let s0 = seeking(w, h, m0);
    let t0 = run::target(s0);
    let c1 = run::advanced(c0, v0, t0);
    let v1 = v0.skip(run::taken(c0, v0, t0));
    run::lemma_advanced(c0, v0, t0);
    lemma_part(c0, v0, v, t0);
    lemma_shown(c1, v1, v, f, m0, m);
    lemma_detect(c1, f, m0, p);
    let s1 = SearchView { tracking: true, at: m0, ..s0 };
    assert(run::runnable(s1, c1, v1, p));
    let t1 = run::target(s1);
    let c2 = run::advanced(c1, v1, t1);
    let v2 = v1.skip(run::taken(c1, v1, t1));
    run::lemma_advanced(c1, v1, t1);
    lemma_part(c1, v1, v, t1);
    lemma_shown(c2, v2, v, f, m0, m);
    assert(c2.frame(m0) == Some(v[m0]));
    assert(shown_at(c2, m0, f));
    if m0 > 0 {
        assert(c2.frame(m0 - 1) == Some(v[m0 - 1]));
        assert(v[m0 - 1].pos < v[m0].pos);
        assert(v[0].pos < v[m0].pos);
    }
    lemma_begin(s1, c2, f, m0, p);
    let s2 = search::stepped(s1, c2, p)->Going_0;
    assert(run::recorded_from(s0, c0, v0, p) == run::recorded_from(s1, c1, v1, p));
    assert(run::recorded_from(s1, c1, v1, p) == run::recorded_from(s2, c2, v2, p));
    (s2, c2, v2)
}

/// A subtitle that stands still from some frame on to the end of a video, long
/// enough to count, is recorded once: from the time of its first frame to that of
/// the last one, with the picture and the mask of its text. The search looks at
/// the frames by halves of the shortest subtitle, so its first frame is taken to be
/// the start of such a half.
pub proof fn a_still_subtitle_is_recorded(
    v: Seq<FrameView>,
    f: FrameView,
    m0: int,
    w: int,
    h: int,
    p: Params,
)
    requires
        p.wf(),
        p.dl <= 18,
        0 <= w,
        0 <= h,
        m0 + p.dl <= v.len() <= 0x7fff_ffff,
        m0 % (p.dl as int / 2) == 0,
        forall|k: int| 0 <= k < v.len() ==> (#[trigger] v[k]).sized(w, h),
        lasts(v, f, m0, v.len() as int),
        shows_subtitle(f, w, h, p),
    ensures
        run::all_recorded(v, w, h, p) == Some(
            seq![
                (KeyframeView {
                    start_ms: v[m0].pos,
                    end_ms: v[v.len() - 1].pos,
                    frame: f.bgr,
                    frame_size: (h, w),
                    mask: mask_of(f, w, h, p).0,
                    mask_size: (h, w),
                }),
            ],
        ),
{
    let n = v.len() as int;
    let (s, c, later) = lemma_first_steps(v, f, m0, n, w, h, p);
    lemma_to_the_end(s, c, later, v, f, m0, m0 + 1, p);
    assert(v[m0].pos < v[n - 1].pos);
}

/// A subtitle that is shown, long enough to count, and then gone for good is
/// recorded once: from the time of its first frame to just before that of the
/// first frame without it.
pub proof fn a_subtitle_is_recorded_until_it_is_gone(
    v: Seq<FrameView>,
    f: FrameView,
    m0: int,
    m: int,
    w: int,
    h: int,
    p: Params,
)
    requires
        p.wf(),
        p.dl <= 18,
        0 <= w,
        0 <= h,
        m0 + p.dl <= m < v.len() <= 0x7fff_ffff,
        m0 % (p.dl as int / 2) == 0,
        forall|k: int| 0 <= k < v.len() ==> (#[trigger] v[k]).sized(w, h),
        lasts(v, f, m0, m),
        shows_subtitle(f, w, h, p),
        is_gone(f, v[m], w, h, p),
    ensures
        run::all_recorded(v, w, h, p) == Some(
            seq![
                (KeyframeView {
                    start_ms: v[m0].pos,
                    end_ms: v[m].pos - 1,
                    frame: f.bgr,
                    frame_size: (h, w),
                    mask: mask_of(f, w, h, p).0,
                    mask_size: (h, w),
                }),
            ],
        ),
{
    let (s, c, later) = lemma_first_steps(v, f, m0, m, w, h, p);
    lemma_until_gone(s, c, later, v, f, m0, m, m0 + 1, p);
    assert(v[m0].pos < v[m].pos);
}

} // verus!
