//! What holds of every search.

use super::cache;
use super::cache::{CacheView, FrameView};
use super::filter;
use super::grid;
use super::imgops;
use super::lines;
use super::params::Params;
use super::run;
use super::search;
use super::search::{KeyframeView, Now, Outcome, SearchView, StoredView};
use super::state;
use super::strip;
use super::strip::StripLimits;
use vstd::prelude::*;

verus! {

/// Whether an image has a white pixel.
pub open spec fn shows_white(im: Seq<u8>) -> bool {
    exists|i: int| 0 <= i < im.len() && #[trigger] im[i] == 255
}

/// Where filtering finds text, the filtered areas have a white pixel.
pub proof fn text_is_white(
    sf: Seq<u8>,
    ne: Seq<u8>,
    lb: Seq<i32>,
    le: Seq<i32>,
    n: nat,
    w: int,
    h: int,
    p: Params,
)
    requires
        p.wf(),
        grid::frame_size(w, h),
        w <= 0x7fff_ffff,
        sf.len() == w * h,
        ne.len() == w * h,
        filter::bands_fit(lb, le, n as int, h),
    ensures
        filter::filtered(sf, ne, lb, le, n, w, h, p).text ==> {
            let tf = filter::filtered(sf, ne, lb, le, n, w, h, p).tf;
            tf is Some && shows_white(tf->0)
        },
{
    let reach = strip::cap31(p.min_h.part_of(h as nat)) / 2;
    let dy = filter::restore_distance(p, h);
    let min_h = strip::cap31(p.msh.part_of(h as nat));
    let segh = p.segh as int;
    let areas = imgops::masked(sf, imgops::dilated(ne, w, reach), 0u8);
    let l = StripLimits::given_by(p, w);
    let (cleaned, some) = filter::bands_filtered(areas, ne, lb, le, n, h, l);
    filter::bands_only_lose_pixels(areas, ne, lb, le, n, h, l);
    let whole = filter::touched_by(
        filter::restored(cleaned, areas, w, h, dy),
        cleaned,
        w,
    );
    let big = filter::without_small(whole, w, min_h, segh);
    if some && filter::has_large(whole, w, min_h, segh) {
        let i = choose|i: int|
            0 <= i < whole.len() && #[trigger] whole[i] == 255 && filter::large(
                whole,
                w,
                i,
                min_h,
                segh,
            );
        assert(big[i] == 255);
        grid::lemma_of(i, w, h);
        let y = grid::row(i, w);
        assert(grid::at(big, w, grid::col(i, w), y) != 0);
        assert(lines::busy_row(big, w, y));
        assert(filter::near_busy_row(big, w, h, dy, y));
        let again = filter::restored(big, whole, w, h, dy);
        assert(again[i] == 255);
        assert(filter::extended(again, areas, w, h)[i] == 255);
    }
}

/// Where a stored subtitle has text, what is recorded of it has a white pixel.
proof fn lemma_final_text(s: StoredView, c: CacheView, p: Params)
    requires
        p.wf(),
        grid::frame_size(c.w, c.h),
        c.w <= 0x7fff_ffff,
        s.sized(c.w, c.h),
    ensures
        search::final_text(s, c, p).1 ==> shows_white(search::final_text(s, c, p).0),
        search::final_text(s, c, p).0.len() == s.im.len(),
{
    let lb = seq![0i32];
    let le = seq![(c.h - 1) as i32];
    grid::lemma_sides(c.w, c.h);
    let sf = imgops::masked(s.im, s.y, 0u8);
    text_is_white(sf, s.ne, lb, le, 1, c.w, c.h, p);
    let reach = strip::cap31(p.min_h.part_of(c.h as nat)) / 2;
    let areas = imgops::masked(sf, imgops::dilated(s.ne, c.w, reach), 0u8);
    let l = StripLimits::given_by(p, c.w);
    filter::bands_only_lose_pixels(areas, s.ne, lb, le, 1, c.h, l);
}

/// Records only added to, each with a white pixel in its mask and pictures of `w`
/// by `h` pixels if all were so before.
pub open spec fn grown(a: Seq<KeyframeView>, b: Seq<KeyframeView>, w: int, h: int) -> bool {
    &&& a.len() <= b.len()
    &&& forall|i: int| 0 <= i < a.len() ==> #[trigger] b[i] == a[i]
    &&& all_show_text(a) ==> all_show_text(b)
    &&& all_sized(a, w, h) ==> all_sized(b, w, h)
}

/// Whether the pictures of a record have `h` rows and `w` columns, of three bytes
/// each in the frame and of one in the mask.
pub open spec fn pictures_sized(k: KeyframeView, w: int, h: int) -> bool {
    &&& k.frame_size == (h, w)
    &&& k.frame.len() == w * h * 3
    &&& k.mask_size == (h, w)
    &&& k.mask.len() == w * h
}

/// Whether the pictures of all records have `h` rows and `w` columns.
pub open spec fn all_sized(ks: Seq<KeyframeView>, w: int, h: int) -> bool {
    forall|i: int| 0 <= i < ks.len() ==> pictures_sized(#[trigger] ks[i], w, h)
}

/// Whether the mask of each record has a white pixel.
pub open spec fn all_show_text(ks: Seq<KeyframeView>) -> bool {
    forall|i: int| 0 <= i < ks.len() ==> shows_white((#[trigger] ks[i]).mask)
}

proof fn lemma_recorded(
    ks: Seq<KeyframeView>,
    s: StoredView,
    start: int,
    end: int,
    c: CacheView,
    p: Params,
)
    requires
        p.wf(),
        grid::frame_size(c.w, c.h),
        c.w <= 0x7fff_ffff,
        s.sized(c.w, c.h),
    ensures
        grown(
            ks,
            search::recorded(ks, s.bgr, search::final_text(s, c, p), start, end, c),
            c.w,
            c.h,
        ),
{
    lemma_final_text(s, c, p);
    let b = search::recorded(ks, s.bgr, search::final_text(s, c, p), start, end, c);
    if all_show_text(ks) {
        assert forall|i: int| 0 <= i < b.len() implies shows_white((#[trigger] b[i]).mask) by {
            if i < ks.len() {
                assert(b[i] == ks[i]);
            }
        }
    }
    if all_sized(ks, c.w, c.h) {
        assert forall|i: int| 0 <= i < b.len() implies pictures_sized(
            #[trigger] b[i],
            c.w,
            c.h,
        ) by {
            if i < ks.len() {
                assert(b[i] == ks[i]);
            }
        }
    }
}

/// A state the search can be in, with frames it can work on.
pub open spec fn at_work(s: SearchView, c: CacheView, p: Params) -> bool {
    &&& p.wf()
    &&& c.wf()
    &&& grid::frame_size(c.w, c.h)
    &&& c.w <= 0x7fff_ffff
    &&& s.cur.sized(c.w, c.h)
    &&& s.prev.sized(c.w, c.h)
}

proof fn lemma_prev_recorded(s: SearchView, start: int, end: int, c: CacheView, p: Params)
    requires
        at_work(s, c, p),
    ensures
        grown(s.keyframes, search::prev_recorded(s, start, end, c, p).keyframes, c.w, c.h),
        at_work(search::prev_recorded(s, start, end, c, p), c, p),
{
    lemma_recorded(s.keyframes, s.prev, start, end, c, p);
    lemma_final_text(s.prev, c, p);
}

proof fn lemma_cur_recorded(s: SearchView, c: CacheView, p: Params)
    requires
        at_work(s, c, p),
    ensures
        grown(s.keyframes, search::cur_recorded(s, c, p).keyframes, c.w, c.h),
        at_work(search::cur_recorded(s, c, p), c, p),
{
    lemma_recorded(s.keyframes, s.cur, s.bt, s.et, c, p);
    lemma_final_text(s.cur, c, p);
}

proof fn lemma_flushed(s: SearchView, c: CacheView, p: Params)
    requires
        at_work(s, c, p),
    ensures
        grown(s.keyframes, search::flushed(s, c, p).keyframes, c.w, c.h),
        at_work(search::flushed(s, c, p), c, p),
{
    lemma_prev_recorded(s, s.pbt, s.pet, c, p);
}

proof fn lemma_run_out(s: SearchView, c: CacheView, p: Params)
    requires
        at_work(s, c, p),
    ensures
        grown(s.keyframes, search::run_out(s, c, p).keyframes, c.w, c.h),
        at_work(search::run_out(s, c, p), c, p),
{
    if s.bf != -2 {
        lemma_recorded(s.keyframes, s.cur, s.bt, search::run_out(s, c, p).et, c, p);
    }
}

proof fn lemma_grown_trans(
    a: Seq<KeyframeView>,
    b: Seq<KeyframeView>,
    d: Seq<KeyframeView>,
    w: int,
    h: int,
)
    requires
        grown(a, b, w, h),
        grown(b, d, w, h),
    ensures
        grown(a, d, w, h),
{
    assert forall|i: int| 0 <= i < a.len() implies #[trigger] d[i] == a[i] by {
        assert(b[i] == a[i]);
    }
}

proof fn lemma_end_recorded(s: SearchView, c: CacheView, p: Params)
    requires
        at_work(s, c, p),
    ensures
        grown(s.keyframes, search::end_recorded(s, c, p).keyframes, c.w, c.h),
        at_work(search::end_recorded(s, c, p), c, p),
{
    let s1 = if s.ef - s.bf + 1 < p.dl && s.has_prev && search::edges_match(s, c, p) {
        SearchView { bf: s.pbf, bt: s.pbt, ..s }
    } else {
        s
    };
    lemma_prev_recorded(s1, s1.pbt, s1.pet, c, p);
    let s2 = if s1.has_prev && s1.bf != s1.pbf {
        search::prev_recorded(s1, s1.pbt, s1.pet, c, p)
    } else {
        s1
    };
    lemma_cur_recorded(s2, c, p);
    lemma_prev_recorded(s2, s2.bt, s2.et, c, p);
    lemma_grown_trans(
        s.keyframes,
        s2.keyframes,
        search::end_recorded(s, c, p).keyframes,
        c.w,
        c.h,
    );
}

proof fn lemma_judged(s: SearchView, now: Now, text: bool, moved: bool, c: CacheView, p: Params)
    requires
        at_work(s, c, p),
        now.f.sized(c.w, c.h),
        now.im.len() == c.w * c.h,
        now.y.len() == c.w * c.h,
    ensures
        match search::judged(s, now, text, moved, c, p) {
            Outcome::Going(s1) => grown(s.keyframes, s1.keyframes, c.w, c.h) && at_work(s1, c, p),
            Outcome::Ended(s1) => grown(s.keyframes, s1.keyframes, c.w, c.h) && at_work(s1, c, p),
            Outcome::Lost => true,
        },
{
    reveal(search::judged);
    reveal(search::carried_on);
    reveal(search::disappeared);
    let s0 = if s.at == s.bf {
        SearchView { cur: now.stored(), ..s }
    } else {
        s
    };
    assert(at_work(s0, c, p));
    if s0.at > s0.ef {
        if text && moved {
            if s0.bf != -2 {
                lemma_changed(s0, now, c, p);
            }
        } else if text || moved {
            let s1 = search::reunited(s0, c, p);
            if s1.bf != -2 {
                lemma_end_recorded(search::end_found(s1, now, moved, c, p), c, p);
            }
        }
    }
}

proof fn lemma_changed(s: SearchView, now: Now, c: CacheView, p: Params)
    requires
        at_work(s, c, p),
        now.f.sized(c.w, c.h),
        now.im.len() == c.w * c.h,
        now.y.len() == c.w * c.h,
    ensures
        match search::changed(s, now, c, p) {
            Outcome::Going(s1) => grown(s.keyframes, s1.keyframes, c.w, c.h) && at_work(s1, c, p),
            Outcome::Ended(s1) => grown(s.keyframes, s1.keyframes, c.w, c.h) && at_work(s1, c, p),
            Outcome::Lost => true,
        },
{
    lemma_prev_recorded(s, s.pbt, s.pet, c, p);
    let s1 = search::prev_settled(s, c, p);
    assert(grown(s.keyframes, s1.keyframes, c.w, c.h));
    assert(at_work(s1, c, p));
    if let Some(offset) = search::offset_of_new(c, s.at, s.cur, s.prev_ne, 0, p) {
        if let Some(f) = c.frame(s.at + offset) {
            assert(f.sized(c.w, c.h));
        }
    }
}

proof fn lemma_intersected(c: CacheView, k: int, p: Params)
    requires
        c.wf(),
    ensures
        search::intersected(c, k, p).0.len() == c.w * c.h,
        search::intersected(c, k, p).1.len() == c.w * c.h,
{
    reveal(search::intersected);
    state::lemma_ahead(c, k, p.dl as nat);
    assert(c.w * c.h >= 0) by (nonlinear_arith)
        requires
            c.w >= 0,
            c.h >= 0,
    ;
}

/// A step only adds records, and only records whose mask has a white pixel and
/// whose pictures have the size of the frames.
pub proof fn steps_only_add_records(s: SearchView, c: CacheView, p: Params)
    requires
        at_work(s, c, p),
    ensures
        match search::stepped(s, c, p) {
            Outcome::Going(s1) => grown(s.keyframes, s1.keyframes, c.w, c.h) && at_work(s1, c, p),
            Outcome::Ended(s1) => grown(s.keyframes, s1.keyframes, c.w, c.h) && at_work(s1, c, p),
            Outcome::Lost => true,
        },
{
    if s.tracking {
        match c.frame(s.at) {
            None => {
                lemma_run_out(s, c, p);
                lemma_flushed(search::run_out(s, c, p), c, p);
                lemma_grown_trans(
                    s.keyframes,
                    search::run_out(s, c, p).keyframes,
                    search::flushed(search::run_out(s, c, p), c, p).keyframes,
                    c.w,
                    c.h,
                );
            },
            Some(f) => {
                assert(f.sized(c.w, c.h));
                let before = if s.at > 0 {
                    c.frame(s.at - 1)->0.pos
                } else {
                    -1
                };
                let (im, y, text) = search::intersected(c, s.at, p);
                lemma_intersected(c, s.at, p);
                let now = Now { f, im, y };
                lemma_judged(s, now, text, f.pos != before, c, p);
                if let Outcome::Ended(s1) = search::judged(s, now, text, f.pos != before, c, p) {
                    lemma_flushed(s1, c, p);
                    lemma_grown_trans(
                        s.keyframes,
                        s1.keyframes,
                        search::flushed(s1, c, p).keyframes,
                        c.w,
                        c.h,
                    );
                }
            },
        }
    } else {
        lemma_flushed(s, c, p);
        lemma_flushed(SearchView { from: s.from + p.dl / 2, ..s }, c, p);
    }
}

/// Every subtitle recorded in a video has a white pixel in its mask, and pictures
/// of the size of the frames.
pub proof fn records_show_text(frames: Seq<FrameView>, w: int, h: int, p: Params)
    requires
        p.wf(),
        grid::frame_size(w, h),
        w <= 0x7fff_ffff,
        frames.len() <= 0x7fff_ffff,
        forall|k: int| 0 <= k < frames.len() ==> (#[trigger] frames[k]).sized(w, h),
    ensures
        run::all_recorded(frames, w, h, p) matches Some(ks) && all_show_text(ks) && all_sized(
            ks,
            w,
            h,
        ),
{
    let s = state::at_start(w, h);
    let c = CacheView { w, h, start: 0, frames: Seq::empty() };
    assert(w * h >= 0) by (nonlinear_arith)
        requires
            w >= 0,
            h >= 0,
    ;
    run::no_frame_is_lost(s, c, frames, p);
    lemma_records_show_text(s, c, frames, p);
}

proof fn lemma_records_show_text(
    s: SearchView,
    c: CacheView,
    later: Seq<FrameView>,
    p: Params,
)
    requires
        run::runnable(s, c, later, p),
        at_work(s, c, p),
        all_show_text(s.keyframes),
        all_sized(s.keyframes, c.w, c.h),
    ensures
        run::recorded_from(s, c, later, p) matches Some(ks) ==> all_show_text(ks) && all_sized(
            ks,
            c.w,
            c.h,
        ),
    decreases
            c.total() + later.len() + 1 - s.from,
            (if s.tracking {
                c.total() + later.len() + 1 - s.at
            } else {
                c.total() + later.len() + 2
            }),
{
    let t = run::target(s);
    run::lemma_advanced(c, later, t);
    let c1 = run::advanced(c, later, t);
    let later1 = later.skip(run::taken(c, later, t));
    run::steps_bring_forward(s, c1, p);
    steps_only_add_records(s, c1, p);
    if let Outcome::Going(s1) = search::stepped(s, c1, p) {
        lemma_records_show_text(s1, c1, later1, p);
    }
}

/// Whether no frame has text.
pub open spec fn no_text(frames: Seq<FrameView>) -> bool {
    forall|k: int| 0 <= k < frames.len() ==> !(#[trigger] frames[k]).has_text
}

/// Nothing is recorded in a video of which no frame has text.
pub proof fn nothing_is_recorded_without_text(frames: Seq<FrameView>, w: int, h: int, p: Params)
    requires
        p.wf(),
        grid::frame_size(w, h),
        frames.len() <= 0x7fff_ffff,
        forall|k: int| 0 <= k < frames.len() ==> (#[trigger] frames[k]).sized(w, h),
        no_text(frames),
    ensures
        run::all_recorded(frames, w, h, p) == Some(Seq::<KeyframeView>::empty()),
{
    let s = state::at_start(w, h);
    let c = CacheView { w, h, start: 0, frames: Seq::empty() };
    run::no_frame_is_lost(s, c, frames, p);
    lemma_nothing_without_text(s, c, frames, p);
}

proof fn lemma_nothing_without_text(
    s: SearchView,
    c: CacheView,
    later: Seq<FrameView>,
    p: Params,
)
    requires
        run::runnable(s, c, later, p),
        no_text(c.frames),
        no_text(later),
        !s.tracking,
        !s.has_prev,
        s.keyframes.len() == 0,
    ensures
        run::recorded_from(s, c, later, p) matches Some(ks) ==> ks.len() == 0,
    decreases c.total() + later.len() + 1 - s.from,
{
    let t = run::target(s);
    let n = run::taken(c, later, t);
    run::lemma_advanced(c, later, t);
    let c1 = run::advanced(c, later, t);
    let later1 = later.skip(n);
    run::steps_bring_forward(s, c1, p);
    let d = cache::dropped(CacheView { frames: c.frames + later.take(n), ..c }, t);
    assert forall|k: int| 0 <= k < c1.frames.len() implies !(#[trigger] c1.frames[k]).has_text by {
        if k + d < c.frames.len() {
            assert(c1.frames[k] == c.frames[k + d]);
        } else {
            assert(c1.frames[k] == later[k + d - c.frames.len()]);
        }
    }
    assert forall|k: int| 0 <= k < later1.len() implies !(#[trigger] later1[k]).has_text by {
        assert(later1[k] == later[k + n]);
    }
    if let Some(f) = c1.frame(s.from + p.dl / 2 - 1) {
        assert(f == c1.frames[s.from + p.dl / 2 - 1 - c1.start]);
    }
    if let Outcome::Going(s1) = search::stepped(s, c1, p) {
        lemma_nothing_without_text(s1, c1, later1, p);
    }
}

/// Nothing recorded yet, nothing waiting to be recorded, and a current subtitle
/// that begins at a frame of the video, if there is one.
spec fn nothing_yet(s: SearchView) -> bool {
    &&& s.keyframes.len() == 0
    &&& !s.has_prev
    &&& s.bf == -2 || 0 <= s.bf
}

/// Nothing is recorded in a video with fewer frames than a subtitle has to last.
pub proof fn nothing_is_recorded_in_short_videos(
    frames: Seq<FrameView>,
    w: int,
    h: int,
    p: Params,
)
    requires
        p.wf(),
        grid::frame_size(w, h),
        frames.len() <= 0x7fff_ffff,
        forall|k: int| 0 <= k < frames.len() ==> (#[trigger] frames[k]).sized(w, h),
        frames.len() < p.dl,
    ensures
        run::all_recorded(frames, w, h, p) == Some(Seq::<KeyframeView>::empty()),
{
    let s = state::at_start(w, h);
    let c = CacheView { w, h, start: 0, frames: Seq::empty() };
    run::no_frame_is_lost(s, c, frames, p);
    lemma_nothing_in_short(s, c, frames, p);
}

proof fn lemma_nothing_in_short(s: SearchView, c: CacheView, later: Seq<FrameView>, p: Params)
    requires
        run::runnable(s, c, later, p),
        c.total() + later.len() < p.dl,
        nothing_yet(s),
    ensures
        run::recorded_from(s, c, later, p) matches Some(ks) ==> ks.len() == 0,
    decreases
            c.total() + later.len() + 1 - s.from,
            (if s.tracking {
                c.total() + later.len() + 1 - s.at
            } else {
                c.total() + later.len() + 2
            }),
{
    let t = run::target(s);
    run::lemma_advanced(c, later, t);
    let c1 = run::advanced(c, later, t);
    let later1 = later.skip(run::taken(c, later, t));
    run::steps_bring_forward(s, c1, p);
    if s.tracking {
        if let Some(f) = c1.frame(s.at) {
            let before = if s.at > 0 {
                c1.frame(s.at - 1)->0.pos
            } else {
                -1
            };
            let (im, y, text) = search::intersected(c1, s.at, p);
            lemma_short_judged(s, Now { f, im, y }, text, f.pos != before, c1, p);
        }
    }
    if let Outcome::Going(s1) = search::stepped(s, c1, p) {
        lemma_nothing_in_short(s1, c1, later1, p);
    }
}

/// A subtitle fades at the end of the window at the latest.
pub proof fn lemma_fades(c: CacheView, k: int, cur: StoredView, also: Seq<u8>, offset: int, p: Params)
    requires
        0 <= offset,
        c.start <= k,
        k + offset <= c.total(),
    ensures
        0 <= search::fades_at(c, k, cur, also, offset, p),
        k + search::fades_at(c, k, cur, also, offset, p) <= c.total(),
    decreases p.dl - offset,
{
    if offset < p.dl - 1 {
        if let Some(f) = c.frame(k + offset) {
            if search::seen_on(cur, also, f.ne, c, p) {
                lemma_fades(c, k, cur, f.ne, offset + 1, p);
            }
        }
    }
}

proof fn lemma_short_judged(
    s: SearchView,
    now: Now,
    text: bool,
    moved: bool,
    c: CacheView,
    p: Params,
)
    requires
        c.frame(s.at) is Some,
        0 <= s.at,
        c.total() < p.dl,
        nothing_yet(s),
    ensures
        match search::judged(s, now, text, moved, c, p) {
            Outcome::Going(s1) => nothing_yet(s1),
            Outcome::Ended(s1) => nothing_yet(s1),
            Outcome::Lost => true,
        },
{
    reveal(search::judged);
    reveal(search::carried_on);
    reveal(search::disappeared);
    let s0 = if s.at == s.bf {
        SearchView { cur: now.stored(), ..s }
    } else {
        s
    };
    lemma_fades(c, s0.at, s0.cur, s0.prev_ne, 0, p);
    if s0.at > s0.ef && text && moved && s0.bf != -2 {
        lemma_offset(c, s0.at, s0.cur, s0.prev_ne, 0, p);
    }
}

/// The offset of a new subtitle lies within the look-ahead.
pub proof fn lemma_offset(
    c: CacheView,
    k: int,
    cur: StoredView,
    prev_ne: Seq<u8>,
    offset: int,
    p: Params,
)
    requires
        0 <= offset,
        p.dl >= 1,
    ensures
        search::offset_of_new(c, k, cur, prev_ne, offset, p) matches Some(r) ==> 0 <= r < p.dl,
    decreases p.dl - offset,
{
    if offset < p.dl - 1 {
        lemma_offset(c, k, cur, prev_ne, offset + 1, p);
    }
}

} // verus!
