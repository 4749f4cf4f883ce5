//! The times of the recorded subtitles do not overlap.

use super::cache::{CacheView, FrameView};
use super::grid;
use super::laws;
use super::params::Params;
use super::run;
use super::search;
use super::search::{KeyframeView, Now, Outcome, SearchView};
use super::state;
use vstd::prelude::*;

verus! {

/// Frames in the order of time.
pub open spec fn in_order(frames: Seq<FrameView>) -> bool {
    forall|i: int, j: int|
        0 <= i <= j < frames.len() ==> 0 <= (#[trigger] frames[i]).pos <= (#[trigger] frames[j]).pos
}

/// Whether frames less than `n` apart follow one another at thirty a second or
/// faster.
pub open spec fn fast_enough(frames: Seq<FrameView>, n: int) -> bool {
    forall|i: int, j: int|
        0 <= i <= j < frames.len() && j - i < n ==> (#[trigger] frames[j]).pos
            <= (#[trigger] frames[i]).pos + (j - i) * 1000 / 30
}

/// Whether of any two records one ends before the other starts.
pub open spec fn apart(ks: Seq<KeyframeView>) -> bool {
    forall|i: int, j: int|
        0 <= i < j < ks.len() ==> (#[trigger] ks[i]).end_ms < (#[trigger] ks[j]).start_ms
            || ks[j].end_ms < ks[i].start_ms
}

spec fn ends_before(ks: Seq<KeyframeView>, t: int) -> bool {
    forall|i: int| 0 <= i < ks.len() ==> (#[trigger] ks[i]).end_ms < t
}

/// Whether the window holds a stretch of all frames, and the others come next.
spec fn part_of(all: Seq<FrameView>, c: CacheView, later: Seq<FrameView>) -> bool {
    &&& 0 <= c.start
    &&& c.total() <= all.len()
    &&& c.frames == all.subrange(c.start, c.total())
    &&& later == all.skip(c.total())
}

/// Whether frame `k` is later than the frame before it.
spec fn later_than_before(all: Seq<FrameView>, k: int) -> bool {
    k == 0 || all[k].pos != all[k - 1].pos
}

/// Whether all records end before any frame at which a subtitle can begin, from
/// `cursor` on.
spec fn free_from(s: SearchView, all: Seq<FrameView>, cursor: int) -> bool {
    forall|k: int|
        cursor <= k < all.len() && k > s.ef && #[trigger] later_than_before(all, k)
            ==> ends_before(s.keyframes, all[k].pos)
}

/// What holds of the times while a subtitle is followed.
spec fn timely_tracking(s: SearchView, all: Seq<FrameView>) -> bool {
    &&& apart(s.keyframes)
    &&& s.has_prev ==> s.bf != -2
    &&& s.bf == -2 ==> free_from(s, all, s.at)
    &&& s.bf != -2 ==> {
        &&& 0 <= s.bf < all.len()
        &&& s.ef == s.bf
        &&& all[s.bf].pos <= s.bt
        &&& ends_before(s.keyframes, all[s.bf].pos)
    }
    &&& s.has_prev ==> {
        &&& 0 <= s.pbf <= s.bf
        &&& all[s.pbf].pos <= s.pbt
        &&& 0 <= s.pet < all[s.bf].pos
        &&& ends_before(s.keyframes, all[s.pbf].pos)
    }
}

/// What holds of the times all through the search.
spec fn timely(s: SearchView, all: Seq<FrameView>) -> bool {
    if s.tracking {
        timely_tracking(s, all)
    } else {
        &&& apart(s.keyframes)
        &&& s.bf == -2
        &&& !s.has_prev
        &&& free_from(s, all, s.from)
    }
}

/// A record whose time is free.
proof fn lemma_recorded(
    ks: Seq<KeyframeView>,
    bgr: Seq<u8>,
    found: (Seq<u8>, bool),
    start: int,
    end: int,
    c: CacheView,
)
    requires
        apart(ks),
        0 <= start,
        forall|i: int|
            0 <= i < ks.len() ==> (#[trigger] ks[i]).end_ms < start || 0 <= end < ks[i].start_ms,
    ensures
        apart(search::recorded(ks, bgr, found, start, end, c)),
        forall|t: int|
            ends_before(ks, t) && 0 <= end < t ==> #[trigger] ends_before(
                search::recorded(ks, bgr, found, start, end, c),
                t,
            ),
{
}

/// The window shows the frames of the video.
proof fn lemma_frame(all: Seq<FrameView>, c: CacheView, later: Seq<FrameView>, k: int)
    requires
        part_of(all, c, later),
    ensures
        c.frame(k) matches Some(f) ==> 0 <= k < all.len() && f == all[k],
{
    if let Some(f) = c.frame(k) {
        assert(c.frames[k - c.start] == all[k]);
    }
}

proof fn lemma_changed(
    s: SearchView,
    now: Now,
    all: Seq<FrameView>,
    c: CacheView,
    later: Seq<FrameView>,
    p: Params,
)
    requires
        p.wf(),
        in_order(all),
        fast_enough(all, p.dl as int),
        part_of(all, c, later),
        timely_tracking(s, all),
        s.bf != -2,
        s.at > s.ef,
        s.at < all.len(),
        now.f == all[s.at],
        later_than_before(all, s.at),
    ensures
        match search::changed(s, now, c, p) {
            Outcome::Going(s1) => timely_tracking(s1, all) && s1.tracking == s.tracking,
            Outcome::Ended(s1) => apart(search::flushed(s1, c, p).keyframes),
            Outcome::Lost => true,
        },
{
    let s1 = search::prev_settled(s, c, p);
    let found = search::final_text(s.prev, c, p);
    assert(all[s.at - 1].pos <= all[s.at].pos);
    assert(all[s.bf].pos <= all[s.at].pos);
    if s.has_prev {
        assert(0 <= all[s.pbf].pos);
        assert(all[s.pbf].pos <= all[s.bf].pos);
        lemma_recorded(s.keyframes, s.prev.bgr, found, s.pbt, s.pet, c);
    }
    assert(apart(s1.keyframes));
    assert(ends_before(s1.keyframes, all[s.bf].pos));
    // The subtitle that ends now is the one before from here on.
    assert(0 <= s1.pbf <= s.bf && all[s1.pbf].pos <= s1.pbt);
    assert(ends_before(s1.keyframes, all[s1.pbf].pos));
    if s.at > s.bf + 1 {
        laws::lemma_offset(c, s.at, s.cur, s.prev_ne, 0, p);
        match search::offset_of_new(c, s.at, s.cur, s.prev_ne, 0, p) {
            None => {
                lemma_ended(s, all, c, p);
            },
            Some(offset) => {
                lemma_frame(all, c, later, s.at + offset);
                match c.frame(s.at + offset) {
                    None => {
                        lemma_ended(s, all, c, p);
                    },
                    Some(f) => {
                        let s2 = search::moved_on(s1, now, f, offset, f.pos - 1, p);
                        assert(all[s.bf].pos <= all[s.at + offset].pos);
                        assert(all[s.at].pos <= all[s.at + offset].pos);
                        assert(s2.bt == all[s.at].pos + offset * 1000 / 30);
                        assert((s.at + offset) - s.at == offset);
                        assert(all[s2.bf].pos <= s2.bt);
                    },
                }
            },
        }
    } else {
        let s2 = search::moved_on(s1, now, now.f, 0, now.f.pos - 1, p);
        assert(s2.bt == all[s.at].pos);
    }
}

/// A search that ends while a subtitle changes.
proof fn lemma_ended(s: SearchView, all: Seq<FrameView>, c: CacheView, p: Params)
    requires
        in_order(all),
        timely_tracking(s, all),
        s.bf != -2,
    ensures
        apart(search::flushed(search::prev_settled(s, c, p), c, p).keyframes),
{
    let s1 = search::prev_settled(s, c, p);
    assert(0 <= all[s.bf].pos);
    if s.has_prev {
        assert(0 <= all[s.pbf].pos);
        assert(all[s.pbf].pos <= all[s.bf].pos);
        lemma_recorded(
            s.keyframes,
            s.prev.bgr,
            search::final_text(s.prev, c, p),
            s.pbt,
            s.pet,
            c,
        );
        assert(ends_before(s1.keyframes, all[s.bf].pos));
        lemma_recorded(
            s1.keyframes,
            s1.prev.bgr,
            search::final_text(s1.prev, c, p),
            s1.pbt,
            s1.pet,
            c,
        );
    }
}

/// A subtitle whose end is known, recorded with the one before it.
proof fn lemma_end_recorded(s: SearchView, all: Seq<FrameView>, c: CacheView, p: Params)
    requires
        in_order(all),
        apart(s.keyframes),
        0 <= s.bf < all.len(),
        all[s.bf].pos <= s.bt,
        ends_before(s.keyframes, all[s.bf].pos),
        0 <= s.et,
        s.has_prev ==> {
            &&& 0 <= s.pbf <= s.bf
            &&& all[s.pbf].pos <= s.pbt
            &&& 0 <= s.pet < all[s.bf].pos
            &&& ends_before(s.keyframes, all[s.pbf].pos)
        },
    ensures
        apart(search::end_recorded(s, c, p).keyframes),
        search::end_recorded(s, c, p).ef == s.ef,
        search::end_recorded(s, c, p).at == s.at,
        search::end_recorded(s, c, p).from == s.from,
        forall|t: int|
            all[s.bf].pos <= t && s.et < t ==> #[trigger] ends_before(
                search::end_recorded(s, c, p).keyframes,
                t,
            ),
{
    let s1 = if s.ef - s.bf + 1 < p.dl && s.has_prev && search::edges_match(s, c, p) {
        SearchView { bf: s.pbf, bt: s.pbt, ..s }
    } else {
        s
    };
    assert(0 <= all[s.bf].pos);
    if s.has_prev {
        assert(0 <= all[s.pbf].pos);
        assert(all[s.pbf].pos <= all[s.bf].pos);
    }
    assert(ends_before(s1.keyframes, all[s1.bf].pos) && 0 <= all[s1.bf].pos <= s1.bt);
    let s2 = if s1.has_prev && s1.bf != s1.pbf {
        search::prev_recorded(s1, s1.pbt, s1.pet, c, p)
    } else {
        s1
    };
    if s1.has_prev && s1.bf != s1.pbf {
        lemma_recorded(
            s1.keyframes,
            s1.prev.bgr,
            search::final_text(s1.prev, c, p),
            s1.pbt,
            s1.pet,
            c,
        );
    }
    assert(apart(s2.keyframes));
    assert(ends_before(s2.keyframes, all[s1.bf].pos));
    assert forall|t: int| all[s.bf].pos <= t implies #[trigger] ends_before(s2.keyframes, t) by {
        assert forall|i: int| 0 <= i < s2.keyframes.len() implies (
        #[trigger] s2.keyframes[i]).end_ms < t by {
            assert(s2.keyframes[i].end_ms < all[s1.bf].pos);
        }
    }
    lemma_recorded(
        s2.keyframes,
        s2.cur.bgr,
        search::final_text(s2.cur, c, p),
        s2.bt,
        s2.et,
        c,
    );
    lemma_recorded(
        s2.keyframes,
        s2.prev.bgr,
        search::final_text(s2.prev, c, p),
        s2.bt,
        s2.et,
        c,
    );
}

proof fn lemma_disappeared(
    s: SearchView,
    now: Now,
    moved: bool,
    all: Seq<FrameView>,
    c: CacheView,
    later: Seq<FrameView>,
    p: Params,
)
    requires
        in_order(all),
        part_of(all, c, later),
        timely_tracking(s, all),
        s.tracking,
        s.at > s.ef,
        0 <= s.at,
        c.frame(s.at) == Some(now.f),
        moved == later_than_before(all, s.at),
    ensures
        ({
            let s1 = search::disappeared(s, now, moved, c, p);
            &&& s1.tracking ==> timely_tracking(SearchView { at: s.at + 1, ..s1 }, all)
            &&& !s1.tracking ==> timely(s1, all)
        }),
{
    reveal(search::disappeared);
    let s1 = search::reunited(s, c, p);
    lemma_frame(all, c, later, s.at);
    assert(0 <= all[s.at].pos);
    if s1.bf != -2 {
        let s2 = search::end_found(s1, now, moved, c, p);
        laws::lemma_fades(c, s1.at, s1.cur, s1.prev_ne, 0, p);
        let offset = search::fades_at(c, s1.at, s1.cur, s1.prev_ne, 0, p);
        lemma_frame(all, c, later, s1.at + offset);
        assert(0 <= s1.bf < s.at);
        assert(all[s.at - 1].pos <= all[s.at].pos);
        assert(0 <= all[s.at - 1].pos);
        if moved && c.frame(s1.at + offset) is Some {
            assert(all[s.at].pos <= all[s1.at + offset].pos);
        }
        assert(0 <= s2.et);
        lemma_end_recorded(s2, all, c, p);
        let s3 = search::end_recorded(s2, c, p);
        assert forall|k: int|
            s.at <= k < all.len() && k > s3.ef && #[trigger] later_than_before(
                all,
                k,
            ) implies ends_before(s3.keyframes, all[k].pos) by {
            assert(all[s1.bf].pos <= all[k].pos);
            if moved && c.frame(s1.at + offset) is Some {
                assert(all[s1.at + offset].pos <= all[k].pos);
            } else if moved {
                if k == s.at {
                    assert(offset == 0);
                } else {
                    assert(all[s.at].pos <= all[k - 1].pos);
                    assert(all[k - 1].pos <= all[k].pos);
                }
            } else {
                assert(k != s.at);
                assert(all[s.at].pos <= all[k - 1].pos);
                assert(all[k - 1].pos <= all[k].pos);
            }
        }
    }
}

proof fn lemma_judged(
    s: SearchView,
    now: Now,
    text: bool,
    moved: bool,
    all: Seq<FrameView>,
    c: CacheView,
    later: Seq<FrameView>,
    p: Params,
)
    requires
        p.wf(),
        in_order(all),
        fast_enough(all, p.dl as int),
        part_of(all, c, later),
        timely_tracking(s, all),
        s.tracking,
        0 <= s.at,
        c.frame(s.at) == Some(now.f),
        moved == later_than_before(all, s.at),
    ensures
        match search::judged(s, now, text, moved, c, p) {
            Outcome::Going(s1) => {
                &&& s1.tracking ==> timely_tracking(SearchView { at: s.at + 1, ..s1 }, all)
                &&& !s1.tracking ==> timely(s1, all)
            },
            Outcome::Ended(s1) => apart(search::flushed(s1, c, p).keyframes),
            Outcome::Lost => true,
        },
{
    reveal(search::judged);
    reveal(search::carried_on);
    lemma_frame(all, c, later, s.at);
    let s0 = if s.at == s.bf {
        SearchView { cur: now.stored(), ..s }
    } else {
        s
    };
    assert(timely_tracking(s0, all));
    if s0.at > s0.ef {
        if text && moved {
            if s0.bf == -2 {
                assert(later_than_before(all, s.at));
            } else {
                lemma_changed(s0, now, all, c, later, p);
            }
        } else if text || moved {
            lemma_disappeared(s0, now, moved, all, c, later, p);
        }
    }
}

/// A step keeps the times apart.
#[verifier::spinoff_prover]
#[verifier::rlimit(60)]
proof fn lemma_stepped(
    s: SearchView,
    all: Seq<FrameView>,
    c: CacheView,
    later: Seq<FrameView>,
    p: Params,
)
    requires
        p.wf(),
        in_order(all),
        fast_enough(all, p.dl as int),
        part_of(all, c, later),
        timely(s, all),
        0 <= s.at,
        0 <= s.from,
    ensures
        match search::stepped(s, c, p) {
            Outcome::Going(s1) => timely(s1, all),
            Outcome::Ended(s1) => apart(s1.keyframes),
            Outcome::Lost => true,
        },
{
    if s.tracking {
        match c.frame(s.at) {
            None => {
                lemma_run_out(s, all, c, p);
            },
            Some(f) => {
                if !(s.at > 0 && c.frame(s.at - 1) is None) {
                    let before = if s.at > 0 {
                        c.frame(s.at - 1)->0.pos
                    } else {
                        -1
                    };
                    lemma_frame(all, c, later, s.at);
                    lemma_frame(all, c, later, s.at - 1);
                    assert(0 <= all[s.at].pos);
                    let (im, y, text) = search::intersected(c, s.at, p);
                    lemma_judged(s, Now { f, im, y }, text, f.pos != before, all, c, later, p);
                    if let Outcome::Going(s1) = search::judged(
                        s,
                        Now { f, im, y },
                        text,
                        f.pos != before,
                        c,
                        p,
                    ) {
                        run::lemma_judged(s, Now { f, im, y }, text, f.pos != before, c, p);
                        let s2 = search::next_frame(s1, f);
                        if s1.tracking {
                            assert(timely_tracking(SearchView { at: s.at + 1, ..s1 }, all));
                            assert(timely_tracking(s2, all));
                        }
                    }
                }
            },
        }
    }
}

/// The end of the frames keeps the times apart.
proof fn lemma_run_out(s: SearchView, all: Seq<FrameView>, c: CacheView, p: Params)
    requires
        in_order(all),
        timely_tracking(s, all),
    ensures
        apart(search::flushed(search::run_out(s, c, p), c, p).keyframes),
{
    let s1 = search::run_out(s, c, p);
    if s.bf != -2 {
        assert(0 <= all[s.bf].pos);
        lemma_recorded(
            s.keyframes,
            s.cur.bgr,
            search::final_text(s.cur, c, p),
            s.bt,
            s1.et,
            c,
        );
        if s.has_prev {
            assert(0 <= all[s.pbf].pos);
            assert forall|i: int| 0 <= i < s1.keyframes.len() implies (
            #[trigger] s1.keyframes[i]).end_ms < s.pbt || 0 <= s.pet < s1.keyframes[i].start_ms by {
                if i < s.keyframes.len() {
                    assert(s1.keyframes[i] == s.keyframes[i]);
                }
            }
            lemma_recorded(
                s1.keyframes,
                s1.prev.bgr,
                search::final_text(s1.prev, c, p),
                s1.pbt,
                s1.pet,
                c,
            );
        }
    }
}

#[verifier::spinoff_prover]
#[verifier::rlimit(60)]
proof fn lemma_run(
    s: SearchView,
    all: Seq<FrameView>,
    c: CacheView,
    later: Seq<FrameView>,
    p: Params,
)
    requires
        run::runnable(s, c, later, p),
        in_order(all),
        fast_enough(all, p.dl as int),
        part_of(all, c, later),
        timely(s, all),
    ensures
        run::recorded_from(s, c, later, p) matches Some(ks) ==> apart(ks),
    decreases
            c.total() + later.len() + 1 - s.from,
            (if s.tracking {
                c.total() + later.len() + 1 - s.at
            } else {
                c.total() + later.len() + 2
            }),
{
    let t = run::target(s);
    let n = run::taken(c, later, t);
    run::lemma_advanced(c, later, t);
    let c1 = run::advanced(c, later, t);
    let later1 = later.skip(n);
    let full = CacheView { frames: c.frames + later.take(n), ..c };
    assert(full.total() == c.total() + n);
    assert(c1.frames =~= all.subrange(c1.start, c1.total()));
    assert(later1 =~= all.skip(c1.total()));
    run::steps_bring_forward(s, c1, p);
    lemma_stepped(s, all, c1, later1, p);
    if let Outcome::Going(s1) = search::stepped(s, c1, p) {
        lemma_run(s1, all, c1, later1, p);
    }
}

/// Of any two subtitles recorded in a video one ends before the other starts, if
/// the frames come in the order of time and at thirty a second or faster.
pub proof fn records_do_not_overlap(frames: Seq<FrameView>, w: int, h: int, p: Params)
    requires
        p.wf(),
        grid::frame_size(w, h),
        frames.len() <= 0x7fff_ffff,
        forall|k: int| 0 <= k < frames.len() ==> (#[trigger] frames[k]).sized(w, h),
        in_order(frames),
        fast_enough(frames, p.dl as int),
    ensures
        run::all_recorded(frames, w, h, p) matches Some(ks) && apart(ks),
{
    let s = state::at_start(w, h);
    let c = CacheView { w, h, start: 0, frames: Seq::empty() };
    assert(c.frames =~= frames.subrange(0, 0));
    assert(frames.skip(0) =~= frames);
    run::no_frame_is_lost(s, c, frames, p);
    lemma_run(s, frames, c, frames, p);
}

} // verus!
