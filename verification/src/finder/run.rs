//! The search over a whole video.

use super::cache;
use super::cache::{CacheView, FrameCache, FrameData, FrameView, FORWARD};
use super::grid;
use super::laws;
use super::params::Params;
use super::search;
use super::search::{KeyframeView, Now, Outcome, SearchView};
use super::state;
use super::state::{FrameLost, Keyframe, Search};
use std::collections::VecDeque;
use vstd::prelude::*;
use vstd::std_specs::vecdeque::*;

verus! {

/// The frame that has to be decoded before the next step.
pub open spec fn target(s: SearchView) -> int {
    FORWARD + if s.tracking {
        s.at
    } else {
        s.from
    }
}

/// How many of the frames that come next are taken to reach frame `t`.
pub open spec fn taken(c: CacheView, later: Seq<FrameView>, t: int) -> int {
    let n = t + 1 - c.total();
    if n <= 0 {
        0
    } else if n <= later.len() {
        n
    } else {
        later.len() as int
    }
}

/// The window with the frames up to `t` added, as far as there are any, and
/// the frames that lie too far before `t` dropped.
pub open spec fn advanced(c: CacheView, later: Seq<FrameView>, t: int) -> CacheView {
    cache::trimmed(
        CacheView { frames: c.frames + later.take(taken(c, later, t)), ..c },
        t,
    )
}

/// Every step that does not end the search brings it forward.
pub open spec fn forward(s: SearchView, s1: SearchView) -> bool {
    ||| s.tracking && s1.tracking && s1.from == s.from && s1.at == s.at + 1
    ||| !s.tracking && s1.tracking && s1.from == s.from && s1.at == s.from
    ||| !s1.tracking && s1.from > s.from && (s.tracking ==> s1.from == s.at)
}

/// A step that does not end the search brings it forward: to the next frame of
/// the subtitle being followed, from looking for a subtitle to following one,
/// or to a later frame from which to look for one. It stays within a
/// look-ahead of the decoded frames.
pub proof fn steps_bring_forward(s: SearchView, c: CacheView, p: Params)
    requires
        p.wf(),
        c.wf(),
        0 <= s.from,
        0 <= s.at,
    ensures
        search::stepped(s, c, p) matches Outcome::Going(s1) ==> {
            &&& forward(s, s1)
            &&& s1.from <= s.from || s1.from <= c.total()
            &&& s1.at <= s.at || s1.at <= c.total()
            &&& 0 <= s1.from
            &&& 0 <= s1.at
        },
{
    reveal(search::judged);
    reveal(search::carried_on);
    reveal(search::disappeared);
    if s.tracking {
        if c.frame(s.at) is Some {
            let f = c.frame(s.at)->0;
            if !(s.at > 0 && c.frame(s.at - 1) is None) {
                let before = if s.at > 0 {
                    c.frame(s.at - 1)->0.pos
                } else {
                    -1
                };
                let (im, y, text) = search::intersected(c, s.at, p);
                lemma_judged(s, Now { f, im, y }, text, f.pos != before, c, p);
            }
        }
    }
}

pub proof fn lemma_judged(s: SearchView, now: Now, text: bool, moved: bool, c: CacheView, p: Params)
    requires
        p.wf(),
        s.tracking,
    ensures
        search::judged(s, now, text, moved, c, p) matches Outcome::Going(s1) ==> {
            &&& s1.at == s.at
            &&& s1.tracking ==> s1.from == s.from
            &&& !s1.tracking ==> s1.from == s.at && s.at > s.from
        },
{
    reveal(search::judged);
    reveal(search::carried_on);
    reveal(search::disappeared);
    let s0 = if s.at == s.bf {
        SearchView { cur: now.stored(), ..s }
    } else {
        s
    };
    if s0.at > s0.ef {
        if text && moved {
            if s0.bf != -2 {
                let s1 = search::prev_settled(s0, c, p);
                assert(s1.at == s0.at && s1.from == s0.from && s1.tracking);
            }
        } else if text || moved {
            let s1 = search::reunited(s0, c, p);
            assert(s1.at == s0.at && s1.from == s0.from);
            if s1.bf != -2 {
                let s2 = search::end_found(s1, now, moved, c, p);
                assert(s2.at == s0.at && s2.from == s0.from);
                let s3 = search::end_recorded(s2, c, p);
                assert(s3.at == s0.at && s3.from == s0.from);
            }
        }
    }
}

/// Parameters in range, and frames of the right size, few enough to be counted.
pub open spec fn runnable(s: SearchView, c: CacheView, later: Seq<FrameView>, p: Params) -> bool {
    &&& p.wf()
    &&& c.wf()
    &&& c.total() + later.len() <= 0x7fff_ffff
    &&& forall|k: int| 0 <= k < later.len() ==> (#[trigger] later[k]).sized(c.w, c.h)
    &&& 0 <= s.from <= c.total() + later.len()
    &&& 0 <= s.at <= c.total() + later.len()
}

/// Advancing the window keeps its frames well-formed and loses none.
pub proof fn lemma_advanced(c: CacheView, later: Seq<FrameView>, t: int)
    requires
        c.wf(),
        c.total() + later.len() <= 0x7fff_ffff,
        forall|k: int| 0 <= k < later.len() ==> (#[trigger] later[k]).sized(c.w, c.h),
    ensures
        advanced(c, later, t).wf(),
        advanced(c, later, t).w == c.w,
        advanced(c, later, t).h == c.h,
        advanced(c, later, t).total() + later.skip(taken(c, later, t)).len() == c.total()
            + later.len(),
        forall|k: int|
            0 <= k < later.skip(taken(c, later, t)).len() ==> (#[trigger] later.skip(
                taken(c, later, t),
            )[k]).sized(c.w, c.h),
        advanced(c, later, t).start <= c.start || advanced(c, later, t).start <= t
            - cache::MAX_WINDOW,
{
    let n = taken(c, later, t);
    let full = CacheView { frames: c.frames + later.take(n), ..c };
    assert forall|k: int| 0 <= k < full.frames.len() implies (#[trigger] full.frames[k]).sized(
        c.w,
        c.h,
    ) by {
        if k < c.frames.len() {
            assert(full.frames[k] == c.frames[k]);
        } else {
            assert(full.frames[k] == later[k - c.frames.len()]);
        }
    }
    let d = cache::dropped(full, t);
    let a = cache::trimmed(full, t);
    assert forall|k: int| 0 <= k < a.frames.len() implies (#[trigger] a.frames[k]).sized(
        c.w,
        c.h,
    ) by {
        assert(a.frames[k] == full.frames[k + d]);
    }
    assert forall|k: int| 0 <= k < later.skip(n).len() implies (#[trigger] later.skip(n)[k]).sized(
        c.w,
        c.h,
    ) by {
        assert(later.skip(n)[k] == later[k + n]);
    }
}

/// The subtitles that the search records, from state `s` on, when the frames
/// `later` come after those of the window. `None` if a frame is lost.
pub open spec fn recorded_from(
    s: SearchView,
    c: CacheView,
    later: Seq<FrameView>,
    p: Params,
) -> Option<Seq<KeyframeView>>
    decreases
            c.total() + later.len() + 1 - s.from,
            (if s.tracking {
                c.total() + later.len() + 1 - s.at
            } else {
                c.total() + later.len() + 2
            }),
    when runnable(s, c, later, p)
{
    proof {
        lemma_advanced(c, later, target(s));
        steps_bring_forward(s, advanced(c, later, target(s)), p);
    }
    let c1 = advanced(c, later, target(s));
    let later1 = later.skip(taken(c, later, target(s)));
    match search::stepped(s, c1, p) {
        Outcome::Lost => None,
        Outcome::Ended(s1) => Some(s1.keyframes),
        Outcome::Going(s1) => recorded_from(s1, c1, later1, p),
    }
}

/// The views of frames.
pub open spec fn frame_views(frames: Seq<FrameData>) -> Seq<FrameView> {
    Seq::new(frames.len(), |k: int| frames[k]@)
}

/// The subtitles that the search records in a video.
pub open spec fn all_recorded(frames: Seq<FrameView>, w: int, h: int, p: Params) -> Option<
    Seq<KeyframeView>,
> {
    recorded_from(
        state::at_start(w, h),
        CacheView { w, h, start: 0, frames: Seq::empty() },
        frames,
        p,
    )
}

/// Whether the window reaches back to the frame before the current one.
pub open spec fn reaches_back(s: SearchView, c: CacheView) -> bool {
    c.start == 0 || c.start <= if s.tracking {
        s.at - 2
    } else {
        s.from - 2
    }
}

/// The search over a whole video never loses a frame: the window always
/// reaches back far enough.
pub proof fn no_frame_is_lost(s: SearchView, c: CacheView, later: Seq<FrameView>, p: Params)
    requires
        runnable(s, c, later, p),
        reaches_back(s, c),
    ensures
        recorded_from(s, c, later, p) is Some,
    decreases
            c.total() + later.len() + 1 - s.from,
            (if s.tracking {
                c.total() + later.len() + 1 - s.at
            } else {
                c.total() + later.len() + 2
            }),
{
    let t = target(s);
    lemma_advanced(c, later, t);
    let c1 = advanced(c, later, t);
    let later1 = later.skip(taken(c, later, t));
    steps_bring_forward(s, c1, p);
    assert(reaches_back(s, c1));
    lemma_not_lost(s, c1, p);
    if let Outcome::Going(s1) = search::stepped(s, c1, p) {
        assert(reaches_back(s1, c1));
        no_frame_is_lost(s1, c1, later1, p);
    }
}

proof fn lemma_not_lost(s: SearchView, c: CacheView, p: Params)
    requires
        p.wf(),
        c.wf(),
        0 <= s.at,
        0 <= s.from,
        reaches_back(s, c),
    ensures
        !(search::stepped(s, c, p) is Lost),
{
    reveal(search::judged);
    reveal(search::carried_on);
}

/// Runs the search over all frames of a video.
pub fn run_state_machine(frames: VecDeque<FrameData>, w: usize, h: usize, p: &Params) -> (r: Result<
    Vec<Keyframe>,
    FrameLost,
>)
    requires
        p.wf(),
        grid::frame_size(w as int, h as int),
        w <= 0x2aaa_aaaa,
        w * h <= 0x2aaa_aaaa,
        frames@.len() <= 0x7fff_ffff,
        forall|k: int| 0 <= k < frames@.len() ==> (#[trigger] frames@[k])@.sized(
            w as int,
            h as int,
        ),
    ensures
        r matches Ok(ks) && Some(state::keyframe_views(ks@)) == all_recorded(
            frame_views(frames@),
            w as int,
            h as int,
            *p,
        ),
        r matches Ok(ks) && forall|i: int|
            0 <= i < ks@.len() ==> {
                &&& (#[trigger] ks@[i]).frame.rows() == h
                &&& ks@[i].frame.cols() == w
                &&& ks@[i].mask.rows() == h
                &&& ks@[i].mask.cols() == w
            },
{
    let ghost wi = w as int;
    let ghost hi = h as int;
    let mut later: VecDeque<FrameData> = frames;
    let mut cache: FrameCache = FrameCache::sized(p, w, h);
    let mut s: Search = Search::new(w, h);
    let ghost all = frame_views(frames@);
    let ghost goal = all_recorded(all, wi, hi, *p);
    proof {
        assert forall|k: int| 0 <= k < all.len() implies (#[trigger] all[k]).sized(wi, hi) by {
            assert(frames@[k]@.sized(wi, hi));
        }
        no_frame_is_lost(s@, cache@, all, *p);
        laws::records_show_text(all, wi, hi, *p);
    }
    loop
        invariant
            p.wf(),
            grid::frame_size(wi, hi),
            wi == w,
            hi == h,
            w <= 0x2aaa_aaaa,
            w * h <= 0x2aaa_aaaa,
            cache.inv(),
            cache.settings() == *p,
            cache@.w == w,
            cache@.h == h,
            state::search_inv(s@, wi, hi),
            runnable(s@, cache@, frame_views(later@), *p),
            all == frame_views(frames@),
            goal == all_recorded(all, wi, hi, *p),
            goal matches Some(ks) && laws::all_sized(ks, wi, hi),
            goal == recorded_from(s@, cache@, frame_views(later@), *p),
        decreases
                cache@.total() + later@.len() + 1 - s@.from,
                (if s@.tracking {
                    cache@.total() + later@.len() + 1 - s@.at
                } else {
                    cache@.total() + later@.len() + 2
                }),
    {
        let t: i64 = s.target();
        let ghost c0 = cache@;
        let ghost l0 = frame_views(later@);
        let ghost n = taken(c0, l0, t as int);
        let ghost mut k: int = 0;
        proof {
            lemma_advanced(c0, l0, t as int);
            steps_bring_forward(s@, advanced(c0, l0, t as int), *p);
            assert(c0.frames + l0.take(0) =~= c0.frames);
            assert(l0.skip(0) =~= l0);
        }
        while later.len() > 0 && cache.wants(t)
            invariant
                cache.inv(),
                cache.settings() == *p,
                c0.w == w,
                c0.h == h,
                c0.total() + l0.len() <= 0x7fff_ffff,
                forall|k: int| 0 <= k < l0.len() ==> (#[trigger] l0[k]).sized(w as int, h as int),
                n == taken(c0, l0, t as int),
                0 <= k <= n,
                cache@ == (CacheView { frames: c0.frames + l0.take(k), ..c0 }),
                frame_views(later@) == l0.skip(k),
            decreases later@.len(),
        {
            let ghost before = later@;
            match later.pop_front() {
                Some(f) => {
                    proof {
                        assert(frame_views(before).len() == l0.len() - k);
                        assert(f@ == frame_views(before)[0]);
                        assert(l0.skip(k)[0] == l0[k]);
                        assert forall|j: int| 0 <= j < later@.len() implies frame_views(later@)[j]
                            == l0.skip(k + 1)[j] by {
                            assert(later@[j] == before[j + 1]);
                            assert(frame_views(before)[j + 1] == l0.skip(k)[j + 1]);
                        }
                        assert(frame_views(later@) =~= l0.skip(k + 1));
                        assert((c0.frames + l0.take(k)).push(f@) =~= c0.frames + l0.take(k + 1));
                        k = k + 1;
                    }
                    cache.push(f, w, h);
                },
                None => {},
            }
        }
        proof {
            assert(frame_views(later@).len() == l0.len() - k);
            assert(k == n);
        }
        cache.trim(t);
        proof {
            assert(cache@ == advanced(c0, l0, t as int));
            cache.lemma_inv();
        }
        match s.step(&cache) {
            Ok(goes_on) => {
                if !goes_on {
                    let ks: Vec<Keyframe> = s.into_keyframes();
                    proof {
                        let views = state::keyframe_views(ks@);
                        assert forall|i: int| 0 <= i < ks@.len() implies {
                            &&& (#[trigger] ks@[i]).frame.rows() == h
                            &&& ks@[i].frame.cols() == w
                            &&& ks@[i].mask.rows() == h
                            &&& ks@[i].mask.cols() == w
                        } by {
                            assert(laws::pictures_sized(views[i], wi, hi));
                        }
                    }
                    return Ok(ks);
                }
            },
            Err(_) => {
                proof {
                    assert(false);
                }
                return Err(FrameLost);
            },
        }
    }
}

} // verus!
