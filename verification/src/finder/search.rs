//! What the search for subtitles does, step by step.

use super::cache::{CacheView, FrameView};
use super::compare;
use super::compare::Side;
use super::filter;
use super::imgops;
use super::params::Params;
use super::state;
use vstd::prelude::*;

verus! {

/// A subtitle as it has been seen: text areas, brightness, edges and pixels.
#[verifier::ext_equal]
pub struct StoredView {
    pub im: Seq<u8>,
    pub y: Seq<u16>,
    pub ne: Seq<u8>,
    pub bgr: Seq<u8>,
}

impl StoredView {
    pub open spec fn sized(self, w: int, h: int) -> bool {
        &&& self.im.len() == w * h
        &&& self.y.len() == w * h
        &&& self.ne.len() == w * h
        &&& self.bgr.len() == w * h * 3
    }

    /// The subtitle as a side of a comparison.
    pub open spec fn side(self) -> Side {
        Side { im: self.im, ila: Some(self.y), ve: self.ne }
    }

    /// The subtitle as a side of a comparison, with other edges.
    pub open spec fn side_on(self, ne: Seq<u8>) -> Side {
        Side { im: self.im, ila: Some(self.y), ve: ne }
    }
}

/// A recorded subtitle. The sizes of its pictures are numbers of rows and columns.
#[verifier::ext_equal]
pub struct KeyframeView {
    pub start_ms: int,
    pub end_ms: int,
    pub frame: Seq<u8>,
    pub frame_size: (int, int),
    pub mask: Seq<u8>,
    pub mask_size: (int, int),
}

/// The state of the search.
#[verifier::ext_equal]
pub struct SearchView {
    /// The subtitle that is being followed.
    pub cur: StoredView,
    /// The subtitle before it.
    pub prev: StoredView,
    /// The edges of the frame before the current one.
    pub prev_ne: Seq<u8>,
    /// The first frame of the current subtitle, or -2.
    pub bf: int,
    /// The last frame known to belong to the current subtitle.
    pub ef: int,
    /// The first frame of the subtitle before.
    pub pbf: int,
    /// Times of the first and last frame of the current subtitle.
    pub bt: int,
    pub et: int,
    /// Times of the first and last frame of the subtitle before.
    pub pbt: int,
    pub pet: int,
    /// Whether there is a subtitle before that is not yet recorded.
    pub has_prev: bool,
    /// Whether the subtitle before was the same as the current one.
    pub same_prev: bool,
    /// Whether a subtitle is being followed, rather than looked for.
    pub tracking: bool,
    /// The current frame.
    pub at: int,
    /// The frame from which a subtitle is looked for.
    pub from: int,
    /// The recorded subtitles.
    pub keyframes: Seq<KeyframeView>,
}

/// Where the search stands after a step.
pub enum Outcome {
    /// The search goes on.
    Going(SearchView),
    /// The search is over.
    Ended(SearchView),
    /// A frame has left the window too early.
    Lost,
}

/// The frames with text among the `n` frames from `k` on, up to the first that
/// the window does not have.
pub open spec fn ahead(c: CacheView, k: int, n: nat) -> Seq<FrameView>
    decreases n,
{
    if n == 0 {
        Seq::empty()
    } else {
        match c.frame(k) {
            None => Seq::empty(),
            Some(f) => {
                let rest = ahead(c, k + 1, (n - 1) as nat);
                if f.has_text {
                    seq![f] + rest
                } else {
                    rest
                }
            },
        }
    }
}

/// The text areas of frames.
pub open spec fn areas(fs: Seq<FrameView>) -> Seq<Seq<u8>> {
    Seq::new(fs.len(), |i: int| fs[i].im)
}

/// The brightness of frames.
pub open spec fn lights(fs: Seq<FrameView>) -> Seq<Seq<u16>> {
    Seq::new(fs.len(), |i: int| fs[i].y)
}

/// The text areas and the brightness that frame `k` has in common with the
/// frames after it that have text, and whether they hold a line of text.
#[verifier::opaque]
pub open spec fn intersected(c: CacheView, k: int, p: Params) -> (Seq<u8>, Seq<u16>, bool) {
    let fs = ahead(c, k, p.dl as nat);
    if fs.len() == 0 {
        (
            Seq::new((c.w * c.h) as nat, |i: int| 0u8),
            Seq::new((c.w * c.h) as nat, |i: int| 0u16),
            false,
        )
    } else {
        let im = state::white_in_all(fs[0].im, areas(fs.skip(1)));
        let y = state::steady_in_all(fs[0].y, lights(fs.skip(1)), p);
        (im, y, state::flat_text(im, Some(y), c.w, c.h, p))
    }
}

/// Whether the window has all frames from `a` up to `b`.
pub open spec fn present(c: CacheView, a: int, b: int) -> bool {
    a > b || (c.start <= a && b < c.total())
}

/// The frames from `a` up to `b`.
pub open spec fn stretch(c: CacheView, a: int, b: int) -> Seq<FrameView> {
    if a > b {
        Seq::empty()
    } else {
        c.frames.subrange(a - c.start, b + 1 - c.start)
    }
}

/// Whether frame `k + offset` still shows subtitle `cur`, alone or together
/// with the frames after it. `None` when a frame is missing that is needed.
pub open spec fn same_at(
    c: CacheView,
    k: int,
    cur: StoredView,
    prev_ne: Seq<u8>,
    offset: int,
    p: Params,
) -> Option<bool> {
    let before = if offset == 0 {
        Some(prev_ne)
    } else {
        match c.frame(k + offset - 1) {
            Some(f) => Some(f.ne),
            None => None,
        }
    };
    match (before, c.frame(k + offset)) {
        (Some(also), Some(f)) => {
            if compare::same_subs_optimal(
                cur.side(),
                Some(also),
                Side { im: f.im, ila: None, ve: f.ne },
                c.w,
                c.h,
                p,
            ) {
                Some(true)
            } else if !present(c, k + offset + 1, k + p.dl - 2) {
                None
            } else {
                let fs = stretch(c, k + offset + 1, k + p.dl - 2);
                Some(
                    compare::same_subs_optimal(
                        cur.side(),
                        Some(also),
                        Side {
                            im: state::white_in_all(f.im, areas(fs)),
                            ila: Some(state::steady_in_all(f.y, lights(fs), p)),
                            ve: f.ne,
                        },
                        c.w,
                        c.h,
                        p,
                    ),
                )
            }
        },
        _ => None,
    }
}

/// The first offset from `offset` on at which another subtitle is shown, and
/// the length of the look-ahead if there is none. `None` when a frame is
/// missing that is needed.
pub open spec fn offset_of_new(
    c: CacheView,
    k: int,
    cur: StoredView,
    prev_ne: Seq<u8>,
    offset: int,
    p: Params,
) -> Option<int>
    decreases p.dl - offset,
{
    if offset >= p.dl - 1 {
        Some(p.dl - 1)
    } else {
        match same_at(c, k, cur, prev_ne, offset, p) {
            None => None,
            Some(false) => Some(offset),
            Some(true) => offset_of_new(c, k, cur, prev_ne, offset + 1, p),
        }
    }
}

/// A record of a subtitle, in pictures of `w` by `h` pixels. Times before zero
/// count as zero.
pub open spec fn record(
    bgr: Seq<u8>,
    mask: Seq<u8>,
    w: int,
    h: int,
    start: int,
    end: int,
) -> KeyframeView {
    KeyframeView {
        start_ms: if start < 0 {
            0
        } else {
            start
        },
        end_ms: if end < 0 {
            0
        } else {
            end
        },
        frame: bgr,
        frame_size: (h, w),
        mask,
        mask_size: (h, w),
    }
}

/// The records with one more, when there is text to record.
pub open spec fn recorded(
    ks: Seq<KeyframeView>,
    bgr: Seq<u8>,
    found: (Seq<u8>, bool),
    start: int,
    end: int,
    c: CacheView,
) -> Seq<KeyframeView> {
    if found.1 {
        ks.push(record(bgr, found.0, c.w, c.h, start, end))
    } else {
        ks
    }
}

/// What is left of a stored subtitle after filtering, and whether it has text.
pub open spec fn final_text(s: StoredView, c: CacheView, p: Params) -> (Seq<u8>, bool) {
    filter::presence(s.ne, s.im, s.y, c.w, c.h, p)
}

/// The subtitle before recorded, if it has text.
pub open spec fn prev_recorded(
    s: SearchView,
    start: int,
    end: int,
    c: CacheView,
    p: Params,
) -> SearchView {
    let found = final_text(s.prev, c, p);
    SearchView {
        prev: StoredView { im: found.0, ..s.prev },
        keyframes: recorded(s.keyframes, s.prev.bgr, found, start, end, c),
        ..s
    }
}

/// The current subtitle recorded, if it has text.
pub open spec fn cur_recorded(s: SearchView, c: CacheView, p: Params) -> SearchView {
    let found = final_text(s.cur, c, p);
    SearchView {
        cur: StoredView { im: found.0, ..s.cur },
        keyframes: recorded(s.keyframes, s.cur.bgr, found, s.bt, s.et, c),
        ..s
    }
}

/// The search over: a subtitle before that is not yet recorded is recorded.
pub open spec fn flushed(s: SearchView, c: CacheView, p: Params) -> SearchView {
    if s.has_prev {
        prev_recorded(s, s.pbt, s.pet, c, p)
    } else {
        s
    }
}

/// The frames at an end: the current subtitle, if there is one and it lasts
/// long enough, is recorded up to the last frame.
pub open spec fn run_out(s: SearchView, c: CacheView, p: Params) -> SearchView {
    if s.bf == -2 {
        s
    } else {
        let last = if c.total() == 0 {
            0
        } else {
            c.total() - 1
        };
        let et = match c.frame(last) {
            Some(f) => f.pos,
            None => s.et,
        };
        SearchView {
            et,
            bf: -2,
            keyframes: if last - s.bf + 1 >= p.dl {
                recorded(s.keyframes, s.cur.bgr, final_text(s.cur, c, p), s.bt, et, c)
            } else {
                s.keyframes
            },
            ..s
        }
    }
}

/// The text areas and the brightness narrowed by those of the frames from `a`
/// up to `b`.
pub open spec fn narrowed(
    im: Seq<u8>,
    y: Seq<u16>,
    c: CacheView,
    a: int,
    b: int,
    p: Params,
) -> (Seq<u8>, Seq<u16>)
    decreases b + 1 - a,
{
    if a > b {
        (im, y)
    } else {
        let f = c.frames[a - c.start];
        narrowed(
            imgops::masked(im, f.im, 0u8),
            imgops::steady_in(y, f.y, p.max_dl_down as int, p.max_dl_up as int),
            c,
            a + 1,
            b,
            p,
        )
    }
}

/// Looking further for a subtitle, half a look-ahead later.
pub open spec fn look_later(s: SearchView, c: CacheView, p: Params) -> Outcome {
    let from = s.from + p.dl / 2;
    let s1 = SearchView { from, ..s };
    if from >= c.total() {
        Outcome::Ended(flushed(s1, c, p))
    } else {
        Outcome::Going(s1)
    }
}

/// Whether a subtitle begins: two frames half a look-ahead apart have text in
/// common, and the frames between them have it too.
pub open spec fn begins(f1: FrameView, f2: FrameView, c: CacheView, a: int, b: int, p: Params) -> bool {
    let im = imgops::masked(f1.im, f2.im, 0u8);
    let y = imgops::steady_in(f1.y, f2.y, p.max_dl_down as int, p.max_dl_up as int);
    let all = narrowed(im, y, c, a + 1, b - 1, p);
    &&& f2.has_text
    &&& state::flat_text(im, Some(y), c.w, c.h, p)
    &&& state::flat_text(all.0, Some(all.1), c.w, c.h, p)
}

/// A step of looking for a subtitle.
pub open spec fn detected(s: SearchView, c: CacheView, p: Params) -> Outcome {
    let a = s.from + p.dl / 2 - 1;
    let b = s.from + 2 * (p.dl / 2) - 1;
    match c.frame(a) {
        None => Outcome::Ended(flushed(s, c, p)),
        Some(f1) => if !f1.has_text {
            look_later(s, c, p)
        } else {
            match c.frame(b) {
                None => Outcome::Ended(flushed(s, c, p)),
                Some(f2) => if begins(f1, f2, c, a, b, p) {
                    Outcome::Going(SearchView { tracking: true, at: s.from, ..s })
                } else {
                    look_later(s, c, p)
                },
            }
        },
    }
}

/// The current frame, and what it has in common with those after it.
pub struct Now {
    pub f: FrameView,
    pub im: Seq<u8>,
    pub y: Seq<u16>,
}

impl Now {
    /// The subtitle of the current frame.
    pub open spec fn stored(self) -> StoredView {
        StoredView { im: self.im, y: self.y, ne: self.f.ne, bgr: self.f.bgr }
    }
}

/// The subtitle before settled when the current one has changed: recorded,
/// unless it is the same as the one that has just ended.
pub open spec fn prev_settled(s: SearchView, c: CacheView, p: Params) -> SearchView {
    if s.has_prev {
        let same = compare::same_subs_optimal(
            s.prev.side(),
            Some(s.prev.ne),
            s.cur.side(),
            c.w,
            c.h,
            p,
        );
        if same {
            SearchView { same_prev: true, ..s }
        } else {
            SearchView {
                same_prev: false,
                pbf: s.bf,
                pbt: s.bt,
                ..prev_recorded(s, s.pbt, s.pet, c, p)
            }
        }
    } else {
        SearchView { pbf: s.bf, pbt: s.bt, ..s }
    }
}

/// The brightness of a frame, shifted by 255 once more.
pub open spec fn raised(y: Seq<u16>) -> Seq<u16> {
    Seq::new(y.len(), |i: int| (y[i] + 255) as u16)
}

/// The subtitle from frame `at + offset` on becomes the current one. The one
/// that ended there becomes the subtitle before, when it lasted long enough.
pub open spec fn moved_on(
    s: SearchView,
    now: Now,
    f: FrameView,
    offset: int,
    pet: int,
    p: Params,
) -> SearchView {
    let lasted = s.at + offset - 1 - s.pbf + 1 >= p.dl;
    SearchView {
        prev: if lasted && !(s.has_prev && s.same_prev) {
            s.cur
        } else {
            s.prev
        },
        has_prev: lasted,
        pet,
        bf: s.at + offset,
        ef: s.at + offset,
        bt: now.f.pos + offset * 1000 / 30,
        cur: if offset == 0 {
            StoredView { im: now.im, y: now.y, ne: f.ne, bgr: f.bgr }
        } else {
            StoredView { im: f.im, y: raised(f.y), ne: f.ne, bgr: f.bgr }
        },
        ..s
    }
}

/// The subtitle has changed at the current frame, or a few frames later.
pub open spec fn changed(s: SearchView, now: Now, c: CacheView, p: Params) -> Outcome {
    let s1 = prev_settled(s, c, p);
    if s.at > s.bf + 1 {
        match offset_of_new(c, s.at, s.cur, s.prev_ne, 0, p) {
            None => Outcome::Ended(s1),
            Some(offset) => match c.frame(s.at + offset) {
                None => Outcome::Ended(s1),
                Some(f) => Outcome::Going(moved_on(s1, now, f, offset, f.pos - 1, p)),
            },
        }
    } else {
        Outcome::Going(moved_on(s1, now, now.f, 0, now.f.pos - 1, p))
    }
}

/// The current frame goes on with a subtitle, or starts one.
#[verifier::opaque]
pub open spec fn carried_on(s: SearchView, now: Now, c: CacheView, p: Params) -> Outcome {
    if s.bf == -2 {
        Outcome::Going(
            SearchView { bf: s.at, ef: s.at, bt: now.f.pos, cur: now.stored(), ..s },
        )
    } else if compare::same_subs_optimal(
        s.cur.side(),
        Some(s.prev_ne),
        now.stored().side(),
        c.w,
        c.h,
        p,
    ) {
        let cur = if s.at - s.bf + 1 == 3 {
            now.stored()
        } else {
            s.cur
        };
        Outcome::Going(
            SearchView {
                cur: StoredView {
                    y: imgops::steady_in(
                        cur.y,
                        now.f.y,
                        p.max_dl_down as int,
                        p.max_dl_up as int,
                    ),
                    ..cur
                },
                ..s
            },
        )
    } else {
        changed(s, now, c, p)
    }
}

/// Whether the current subtitle can still be seen on edges `ne`.
pub open spec fn seen_on(
    cur: StoredView,
    also: Seq<u8>,
    ne: Seq<u8>,
    c: CacheView,
    p: Params,
) -> bool {
    compare::same_subs_optimal(cur.side(), Some(also), cur.side_on(ne), c.w, c.h, p)
        || compare::same_subs_optimal(
        cur.side(),
        Some(also),
        cur.side_on(imgops::masked(ne, cur.ne, 0u8)),
        c.w,
        c.h,
        p,
    )
}

/// The first offset from `offset` on at which the current subtitle cannot be
/// seen any more, or the frame is missing. Zero if it can be seen at all of them.
pub open spec fn fades_at(
    c: CacheView,
    k: int,
    cur: StoredView,
    also: Seq<u8>,
    offset: int,
    p: Params,
) -> int
    decreases p.dl - offset,
{
    if offset >= p.dl - 1 {
        0
    } else {
        match c.frame(k + offset) {
            None => offset,
            Some(f) => if seen_on(cur, also, f.ne, c, p) {
                fades_at(c, k, cur, f.ne, offset + 1, p)
            } else {
                offset
            },
        }
    }
}

/// Whether the subtitle before has the same edges as the current one.
pub open spec fn edges_match(s: SearchView, c: CacheView, p: Params) -> bool {
    let both = imgops::masked(s.prev.ne, s.cur.ne, 0u8);
    ||| compare::same_subs_optimal(
        s.cur.side_on(s.prev.ne),
        Some(s.prev.ne),
        s.cur.side(),
        c.w,
        c.h,
        p,
    )
    ||| compare::same_subs_optimal(
        s.cur.side_on(s.prev.ne),
        Some(s.prev.ne),
        s.cur.side_on(imgops::masked(s.cur.ne, s.prev.ne, 0u8)),
        c.w,
        c.h,
        p,
    )
    ||| compare::same_subs_optimal(s.cur.side_on(both), Some(both), s.cur.side(), c.w, c.h, p)
}

/// The subtitle before joined with the current one when they are the same.
pub open spec fn reunited(s: SearchView, c: CacheView, p: Params) -> SearchView {
    if s.has_prev && compare::same_subs_optimal(
        s.prev.side(),
        Some(s.prev.ne),
        s.cur.side(),
        c.w,
        c.h,
        p,
    ) {
        SearchView { bf: s.pbf, ef: s.pbf, bt: s.pbt, has_prev: false, ..s }
    } else {
        s
    }
}

/// The end of the current subtitle found, in frames and in time.
pub open spec fn end_found(
    s: SearchView,
    now: Now,
    moved: bool,
    c: CacheView,
    p: Params,
) -> SearchView {
    if moved {
        let offset = fades_at(c, s.at, s.cur, s.prev_ne, 0, p);
        SearchView {
            ef: s.at + offset - 1,
            et: match c.frame(s.at + offset) {
                Some(f) => f.pos - 1,
                None => now.f.pos,
            },
            ..s
        }
    } else {
        SearchView { ef: s.at - 1, et: now.f.pos, ..s }
    }
}

/// A subtitle whose end is known recorded, with the one before it.
pub open spec fn end_recorded(s: SearchView, c: CacheView, p: Params) -> SearchView {
    let s1 = if s.ef - s.bf + 1 < p.dl && s.has_prev && edges_match(s, c, p) {
        SearchView { bf: s.pbf, bt: s.pbt, ..s }
    } else {
        s
    };
    let s2 = if s1.has_prev && s1.bf != s1.pbf {
        prev_recorded(s1, s1.pbt, s1.pet, c, p)
    } else {
        s1
    };
    if s2.ef - s2.bf + 1 >= p.dl {
        if s2.bf != s2.pbf {
            cur_recorded(s2, c, p)
        } else {
            prev_recorded(s2, s2.bt, s2.et, c, p)
        }
    } else {
        s2
    }
}

/// The current frame shows no subtitle: the one followed so far has ended.
#[verifier::opaque]
pub open spec fn disappeared(
    s: SearchView,
    now: Now,
    moved: bool,
    c: CacheView,
    p: Params,
) -> SearchView {
    let s1 = reunited(s, c, p);
    let s2 = if s1.bf != -2 {
        end_recorded(end_found(s1, now, moved, c, p), c, p)
    } else {
        s1
    };
    let over = s2.at > s2.ef && s2.at - s2.from >= p.dl;
    SearchView {
        has_prev: false,
        bf: -2,
        tracking: !over,
        from: if over {
            s2.at
        } else {
            s2.from
        },
        ..s2
    }
}

/// On to the next frame, while a subtitle is being followed.
pub open spec fn next_frame(s: SearchView, f: FrameView) -> SearchView {
    if s.tracking {
        SearchView { prev_ne: f.ne, at: s.at + 1, ..s }
    } else {
        s
    }
}

/// What the current frame says of the subtitle.
#[verifier::opaque]
pub open spec fn judged(
    s: SearchView,
    now: Now,
    text: bool,
    moved: bool,
    c: CacheView,
    p: Params,
) -> Outcome {
    let s1 = if s.at == s.bf {
        SearchView { cur: now.stored(), ..s }
    } else {
        s
    };
    if s1.at <= s1.ef {
        Outcome::Going(s1)
    } else if text && moved {
        carried_on(s1, now, c, p)
    } else if text || moved {
        Outcome::Going(disappeared(s1, now, moved, c, p))
    } else {
        Outcome::Going(s1)
    }
}

/// A step of following a subtitle.
pub open spec fn followed(s: SearchView, c: CacheView, p: Params) -> Outcome {
    match c.frame(s.at) {
        None => Outcome::Ended(flushed(run_out(s, c, p), c, p)),
        Some(f) => {
            if s.at > 0 && c.frame(s.at - 1) is None {
                Outcome::Lost
            } else {
                let before = if s.at > 0 {
                    c.frame(s.at - 1)->0.pos
                } else {
                    -1
                };
                let (im, y, text) = intersected(c, s.at, p);
                match judged(s, Now { f, im, y }, text, f.pos != before, c, p) {
                    Outcome::Going(s1) => Outcome::Going(next_frame(s1, f)),
                    Outcome::Ended(s1) => Outcome::Ended(flushed(s1, c, p)),
                    Outcome::Lost => Outcome::Lost,
                }
            }
        },
    }
}

/// A step of the search.
pub open spec fn stepped(s: SearchView, c: CacheView, p: Params) -> Outcome {
    if s.tracking {
        followed(s, c, p)
    } else {
        detected(s, c, p)
    }
}

} // verus!
