//! The frames that the search can look at.

use super::params::Params;
use std::collections::VecDeque;
use vstd::prelude::*;
use vstd::std_specs::vecdeque::*;

verus! {

/// How many frames before the one asked for last are kept.
pub const MAX_WINDOW: i64 = 20;

/// How many frames the search looks ahead.
pub const FORWARD: i64 = 18;

/// A frame with what has been found in it.
pub struct FrameData {
    /// The pixels, interleaved as blue, green and red.
    pub bgr: Vec<u8>,
    /// Text areas.
    pub im: Vec<u8>,
    /// Edges.
    pub ne: Vec<u8>,
    /// Brightness plus 255, or zero everywhere in a frame without text.
    pub y: Vec<u16>,
    /// Time in milliseconds.
    pub pos: i64,
    /// Whether text has been found.
    pub has_text: bool,
}

/// What a frame holds.
#[verifier::ext_equal]
pub struct FrameView {
    pub bgr: Seq<u8>,
    pub im: Seq<u8>,
    pub ne: Seq<u8>,
    pub y: Seq<u16>,
    pub pos: int,
    pub has_text: bool,
}

impl View for FrameData {
    type V = FrameView;

    open spec fn view(&self) -> FrameView {
        FrameView {
            bgr: self.bgr@,
            im: self.im@,
            ne: self.ne@,
            y: self.y@,
            pos: self.pos as int,
            has_text: self.has_text,
        }
    }
}

impl FrameView {
    /// Images of `w` by `h` pixels, brightness in the range of a frame, and a
    /// time within half a billion years.
    pub open spec fn sized(self, w: int, h: int) -> bool {
        &&& self.im.len() == w * h
        &&& self.ne.len() == w * h
        &&& self.y.len() == w * h
        &&& self.bgr.len() == w * h * 3
        &&& forall|i: int| 0 <= i < self.y.len() ==> #[trigger] self.y[i] <= 510
        &&& -0x1000_0000_0000_0000 <= self.pos <= 0x1000_0000_0000_0000
    }
}

/// The brightness plane of a frame: the luma plus 255, or zero everywhere when
/// the frame has no text.
pub open spec fn brightness(luma: Seq<u8>, has_text: bool) -> Seq<u16> {
    Seq::new(
        luma.len(),
        |i: int|
            if has_text {
                (luma[i] + 255) as u16
            } else {
                0u16
            },
    )
}

impl FrameData {
    /// A frame from its pixels, its text areas, its edges and its luma.
    pub fn new(
        bgr: Vec<u8>,
        im: Vec<u8>,
        ne: Vec<u8>,
        luma: &[u8],
        pos: i64,
        has_text: bool,
    ) -> (f: FrameData)
        ensures
            f@ == (FrameView {
                bgr: bgr@,
                im: im@,
                ne: ne@,
                y: brightness(luma@, has_text),
                pos: pos as int,
                has_text,
            }),
    {
        let mut y: Vec<u16> = Vec::new();
        let mut i: usize = 0;
        while i < luma.len()
            invariant
                i <= luma@.len(),
                y@.len() == i,
                forall|j: int| 0 <= j < i ==> y@[j] == brightness(luma@, has_text)[j],
            decreases luma@.len() - i,
        {
            if has_text {
                y.push(luma[i] as u16 + 255);
            } else {
                y.push(0);
            }
            i = i + 1;
        }
        assert(y@ =~= brightness(luma@, has_text));
        FrameData { bgr, im, ne, y, pos, has_text }
    }
}

/// A window on the decoded frames of a video.
pub struct FrameCache {
    p: Params,
    w: usize,
    h: usize,
    window: VecDeque<FrameData>,
    window_start: i64,
    decoded_total: i64,
}

/// What a window holds: the size of a frame, the index of the first frame, and
/// the frames from there on.
#[verifier::ext_equal]
pub struct CacheView {
    pub w: int,
    pub h: int,
    pub start: int,
    pub frames: Seq<FrameView>,
}

impl CacheView {
    /// The number of frames decoded so far.
    pub open spec fn total(self) -> int {
        self.start + self.frames.len()
    }

    /// Frame `k`, if the window has it.
    pub open spec fn frame(self, k: int) -> Option<FrameView> {
        if self.start <= k < self.total() {
            Some(self.frames[k - self.start])
        } else {
            None
        }
    }

    pub open spec fn wf(self) -> bool {
        &&& 0 <= self.start
        &&& self.total() <= 0x7fff_ffff
        &&& forall|k: int|
            0 <= k < self.frames.len() ==> (#[trigger] self.frames[k]).sized(self.w, self.h)
        &&& 0 <= self.w
        &&& 0 <= self.h
    }
}

impl View for FrameCache {
    type V = CacheView;

    closed spec fn view(&self) -> CacheView {
        CacheView {
            w: self.w as int,
            h: self.h as int,
            start: self.window_start as int,
            frames: Seq::new(self.window@.len(), |k: int| self.window@[k]@),
        }
    }
}

impl FrameCache {
    /// The window is consistent with its counters.
    pub closed spec fn inv(self) -> bool {
        &&& self@.wf()
        &&& self.decoded_total == self@.total()
    }

    /// A consistent window is well-formed.
    pub proof fn lemma_inv(self)
        requires
            self.inv(),
        ensures
            self@.wf(),
    {
    }

    /// The parameters of the search.
    pub closed spec fn settings(self) -> Params {
        self.p
    }

    /// A window without frames.
    pub fn new(p: &Params) -> (c: FrameCache)
        ensures
            c.inv(),
            c.settings() == *p,
            c@ == (CacheView { w: 0, h: 0, start: 0, frames: Seq::empty() }),
    {
        let c = FrameCache {
            p: *p,
            w: 0,
            h: 0,
            window: VecDeque::new(),
            window_start: 0,
            decoded_total: 0,
        };
        proof {
            assert(c@.frames =~= Seq::empty());
        }
        c
    }

    /// A window without frames, for frames of a given size.
    pub fn sized(p: &Params, w: usize, h: usize) -> (c: FrameCache)
        ensures
            c.inv(),
            c.settings() == *p,
            c@ == (CacheView { w: w as int, h: h as int, start: 0, frames: Seq::empty() }),
    {
        let mut c = FrameCache::new(p);
        c.w = w;
        c.h = h;
        proof {
            assert(c@.frames =~= Seq::empty());
        }
        c
    }

    /// Whether more frames have to be decoded before `target` can be looked at.
    pub fn wants(&self, target: i64) -> (r: bool)
        requires
            self.inv(),
        ensures
            r == (self@.total() <= target),
    {
        self.decoded_total <= target
    }

    /// Adds the next frame. The first frame sets the size.
    pub fn push(&mut self, f: FrameData, w: usize, h: usize)
        requires
            old(self).inv(),
            f@.sized(w as int, h as int),
            old(self)@.total() == 0 || (old(self)@.w == w && old(self)@.h == h),
            old(self)@.total() < 0x7fff_ffff,
        ensures
            final(self).inv(),
            final(self).settings() == old(self).settings(),
            final(self)@ == (CacheView {
                w: w as int,
                h: h as int,
                frames: old(self)@.frames.push(f@),
                ..old(self)@
            }),
    {
        let ghost before = self@.frames;
        let ghost g = f@;
        proof {
            assert(self@.total() == 0 ==> before.len() == 0);
        }
        self.w = w;
        self.h = h;
        self.window.push_back(f);
        self.decoded_total = self.decoded_total + 1;
        proof {
            assert(self@.frames =~= before.push(g));
            assert forall|k: int| 0 <= k < self@.frames.len() implies (
            #[trigger] self@.frames[k]).sized(self@.w, self@.h) by {
                if k < before.len() {
                    assert(self@.frames[k] == before[k]);
                }
            }
        }
    }

    /// Drops the frames that lie too far before `target`.
    pub fn trim(&mut self, target: i64)
        requires
            old(self).inv(),
            target >= i64::MIN + MAX_WINDOW,
        ensures
            final(self).inv(),
            final(self).settings() == old(self).settings(),
            final(self)@ == trimmed(old(self)@, target as int),
    {
        let keep_from: i64 = target - MAX_WINDOW;
        let ghost goal = trimmed(self@, target as int);
        while self.window.len() > 0 && self.window_start < keep_from
            invariant
                self.inv(),
                self.settings() == old(self).settings(),
                keep_from == target - MAX_WINDOW,
                goal == trimmed(self@, target as int),
            decreases self.window@.len(),
        {
            let ghost before = self@;
            self.window.pop_front();
            self.window_start = self.window_start + 1;
            proof {
                assert(self@.frames =~= before.frames.drop_first());
                assert forall|k: int| 0 <= k < self@.frames.len() implies (
                #[trigger] self@.frames[k]).sized(self@.w, self@.h) by {
                    assert(self@.frames[k] == before.frames[k + 1]);
                }
                let n0 = dropped(before, target as int);
                let n1 = dropped(self@, target as int);
                assert(n0 == n1 + 1);
                assert(before.frames.skip(n0) =~= self@.frames.skip(n1));
            }
        }
        proof {
            assert(self@.frames.skip(0) =~= self@.frames);
        }
    }

    /// The width of a frame.
    pub fn w(&self) -> (r: usize)
        ensures
            r == self@.w,
    {
        self.w
    }

    /// The height of a frame.
    pub fn h(&self) -> (r: usize)
        ensures
            r == self@.h,
    {
        self.h
    }

    /// The parameters of the search.
    pub fn params(&self) -> (r: &Params)
        ensures
            *r == self.settings(),
    {
        &self.p
    }

    /// The number of frames decoded so far.
    pub fn len(&self) -> (r: usize)
        requires
            self.inv(),
        ensures
            r == self@.total(),
    {
        self.decoded_total as usize
    }

    /// Whether no frame has been decoded.
    pub fn is_empty(&self) -> (r: bool)
        requires
            self.inv(),
        ensures
            r == (self@.total() == 0),
    {
        self.decoded_total == 0
    }

    /// Frame `k`, if the window has it.
    pub fn try_frame(&self, k: i64) -> (r: Option<&FrameData>)
        requires
            self.inv(),
        ensures
            match r {
                Some(f) => self@.frame(k as int) == Some(f@),
                None => self@.frame(k as int) is None,
            },
    {
        if k < self.window_start || k >= self.decoded_total {
            return None;
        }
        let i: usize = (k - self.window_start) as usize;
        Some(&self.window[i])
    }
}

/// How many frames lie too far before `target`.
pub open spec fn dropped(c: CacheView, target: int) -> int {
    let n = target - MAX_WINDOW - c.start;
    if n <= 0 {
        0
    } else if n <= c.frames.len() {
        n
    } else {
        c.frames.len() as int
    }
}

/// The window without the frames that lie too far before `target`.
pub open spec fn trimmed(c: CacheView, target: int) -> CacheView {
    let n = dropped(c, target);
    CacheView { start: c.start + n, frames: c.frames.skip(n), ..c }
}

/// Trimming keeps the number of frames decoded so far, and every frame of the
/// window from twenty before `target` on.
pub proof fn trim_keeps_recent_frames(c: CacheView, target: int, k: int)
    ensures
        trimmed(c, target).total() == c.total(),
        k >= target - MAX_WINDOW ==> trimmed(c, target).frame(k) == c.frame(k),
{
    let n = dropped(c, target);
    if c.start + n <= k < c.total() {
        assert(c.frames.skip(n)[k - c.start - n] == c.frames[k - c.start]);
    }
}

} // verus!
