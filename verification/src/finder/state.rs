//! The search for subtitles along the frames of a video.
//!
//! [`Search`] looks for a subtitle to appear, then follows it from frame to
//! frame until it changes or disappears, and records one keyframe for every
//! subtitle that lasts long enough. It reads frames from a window; between two
//! steps the caller decodes more of them.

use super::cache::{CacheView, FrameCache, FrameData, FrameView, FORWARD};
use super::compare;
use super::compare::compare_two_subs_optimal;
use super::filter::analize_for_sub_presence;
use super::grid;
use super::imgops;
use super::imgops::{copy, intersect_two_images_inplace, intersect_y_images};
use super::params::Params;
use super::plane::{flat_bgr_to_array3, Picture, Plane};
use super::preprocess;
use super::preprocess::analyse_image;
use super::search;
use super::search::{KeyframeView, Now, Outcome, SearchView, StoredView};
use vstd::prelude::*;

verus! {

/// Whether text areas, as far as they have a brightness, hold a line of text.
pub open spec fn flat_text(
    im: Seq<u8>,
    ila: Option<Seq<u16>>,
    w: int,
    h: int,
    p: Params,
) -> bool {
    preprocess::has_text(compare::lit(im, ila), w, h, p)
}

/// Decides whether text areas, as far as they have a brightness, hold a line of text.
pub fn analyse_image_flat(im: &[u8], ila: Option<&[u16]>, w: usize, h: usize, p: &Params) -> (r:
    bool)
    requires
        p.wf(),
        grid::frame_size(w as int, h as int),
        w <= 0x7fff_ffff,
        im@.len() == w * h,
    ensures
        r == flat_text(im@, compare::view16(ila), w as int, h as int, *p),
{
    let mut isa: Vec<u8> = copy(im);
    match ila {
        Some(il) => {
            intersect_two_images_inplace(isa.as_mut_slice(), il, 0u8);
        },
        None => {},
    }
    proof {
        grid::lemma_sides(w as int, h as int);
        assert(h * w == w * h) by (nonlinear_arith);
    }
    match Plane::new(h, w, isa) {
        Some(plane) => analyse_image(&plane, p),
        None => false,
    }
}

/// `im` without the white pixels that are not white in all of `ims`.
pub open spec fn white_in_all(im: Seq<u8>, ims: Seq<Seq<u8>>) -> Seq<u8> {
    Seq::new(
        im.len(),
        |i: int|
            if im[i] == 255 && exists|k: int| 0 <= k < ims.len() && (#[trigger] ims[k])[i] != 255 {
                0u8
            } else {
                im[i]
            },
    )
}

/// `y` without the pixels whose brightness is too far away in one of `ys`.
pub open spec fn steady_in_all(y: Seq<u16>, ys: Seq<Seq<u16>>, p: Params) -> Seq<u16> {
    Seq::new(
        y.len(),
        |i: int|
            if exists|k: int|
                0 <= k < ys.len() && !imgops::steady(
                    y[i],
                    (#[trigger] ys[k])[i],
                    p.max_dl_down as int,
                    p.max_dl_up as int,
                ) {
                0u16
            } else {
                y[i]
            },
    )
}

/// The views of images.
pub open spec fn views<T>(ims: Seq<&[T]>) -> Seq<Seq<T>> {
    Seq::new(ims.len(), |k: int| ims[k]@)
}

/// Blanks the white pixels of `im_res` that are not white in all of
/// `ims[min_id..=max_id]`.
pub fn intersect_images_range(
    im_res: &mut [u8],
    ims: &[&[u8]],
    min_id: usize,
    max_id: usize,
    w: usize,
    h: usize,
)
    requires
        old(im_res)@.len() == w * h,
        min_id <= max_id + 1,
        max_id < ims@.len() || min_id == max_id + 1,
        min_id <= ims@.len(),
        forall|k: int| 0 <= k < ims@.len() ==> (#[trigger] ims@[k])@.len() == w * h,
    ensures
        final(im_res)@ == white_in_all(
            old(im_res)@,
            views(ims@).subrange(
                min_id as int,
                if min_id > max_id {
                    min_id as int
                } else {
                    max_id + 1
                },
            ),
        ),
{
    let ghost before = im_res@;
    let ghost end: int = if min_id > max_id {
        min_id as int
    } else {
        max_id + 1
    };
    let ghost part = views(ims@).subrange(min_id as int, end);
    let ghost goal = white_in_all(before, part);
    let mut i: usize = 0;
    while i < im_res.len()
        invariant
            before.len() == w * h,
            im_res@.len() == before.len(),
            min_id <= end <= ims@.len(),
            end == if min_id > max_id {
                min_id as int
            } else {
                max_id + 1
            },
            forall|k: int| 0 <= k < ims@.len() ==> (#[trigger] ims@[k])@.len() == w * h,
            part == views(ims@).subrange(min_id as int, end),
            goal == white_in_all(before, part),
            i <= before.len(),
            forall|j: int|
                #![trigger im_res@[j]]
                0 <= j < before.len() ==> im_res@[j] == if j < i {
                    goal[j]
                } else {
                    before[j]
                },
        decreases before.len() - i,
    {
        if im_res[i] == 255 {
            let mut found: bool = false;
            let mut k: usize = min_id;
            while k <= max_id && !found
                invariant
                    before.len() == w * h,
                    i < before.len(),
                    min_id <= k,
                    k <= max_id + 1 || k == min_id,
                    min_id <= end <= ims@.len(),
                    end == if min_id > max_id {
                        min_id as int
                    } else {
                        max_id + 1
                    },
                    forall|k: int| 0 <= k < ims@.len() ==> (#[trigger] ims@[k])@.len() == w * h,
                    part == views(ims@).subrange(min_id as int, end),
                    found ==> exists|j: int|
                        0 <= j < part.len() && (#[trigger] part[j])[i as int] != 255,
                    !found ==> forall|j: int|
                        0 <= j < k - min_id ==> (#[trigger] part[j])[i as int] == 255,
                decreases max_id + 1 - k, (if found { 0int } else { 1int }),
            {
                proof {
                    assert(part[k - min_id] == ims@[k as int]@);
                }
                if ims[k][i] != 255 {
                    found = true;
                } else {
                    k = k + 1;
                }
            }
            if found {
                im_res[i] = 0;
            }
        }
        i = i + 1;
    }
    assert(im_res@ =~= goal);
}

/// Blanks the pixels of `im_res` whose brightness is too far away in one of
/// `ims[min_id..=max_id]`.
pub fn intersect_y_images_range(
    im_res: &mut [u16],
    ims: &[&[u16]],
    min_id: usize,
    max_id: usize,
    p: &Params,
)
    requires
        p.wf(),
        min_id <= max_id + 1,
        max_id < ims@.len() || min_id == max_id + 1,
        min_id <= ims@.len(),
        forall|k: int| 0 <= k < ims@.len() ==> (#[trigger] ims@[k])@.len() == old(im_res)@.len(),
    ensures
        final(im_res)@ == steady_in_all(
            old(im_res)@,
            views(ims@).subrange(
                min_id as int,
                if min_id > max_id {
                    min_id as int
                } else {
                    max_id + 1
                },
            ),
            *p,
        ),
{
    let ghost before = im_res@;
    let ghost down = p.max_dl_down as int;
    let ghost up = p.max_dl_up as int;
    let ghost end: int = if min_id > max_id {
        min_id as int
    } else {
        max_id + 1
    };
    let ghost part = views(ims@).subrange(min_id as int, end);
    let ghost goal = steady_in_all(before, part, *p);
    let mut i: usize = 0;
    while i < im_res.len()
        invariant
            p.wf(),
            down == p.max_dl_down,
            up == p.max_dl_up,
            im_res@.len() == before.len(),
            min_id <= end <= ims@.len(),
            end == if min_id > max_id {
                min_id as int
            } else {
                max_id + 1
            },
            forall|k: int| 0 <= k < ims@.len() ==> (#[trigger] ims@[k])@.len() == before.len(),
            part == views(ims@).subrange(min_id as int, end),
            goal == steady_in_all(before, part, *p),
            i <= before.len(),
            forall|j: int|
                #![trigger im_res@[j]]
                0 <= j < before.len() ==> im_res@[j] == if j < i {
                    goal[j]
                } else {
                    before[j]
                },
        decreases before.len() - i,
    {
        let r: i64 = im_res[i] as i64;
        if r != 0 {
            let mut found: bool = false;
            let mut k: usize = min_id;
            while k <= max_id && !found
                invariant
                    p.wf(),
                    down == p.max_dl_down,
                    up == p.max_dl_up,
                    r == before[i as int],
                    i < before.len(),
                    min_id <= k,
                    k <= max_id + 1 || k == min_id,
                    min_id <= end <= ims@.len(),
                    end == if min_id > max_id {
                        min_id as int
                    } else {
                        max_id + 1
                    },
                    forall|k: int|
                        0 <= k < ims@.len() ==> (#[trigger] ims@[k])@.len() == before.len(),
                    part == views(ims@).subrange(min_id as int, end),
                    found ==> exists|j: int|
                        0 <= j < part.len() && !imgops::steady(
                            before[i as int],
                            (#[trigger] part[j])[i as int],
                            down,
                            up,
                        ),
                    !found ==> forall|j: int|
                        0 <= j < k - min_id ==> imgops::steady(
                            before[i as int],
                            (#[trigger] part[j])[i as int],
                            down,
                            up,
                        ),
                decreases max_id + 1 - k, (if found { 0int } else { 1int }),
            {
                proof {
                    assert(part[k - min_id] == ims@[k as int]@);
                }
                let v: i64 = ims[k][i] as i64;
                if v < r - p.max_dl_down as i64 || v > r + p.max_dl_up as i64 {
                    found = true;
                } else {
                    k = k + 1;
                }
            }
            if found {
                im_res[i] = 0;
            }
        }
        i = i + 1;
    }
    assert(im_res@ =~= goal);
}

/// A window that the search can work on: parameters in range, and frames that
/// can be counted in 31 bits.
pub open spec fn ready(c: FrameCache) -> bool {
    &&& c.inv()
    &&& c@.wf()
    &&& c.settings().wf()
    &&& grid::frame_size(c@.w, c@.h)
    &&& c@.w <= 0x2aaa_aaaa
    &&& c@.w * c@.h <= 0x2aaa_aaaa
}

pub proof fn lemma_ahead(c: CacheView, k: int, n: nat)
    requires
        c.wf(),
    ensures
        forall|i: int|
            0 <= i < search::ahead(c, k, n).len() ==> (#[trigger] search::ahead(c, k, n)[i]).sized(
                c.w,
                c.h,
            ),
    decreases n,
{
    if n > 0 && c.frame(k) is Some {
        lemma_ahead(c, k + 1, (n - 1) as nat);
        let f = c.frame(k)->0;
        assert(f.sized(c.w, c.h));
        let rest = search::ahead(c, k + 1, (n - 1) as nat);
        assert forall|i: int| 0 <= i < search::ahead(c, k, n).len() implies (
        #[trigger] search::ahead(c, k, n)[i]).sized(c.w, c.h) by {
            if f.has_text && i > 0 {
                assert(search::ahead(c, k, n)[i] == rest[i - 1]);
            } else if !f.has_text {
                assert(search::ahead(c, k, n)[i] == rest[i]);
            }
        }
    }
}

/// What frame `k` has in common with the frames after it that have text: text
/// areas, brightness, and whether they hold a line of text. `None` when the
/// window does not have the frame.
pub fn get_intersect_images(cache: &FrameCache, k: i64) -> (r: Option<(Vec<u8>, Vec<u16>, bool)>)
    requires
        ready(*cache),
        0 <= k <= 0x2_0000_0000,
    ensures
        match r {
            None => cache@.frame(k as int) is None,
            Some((im, y, text)) => {
                &&& cache@.frame(k as int) is Some
                &&& (im@, y@, text) == search::intersected(cache@, k as int, cache.settings())
                &&& im@.len() == cache@.w * cache@.h
                &&& y@.len() == cache@.w * cache@.h
            },
        },
{
    proof {
        reveal(search::intersected);
    }
    let p: &Params = cache.params();
    let w: usize = cache.w();
    let h: usize = cache.h();
    let ghost c = cache@;
    let ghost ki = k as int;
    let ghost all = search::ahead(c, ki, p.dl as nat);
    match cache.try_frame(k) {
        None => {
            return None;
        },
        Some(_) => {},
    }
    let mut ims: Vec<&[u8]> = Vec::new();
    let mut ys: Vec<&[u16]> = Vec::new();
    let ghost mut got: Seq<FrameView> = Seq::empty();
    let mut i: usize = 0;
    proof {
        assert(got + all =~= all);
        lemma_ahead(c, ki, p.dl as nat);
    }
    while i < p.dl
        invariant_except_break
            got + search::ahead(c, ki + i, (p.dl - i) as nat) == all,
        invariant
            ready(*cache),
            *p == cache.settings(),
            c == cache@,
            ki == k,
            0 <= k <= 0x2_0000_0000,
            i <= p.dl,
            ims@.len() == got.len(),
            ys@.len() == got.len(),
            forall|j: int| #![trigger ims@[j]] 0 <= j < got.len() ==> ims@[j]@ == got[j].im,
            forall|j: int| #![trigger ys@[j]] 0 <= j < got.len() ==> ys@[j]@ == got[j].y,
            forall|j: int| 0 <= j < got.len() ==> (#[trigger] got[j]).sized(c.w, c.h),
        ensures
            got == all,
        decreases p.dl - i,
    {
        let ghost before = got;
        let ghost n = (p.dl - i) as nat;
        let ghost rest = search::ahead(c, ki + i + 1, (n - 1) as nat);
        match cache.try_frame(k + i as i64) {
            None => {
                proof {
                    assert(got + search::ahead(c, ki + i, n) =~= got);
                }
                break;
            },
            Some(f) => {
                proof {
                    assert(f@.sized(c.w, c.h));
                }
                if f.has_text {
                    ims.push(f.im.as_slice());
                    ys.push(f.y.as_slice());
                    proof {
                        got = got.push(f@);
                        assert(before + (seq![f@] + rest) =~= got + rest);
                    }
                }
            },
        }
        i = i + 1;
        proof {
            if i == p.dl {
                assert(got + search::ahead(c, ki + i, 0) =~= got);
            }
        }
    }
    if ims.len() == 0 {
        let size: usize = w * h;
        let im: Vec<u8> = vec![0u8; size];
        let y: Vec<u16> = vec![0u16; size];
        proof {
            assert(im@ =~= Seq::new((c.w * c.h) as nat, |i: int| 0u8));
            assert(y@ =~= Seq::new((c.w * c.h) as nat, |i: int| 0u16));
        }
        return Some((im, y, false));
    }
    let n: usize = ims.len();
    proof {
        assert(views(ims@) =~= search::areas(got));
        assert(views(ys@) =~= search::lights(got));
        assert forall|j: int| 0 <= j < ims@.len() implies (#[trigger] ims@[j])@.len() == w * h by {
            assert(views(ims@)[j] == got[j].im);
        }
        assert forall|j: int| 0 <= j < ys@.len() implies (#[trigger] ys@[j])@.len() == w * h by {
            assert(views(ys@)[j] == got[j].y);
        }
        assert(views(ims@)[0] == got[0].im);
        assert(views(ys@)[0] == got[0].y);
        assert(views(ims@).subrange(1, n as int) =~= search::areas(got.skip(1)));
        assert(views(ys@).subrange(1, n as int) =~= search::lights(got.skip(1)));
    }
    let mut im: Vec<u8> = copy(ims[0]);
    intersect_images_range(im.as_mut_slice(), ims.as_slice(), 1, n - 1, w, h);
    let mut y: Vec<u16> = copy(ys[0]);
    intersect_y_images_range(y.as_mut_slice(), ys.as_slice(), 1, n - 1, p);
    let text: bool = analyse_image_flat(im.as_slice(), Some(y.as_slice()), w, h, p);
    Some((im, y, text))
}

/// A subtitle as it has been seen: text areas, brightness, edges and pixels.
pub struct Stored {
    pub im: Vec<u8>,
    pub y: Vec<u16>,
    pub ne: Vec<u8>,
    pub bgr: Vec<u8>,
}

impl View for Stored {
    type V = StoredView;

    open spec fn view(&self) -> StoredView {
        StoredView { im: self.im@, y: self.y@, ne: self.ne@, bgr: self.bgr@ }
    }
}

impl Stored {
    /// A copy.
    fn duplicate(&self) -> (r: Stored)
        ensures
            r@ == self@,
    {
        Stored {
            im: copy(self.im.as_slice()),
            y: copy(self.y.as_slice()),
            ne: copy(self.ne.as_slice()),
            bgr: copy(self.bgr.as_slice()),
        }
    }
}

/// Decides whether two sides of a comparison show the same subtitle, the first
/// with its brightness.
fn same_text(
    im1: &[u8],
    y1: &[u16],
    ne1: &[u8],
    also: &[u8],
    im2: &[u8],
    y2: Option<&[u16]>,
    ne2: &[u8],
    cache: &FrameCache,
) -> (r: bool)
    requires
        ready(*cache),
        im1@.len() == cache@.w * cache@.h,
        ne1@.len() == cache@.w * cache@.h,
        also@.len() == cache@.w * cache@.h,
        im2@.len() == cache@.w * cache@.h,
        ne2@.len() == cache@.w * cache@.h,
    ensures
        r == compare::same_subs_optimal(
            (compare::Side { im: im1@, ila: Some(y1@), ve: ne1@ }),
            Some(also@),
            (compare::Side { im: im2@, ila: compare::view16(y2), ve: ne2@ }),
            cache@.w,
            cache@.h,
            cache.settings(),
        ),
{
    let w: usize = cache.w();
    let h: usize = cache.h();
    compare_two_subs_optimal(
        im1,
        Some(y1),
        ne1,
        Some(also),
        im2,
        y2,
        ne2,
        w,
        h,
        0,
        (w - 1) as i32,
        cache.params(),
    )
}

/// Decides whether frame `k + offset` still shows a subtitle, alone or together
/// with the frames after it. `None` when a frame is missing that is needed.
pub fn compare_by_offset(
    cache: &FrameCache,
    k: i64,
    cur: &Stored,
    prev_ne: &[u8],
    offset: usize,
) -> (r: Option<bool>)
    requires
        ready(*cache),
        0 <= k <= 0x2_0000_0000,
        offset < cache.settings().dl,
        cur@.sized(cache@.w, cache@.h),
        prev_ne@.len() == cache@.w * cache@.h,
    ensures
        r == search::same_at(
            cache@,
            k as int,
            cur@,
            prev_ne@,
            offset as int,
            cache.settings(),
        ),
{
    let p: &Params = cache.params();
    let w: usize = cache.w();
    let h: usize = cache.h();
    let ghost c = cache@;
    let at: i64 = k + offset as i64;
    let also: &[u8] = if offset == 0 {
        prev_ne
    } else {
        match cache.try_frame(at - 1) {
            None => {
                return None;
            },
            Some(f) => {
                proof {
                    assert(f@.sized(c.w, c.h));
                }
                f.ne.as_slice()
            },
        }
    };
    let f: &FrameData = match cache.try_frame(at) {
        None => {
            return None;
        },
        Some(f) => f,
    };
    proof {
        assert(f@.sized(c.w, c.h));
    }
    if same_text(
        cur.im.as_slice(),
        cur.y.as_slice(),
        cur.ne.as_slice(),
        also,
        f.im.as_slice(),
        None,
        f.ne.as_slice(),
        cache,
    ) {
        return Some(true);
    }
    let ghost a = k + offset + 1;
    let ghost b = k + p.dl - 2;
    let ghost fs = search::stretch(c, a, b);
    let ghost goal = search::same_at(c, k as int, cur@, prev_ne@, offset as int, *p);
    let mut ims: Vec<&[u8]> = Vec::new();
    let mut ys: Vec<&[u16]> = Vec::new();
    let mut i: usize = offset + 1;
    while i + 1 < p.dl
        invariant
            ready(*cache),
            *p == cache.settings(),
            c == cache@,
            0 <= k <= 0x2_0000_0000,
            offset < p.dl,
            a == k + offset + 1,
            b == k + p.dl - 2,
            fs == search::stretch(c, a, b),
            goal == search::same_at(
                cache@,
                k as int,
                cur@,
                prev_ne@,
                offset as int,
                cache.settings(),
            ),
            !search::present(c, a, b) ==> goal is None,
            offset + 1 <= i,
            i + 1 <= p.dl || i == offset + 1,
            i > offset + 1 ==> c.start <= a && k + i - 1 < c.total(),
            ims@.len() == i - offset - 1,
            ys@.len() == i - offset - 1,
            forall|j: int|
                #![trigger ims@[j]]
                0 <= j < ims@.len() ==> ims@[j]@ == c.frames[a + j - c.start].im,
            forall|j: int|
                #![trigger ys@[j]]
                0 <= j < ys@.len() ==> ys@[j]@ == c.frames[a + j - c.start].y,
        decreases p.dl - i,
    {
        match cache.try_frame(k + i as i64) {
            None => {
                proof {
                    assert(!search::present(c, a, b));
                }
                return None;
            },
            Some(g) => {
                ims.push(g.im.as_slice());
                ys.push(g.y.as_slice());
            },
        }
        i = i + 1;
    }
    proof {
        assert(search::present(c, a, b));
        assert forall|j: int| 0 <= j < ims@.len() implies (#[trigger] ims@[j])@.len() == w * h by {
            assert(c.frames[a + j - c.start].sized(c.w, c.h));
        }
        assert forall|j: int| 0 <= j < ys@.len() implies (#[trigger] ys@[j])@.len() == w * h by {
            assert(c.frames[a + j - c.start].sized(c.w, c.h));
        }
        assert(views(ims@) =~= search::areas(fs));
        assert(views(ys@) =~= search::lights(fs));
        assert(views(ims@).subrange(0, ims@.len() as int) =~= views(ims@));
        assert(views(ys@).subrange(0, ys@.len() as int) =~= views(ys@));
    }
    let mut im2: Vec<u8> = copy(f.im.as_slice());
    let mut y2: Vec<u16> = copy(f.y.as_slice());
    let n: usize = ims.len();
    if n > 0 {
        intersect_images_range(im2.as_mut_slice(), ims.as_slice(), 0, n - 1, w, h);
        intersect_y_images_range(y2.as_mut_slice(), ys.as_slice(), 0, n - 1, p);
    } else {
        proof {
            assert(im2@ =~= white_in_all(f.im@, search::areas(fs)));
            assert(y2@ =~= steady_in_all(f.y@, search::lights(fs), *p));
        }
    }
    Some(
        same_text(
            cur.im.as_slice(),
            cur.y.as_slice(),
            cur.ne.as_slice(),
            also,
            im2.as_slice(),
            Some(y2.as_slice()),
            f.ne.as_slice(),
            cache,
        ),
    )
}

/// Finds the first offset at which another subtitle is shown, and the length of
/// the look-ahead if there is none. `None` when a frame is missing that is
/// needed.
pub fn find_offset_for_new_sub(cache: &FrameCache, k: i64, cur: &Stored, prev_ne: &[u8]) -> (r: Option<
    usize,
>)
    requires
        ready(*cache),
        0 <= k <= 0x2_0000_0000,
        cur@.sized(cache@.w, cache@.h),
        prev_ne@.len() == cache@.w * cache@.h,
    ensures
        match r {
            Some(o) => search::offset_of_new(
                cache@,
                k as int,
                cur@,
                prev_ne@,
                0,
                cache.settings(),
            ) == Some(o as int) && o < cache.settings().dl,
            None => search::offset_of_new(
                cache@,
                k as int,
                cur@,
                prev_ne@,
                0,
                cache.settings(),
            ) is None,
        },
{
    let p: &Params = cache.params();
    let ghost c = cache@;
    let ghost goal = search::offset_of_new(c, k as int, cur@, prev_ne@, 0, *p);
    let mut offset: usize = 0;
    while offset < p.dl - 1
        invariant
            ready(*cache),
            *p == cache.settings(),
            c == cache@,
            0 <= k <= 0x2_0000_0000,
            cur@.sized(c.w, c.h),
            prev_ne@.len() == c.w * c.h,
            offset <= p.dl - 1,
            goal == search::offset_of_new(cache@, k as int, cur@, prev_ne@, 0, cache.settings()),
            goal == search::offset_of_new(c, k as int, cur@, prev_ne@, offset as int, *p),
        decreases p.dl - offset,
    {
        match compare_by_offset(cache, k, cur, prev_ne, offset) {
            None => {
                return None;
            },
            Some(same) => {
                if !same {
                    return Some(offset);
                }
            },
        }
        offset = offset + 1;
    }
    Some(p.dl - 1)
}

/// A subtitle: one frame that shows it, its text areas, and the time from its
/// first to its last frame in milliseconds.
pub struct Keyframe {
    pub start_ms: u64,
    pub end_ms: u64,
    pub frame: Picture,
    pub mask: Plane,
}

impl View for Keyframe {
    type V = KeyframeView;

    open spec fn view(&self) -> KeyframeView {
        KeyframeView {
            start_ms: self.start_ms as int,
            end_ms: self.end_ms as int,
            frame: self.frame@,
            frame_size: (self.frame.rows() as int, self.frame.cols() as int),
            mask: self.mask@,
            mask_size: (self.mask.rows() as int, self.mask.cols() as int),
        }
    }
}

/// The views of keyframes.
pub open spec fn keyframe_views(ks: Seq<Keyframe>) -> Seq<KeyframeView> {
    Seq::new(ks.len(), |i: int| ks[i]@)
}

/// Adds a keyframe.
fn save_keyframe(
    keyframes: &mut Vec<Keyframe>,
    bgr: &Vec<u8>,
    mask: &Vec<u8>,
    start: i64,
    end: i64,
    cache: &FrameCache,
)
    requires
        ready(*cache),
        bgr@.len() == cache@.w * cache@.h * 3,
        mask@.len() == cache@.w * cache@.h,
    ensures
        keyframe_views(final(keyframes)@) == keyframe_views(old(keyframes)@).push(
            search::record(bgr@, mask@, cache@.w, cache@.h, start as int, end as int),
        ),
{
    let w: usize = cache.w();
    let h: usize = cache.h();
    let ghost before = keyframes@;
    proof {
        grid::lemma_sides(w as int, h as int);
        assert(h * w == w * h) by (nonlinear_arith);
        assert(bgr@.take(w * h * 3) =~= bgr@);
    }
    let frame: Picture = flat_bgr_to_array3(bgr.as_slice(), w, h);
    let start_ms: u64 = if start < 0 {
        0
    } else {
        start as u64
    };
    let end_ms: u64 = if end < 0 {
        0
    } else {
        end as u64
    };
    match Plane::new(h, w, copy(mask.as_slice())) {
        Some(mask_plane) => {
            let k = Keyframe { start_ms, end_ms, frame, mask: mask_plane };
            let ghost kv = k@;
            keyframes.push(k);
            proof {
                assert(kv == search::record(
                    bgr@,
                    mask@,
                    w as int,
                    h as int,
                    start as int,
                    end as int,
                ));
                assert(keyframe_views(keyframes@) =~= keyframe_views(before).push(kv));
            }
        },
        None => {},
    }
}

/// The search could not go on, because a frame had left the window too early.
#[derive(Clone, Copy, Debug, PartialEq, Eq, Structural)]
pub struct FrameLost;

/// The search for subtitles.
pub struct Search {
    cur: Stored,
    prev: Stored,
    prev_ne: Vec<u8>,
    bf: i64,
    ef: i64,
    pbf: i64,
    bt: i64,
    et: i64,
    pbt: i64,
    pet: i64,
    has_prev: bool,
    same_prev: bool,
    tracking: bool,
    at: i64,
    from: i64,
    keyframes: Vec<Keyframe>,
}

impl View for Search {
    type V = SearchView;

    closed spec fn view(&self) -> SearchView {
        SearchView {
            cur: self.cur@,
            prev: self.prev@,
            prev_ne: self.prev_ne@,
            bf: self.bf as int,
            ef: self.ef as int,
            pbf: self.pbf as int,
            bt: self.bt as int,
            et: self.et as int,
            pbt: self.pbt as int,
            pet: self.pet as int,
            has_prev: self.has_prev,
            same_prev: self.same_prev,
            tracking: self.tracking,
            at: self.at as int,
            from: self.from as int,
            keyframes: keyframe_views(self.keyframes@),
        }
    }
}

/// Images of `w` by `h` pixels, and frames and times in range.
pub open spec fn search_inv(s: SearchView, w: int, h: int) -> bool {
    &&& s.cur.sized(w, h)
    &&& s.prev.sized(w, h)
    &&& s.prev_ne.len() == w * h
    &&& -2 <= s.bf <= 0x1_0000_0000
    &&& -2 <= s.ef <= 0x1_0000_0000
    &&& -2 <= s.pbf <= 0x1_0000_0000
    &&& 0 <= s.at <= 0x1_0000_0000
    &&& 0 <= s.from <= 0x1_0000_0000
}

/// The state at the beginning of the search.
pub open spec fn at_start(w: int, h: int) -> SearchView {
    let none = StoredView {
        im: Seq::new((w * h) as nat, |i: int| 0u8),
        y: Seq::new((w * h) as nat, |i: int| 0u16),
        ne: Seq::new((w * h) as nat, |i: int| 0u8),
        bgr: Seq::new((w * h * 3) as nat, |i: int| 0u8),
    };
    SearchView {
        cur: none,
        prev: none,
        prev_ne: Seq::new((w * h) as nat, |i: int| 0u8),
        bf: -2,
        ef: -2,
        pbf: -2,
        bt: -2,
        et: -2,
        pbt: -2,
        pet: -2,
        has_prev: false,
        same_prev: false,
        tracking: false,
        at: 0,
        from: 0,
        keyframes: Seq::empty(),
    }
}

impl Search {
    /// A search from the first frame on.
    pub fn new(w: usize, h: usize) -> (s: Search)
        requires
            grid::frame_size(w as int, h as int),
            w * h <= 0x2aaa_aaaa,
        ensures
            s@ == at_start(w as int, h as int),
            search_inv(s@, w as int, h as int),
    {
        let size: usize = w * h;
        let s = Search {
            cur: blank(size),
            prev: blank(size),
            prev_ne: vec![0u8; size],
            bf: -2,
            ef: -2,
            pbf: -2,
            bt: -2,
            et: -2,
            pbt: -2,
            pet: -2,
            has_prev: false,
            same_prev: false,
            tracking: false,
            at: 0,
            from: 0,
            keyframes: Vec::new(),
        };
        proof {
            assert(s@.prev_ne =~= Seq::new((w * h) as nat, |i: int| 0u8));
            assert(s@.keyframes =~= Seq::empty());
        }
        s
    }

    /// The frame that has to be decoded before the next step, with those before it.
    pub fn target(&self) -> (t: i64)
        requires
            self@.at <= 0x1_0000_0000,
            self@.from <= 0x1_0000_0000,
        ensures
            t == FORWARD + if self@.tracking {
                self@.at
            } else {
                self@.from
            },
    {
        if self.tracking {
            self.at + FORWARD
        } else {
            self.from + FORWARD
        }
    }

    /// The subtitles found.
    pub fn into_keyframes(self) -> (ks: Vec<Keyframe>)
        ensures
            keyframe_views(ks@) == self@.keyframes,
    {
        self.keyframes
    }

    /// Records the subtitle before, if it has text.
    fn record_prev(&mut self, start: i64, end: i64, cache: &FrameCache)
        requires
            ready(*cache),
            search_inv(old(self)@, cache@.w, cache@.h),
        ensures
            final(self)@ == search::prev_recorded(
                old(self)@,
                start as int,
                end as int,
                cache@,
                cache.settings(),
            ),
            search_inv(final(self)@, cache@.w, cache@.h),
    {
        let w: usize = cache.w();
        let h: usize = cache.h();
        let text: i32 = analize_for_sub_presence(
            self.prev.ne.as_slice(),
            self.prev.im.as_mut_slice(),
            self.prev.y.as_slice(),
            w,
            h,
            cache.params(),
        );
        if text == 1 {
            save_keyframe(
                &mut self.keyframes,
                &self.prev.bgr,
                &self.prev.im,
                start,
                end,
                cache,
            );
        }
    }

    /// Records the current subtitle, if it has text.
    fn record_cur(&mut self, cache: &FrameCache)
        requires
            ready(*cache),
            search_inv(old(self)@, cache@.w, cache@.h),
        ensures
            final(self)@ == search::cur_recorded(old(self)@, cache@, cache.settings()),
            search_inv(final(self)@, cache@.w, cache@.h),
    {
        let w: usize = cache.w();
        let h: usize = cache.h();
        let text: i32 = analize_for_sub_presence(
            self.cur.ne.as_slice(),
            self.cur.im.as_mut_slice(),
            self.cur.y.as_slice(),
            w,
            h,
            cache.params(),
        );
        if text == 1 {
            save_keyframe(
                &mut self.keyframes,
                &self.cur.bgr,
                &self.cur.im,
                self.bt,
                self.et,
                cache,
            );
        }
    }

    /// Records a subtitle before that is not yet recorded.
    fn flush(&mut self, cache: &FrameCache)
        requires
            ready(*cache),
            search_inv(old(self)@, cache@.w, cache@.h),
        ensures
            final(self)@ == search::flushed(old(self)@, cache@, cache.settings()),
            search_inv(final(self)@, cache@.w, cache@.h),
    {
        if self.has_prev {
            let pbt: i64 = self.pbt;
            let pet: i64 = self.pet;
            self.record_prev(pbt, pet, cache);
        }
    }

    /// Records the current subtitle up to the last frame.
    fn run_out(&mut self, cache: &FrameCache)
        requires
            ready(*cache),
            search_inv(old(self)@, cache@.w, cache@.h),
        ensures
            final(self)@ == search::run_out(old(self)@, cache@, cache.settings()),
            search_inv(final(self)@, cache@.w, cache@.h),
    {
        if self.bf == -2 {
            return;
        }
        let w: usize = cache.w();
        let h: usize = cache.h();
        let total: usize = cache.len();
        let last: i64 = if total == 0 {
            0
        } else {
            total as i64 - 1
        };
        match cache.try_frame(last) {
            Some(f) => {
                self.et = f.pos;
            },
            None => {},
        }
        if last - self.bf + 1 >= cache.params().dl as i64 {
            let mut mask: Vec<u8> = copy(self.cur.im.as_slice());
            let text: i32 = analize_for_sub_presence(
                self.cur.ne.as_slice(),
                mask.as_mut_slice(),
                self.cur.y.as_slice(),
                w,
                h,
                cache.params(),
            );
            if text == 1 {
                save_keyframe(
                    &mut self.keyframes,
                    &self.cur.bgr,
                    &mask,
                    self.bt,
                    self.et,
                    cache,
                );
            }
        }
        self.bf = -2;
    }
}

/// A stored subtitle of blank images.
fn blank(size: usize) -> (s: Stored)
    requires
        size <= 0x2aaa_aaaa,
    ensures
        s@.im == Seq::new(size as nat, |i: int| 0u8),
        s@.y == Seq::new(size as nat, |i: int| 0u16),
        s@.ne == Seq::new(size as nat, |i: int| 0u8),
        s@.bgr == Seq::new((size * 3) as nat, |i: int| 0u8),
{
    let s = Stored {
        im: vec![0u8; size],
        y: vec![0u16; size],
        ne: vec![0u8; size],
        bgr: vec![0u8; size * 3],
    };
    proof {
        assert(s.im@ =~= Seq::new(size as nat, |i: int| 0u8));
        assert(s.y@ =~= Seq::new(size as nat, |i: int| 0u16));
        assert(s.ne@ =~= Seq::new(size as nat, |i: int| 0u8));
        assert(s.bgr@ =~= Seq::new((size * 3) as nat, |i: int| 0u8));
    }
    s
}

/// Whether a step went as its outcome says: true while the search goes on.
pub open spec fn went(o: Outcome, goes_on: bool, s: SearchView) -> bool {
    match o {
        Outcome::Going(s1) => goes_on && s == s1,
        Outcome::Ended(s1) => !goes_on && s == s1,
        Outcome::Lost => false,
    }
}

/// Narrows text areas and brightness by those of the frames from `a` up to `b`.
fn narrow(im: &mut Vec<u8>, y: &mut Vec<u16>, cache: &FrameCache, a: i64, b: i64)
    requires
        ready(*cache),
        search::present(cache@, a as int, b as int),
        0 <= a <= b + 1 <= 0x2_0000_0000,
        old(im)@.len() == cache@.w * cache@.h,
        old(y)@.len() == cache@.w * cache@.h,
    ensures
        (final(im)@, final(y)@) == search::narrowed(
            old(im)@,
            old(y)@,
            cache@,
            a as int,
            b as int,
            cache.settings(),
        ),
        final(im)@.len() == old(im)@.len(),
        final(y)@.len() == old(y)@.len(),
{
    let p: &Params = cache.params();
    let ghost c = cache@;
    let ghost goal = search::narrowed(im@, y@, c, a as int, b as int, *p);
    let mut k: i64 = a;
    while k <= b
        invariant
            ready(*cache),
            *p == cache.settings(),
            c == cache@,
            search::present(c, a as int, b as int),
            0 <= a <= k <= b + 1 <= 0x2_0000_0000,
            im@.len() == c.w * c.h,
            y@.len() == c.w * c.h,
            goal == search::narrowed(im@, y@, c, k as int, b as int, *p),
        decreases b + 1 - k,
    {
        match cache.try_frame(k) {
            Some(f) => {
                intersect_two_images_inplace(im.as_mut_slice(), f.im.as_slice(), 0u8);
                intersect_y_images(
                    y.as_mut_slice(),
                    f.y.as_slice(),
                    p.max_dl_down as i32,
                    p.max_dl_up as i32,
                );
            },
            None => {
                proof {
                    assert(false);
                }
            },
        }
        k = k + 1;
    }
}

/// Decides whether a subtitle begins between frames `a` and `b`.
fn is_begin(f1: &FrameData, f2: &FrameData, cache: &FrameCache, a: i64, b: i64) -> (r: bool)
    requires
        ready(*cache),
        cache@.frame(a as int) == Some(f1@),
        cache@.frame(b as int) == Some(f2@),
        0 <= a <= b <= 0x1_ffff_0000,
    ensures
        r == search::begins(f1@, f2@, cache@, a as int, b as int, cache.settings()),
{
    let p: &Params = cache.params();
    let w: usize = cache.w();
    let h: usize = cache.h();
    proof {
        assert(f1@.sized(cache@.w, cache@.h));
        assert(f2@.sized(cache@.w, cache@.h));
    }
    if !f2.has_text {
        return false;
    }
    let mut im: Vec<u8> = copy(f1.im.as_slice());
    intersect_two_images_inplace(im.as_mut_slice(), f2.im.as_slice(), 0u8);
    let mut y: Vec<u16> = copy(f1.y.as_slice());
    intersect_y_images(
        y.as_mut_slice(),
        f2.y.as_slice(),
        p.max_dl_down as i32,
        p.max_dl_up as i32,
    );
    if !analyse_image_flat(im.as_slice(), Some(y.as_slice()), w, h, p) {
        return false;
    }
    if a < b {
        narrow(&mut im, &mut y, cache, a + 1, b - 1);
    }
    analyse_image_flat(im.as_slice(), Some(y.as_slice()), w, h, p)
}

impl Search {
    /// Looks half a look-ahead later for a subtitle.
    fn look_later(&mut self, cache: &FrameCache) -> (goes_on: bool)
        requires
            ready(*cache),
            search_inv(old(self)@, cache@.w, cache@.h),
            old(self)@.from <= cache@.total(),
        ensures
            went(
                search::look_later(old(self)@, cache@, cache.settings()),
                goes_on,
                final(self)@,
            ),
            search_inv(final(self)@, cache@.w, cache@.h),
    {
        self.from = self.from + (cache.params().dl / 2) as i64;
        if self.from >= cache.len() as i64 {
            self.flush(cache);
            false
        } else {
            true
        }
    }

    /// A step of looking for a subtitle.
    fn detect(&mut self, cache: &FrameCache) -> (goes_on: bool)
        requires
            ready(*cache),
            search_inv(old(self)@, cache@.w, cache@.h),
        ensures
            went(search::detected(old(self)@, cache@, cache.settings()), goes_on, final(self)@),
            search_inv(final(self)@, cache@.w, cache@.h),
    {
        let half: i64 = (cache.params().dl / 2) as i64;
        let a: i64 = self.from + half - 1;
        let b: i64 = self.from + 2 * half - 1;
        let f1: &FrameData = match cache.try_frame(a) {
            None => {
                self.flush(cache);
                return false;
            },
            Some(f) => f,
        };
        if !f1.has_text {
            return self.look_later(cache);
        }
        let f2: &FrameData = match cache.try_frame(b) {
            None => {
                self.flush(cache);
                return false;
            },
            Some(f) => f,
        };
        if is_begin(f1, f2, cache, a, b) {
            self.tracking = true;
            self.at = self.from;
            true
        } else {
            self.look_later(cache)
        }
    }

    /// Settles the subtitle before when the current one has changed.
    fn settle_prev(&mut self, cache: &FrameCache)
        requires
            ready(*cache),
            search_inv(old(self)@, cache@.w, cache@.h),
        ensures
            final(self)@ == search::prev_settled(old(self)@, cache@, cache.settings()),
            search_inv(final(self)@, cache@.w, cache@.h),
    {
        if self.has_prev {
            self.same_prev = same_text(
                self.prev.im.as_slice(),
                self.prev.y.as_slice(),
                self.prev.ne.as_slice(),
                self.prev.ne.as_slice(),
                self.cur.im.as_slice(),
                Some(self.cur.y.as_slice()),
                self.cur.ne.as_slice(),
                cache,
            );
            if !self.same_prev {
                let pbt: i64 = self.pbt;
                let pet: i64 = self.pet;
                self.record_prev(pbt, pet, cache);
                self.pbf = self.bf;
                self.pbt = self.bt;
            }
        } else {
            self.pbf = self.bf;
            self.pbt = self.bt;
        }
    }

    /// Makes the subtitle from `offset` frames on the current one.
    fn move_on(
        &mut self,
        f0: &FrameData,
        im: Vec<u8>,
        y: Vec<u16>,
        f: &FrameData,
        offset: usize,
        pet: i64,
        cache: &FrameCache,
    )
        requires
            ready(*cache),
            search_inv(old(self)@, cache@.w, cache@.h),
            old(self)@.at < cache@.total(),
            f0@.sized(cache@.w, cache@.h),
            f@.sized(cache@.w, cache@.h),
            im@.len() == cache@.w * cache@.h,
            y@.len() == cache@.w * cache@.h,
            offset < cache.settings().dl,
        ensures
            final(self)@ == search::moved_on(
                old(self)@,
                (Now { f: f0@, im: im@, y: y@ }),
                f@,
                offset as int,
                pet as int,
                cache.settings(),
            ),
            search_inv(final(self)@, cache@.w, cache@.h),
    {
        let dl: i64 = cache.params().dl as i64;
        let off: i64 = offset as i64;
        if self.at + off - 1 - self.pbf + 1 >= dl {
            if !(self.has_prev && self.same_prev) {
                self.prev = self.cur.duplicate();
            }
            self.has_prev = true;
        } else {
            self.has_prev = false;
        }
        self.pet = pet;
        self.bf = self.at + off;
        self.ef = self.bf;
        self.bt = f0.pos + off * 1000 / 30;
        let ne: Vec<u8> = copy(f.ne.as_slice());
        let bgr: Vec<u8> = copy(f.bgr.as_slice());
        if offset == 0 {
            self.cur = Stored { im, y, ne, bgr };
        } else {
            let raised: Vec<u16> = raise(&f.y);
            self.cur = Stored { im: copy(f.im.as_slice()), y: raised, ne, bgr };
        }
    }

    /// The subtitle has changed at the current frame, or a few frames later.
    fn change(&mut self, f0: &FrameData, im: Vec<u8>, y: Vec<u16>, cache: &FrameCache) -> (goes_on:
        bool)
        requires
            ready(*cache),
            search_inv(old(self)@, cache@.w, cache@.h),
            old(self)@.at < cache@.total(),
            f0@.sized(cache@.w, cache@.h),
            im@.len() == cache@.w * cache@.h,
            y@.len() == cache@.w * cache@.h,
        ensures
            went(
                search::changed(
                    old(self)@,
                    (Now { f: f0@, im: im@, y: y@ }),
                    cache@,
                    cache.settings(),
                ),
                goes_on,
                final(self)@,
            ),
            final(self)@.at == old(self)@.at,
            search_inv(final(self)@, cache@.w, cache@.h),
    {
        if self.at > self.bf + 1 {
            let found: Option<usize> = find_offset_for_new_sub(
                cache,
                self.at,
                &self.cur,
                self.prev_ne.as_slice(),
            );
            self.settle_prev(cache);
            match found {
                None => false,
                Some(offset) => match cache.try_frame(self.at + offset as i64) {
                    None => false,
                    Some(f) => {
                        proof {
                            assert(f@.sized(cache@.w, cache@.h));
                        }
                        self.move_on(f0, im, y, f, offset, f.pos - 1, cache);
                        true
                    },
                },
            }
        } else {
            self.settle_prev(cache);
            self.move_on(f0, im, y, f0, 0, f0.pos - 1, cache);
            true
        }
    }

    /// Goes on with a subtitle, or starts one.
    fn carry_on(&mut self, f0: &FrameData, im: Vec<u8>, y: Vec<u16>, cache: &FrameCache) -> (
    goes_on: bool)
        requires
            ready(*cache),
            search_inv(old(self)@, cache@.w, cache@.h),
            old(self)@.at < cache@.total(),
            f0@.sized(cache@.w, cache@.h),
            im@.len() == cache@.w * cache@.h,
            y@.len() == cache@.w * cache@.h,
        ensures
            went(
                search::carried_on(
                    old(self)@,
                    (Now { f: f0@, im: im@, y: y@ }),
                    cache@,
                    cache.settings(),
                ),
                goes_on,
                final(self)@,
            ),
            final(self)@.at == old(self)@.at,
            search_inv(final(self)@, cache@.w, cache@.h),
    {
        proof {
            reveal(search::carried_on);
        }
        let p: &Params = cache.params();
        if self.bf == -2 {
            self.bf = self.at;
            self.ef = self.at;
            self.bt = f0.pos;
            self.cur = Stored {
                im,
                y,
                ne: copy(f0.ne.as_slice()),
                bgr: copy(f0.bgr.as_slice()),
            };
            return true;
        }
        let same: bool = same_text(
            self.cur.im.as_slice(),
            self.cur.y.as_slice(),
            self.cur.ne.as_slice(),
            self.prev_ne.as_slice(),
            im.as_slice(),
            Some(y.as_slice()),
            f0.ne.as_slice(),
            cache,
        );
        if !same {
            return self.change(f0, im, y, cache);
        }
        if self.at - self.bf + 1 == 3 {
            self.cur = Stored {
                im,
                y,
                ne: copy(f0.ne.as_slice()),
                bgr: copy(f0.bgr.as_slice()),
            };
        }
        intersect_y_images(
            self.cur.y.as_mut_slice(),
            f0.y.as_slice(),
            p.max_dl_down as i32,
            p.max_dl_up as i32,
        );
        true
    }
}

/// The brightness of a frame, shifted by 255 once more.
fn raise(y: &Vec<u16>) -> (r: Vec<u16>)
    requires
        forall|i: int| 0 <= i < y@.len() ==> #[trigger] y@[i] <= 510,
    ensures
        r@ == search::raised(y@),
{
    let mut r: Vec<u16> = Vec::new();
    let mut i: usize = 0;
    while i < y.len()
        invariant
            i <= y@.len(),
            forall|i: int| 0 <= i < y@.len() ==> #[trigger] y@[i] <= 510,
            r@.len() == i,
            forall|j: int| 0 <= j < i ==> r@[j] == search::raised(y@)[j],
        decreases y@.len() - i,
    {
        r.push(y[i] + 255);
        i = i + 1;
    }
    assert(r@ =~= search::raised(y@));
    r
}

/// Decides whether a subtitle can still be seen on edges `ne`.
fn is_seen_on(cur: &Stored, also: &[u8], ne: &[u8], cache: &FrameCache) -> (r: bool)
    requires
        ready(*cache),
        cur@.sized(cache@.w, cache@.h),
        also@.len() == cache@.w * cache@.h,
        ne@.len() == cache@.w * cache@.h,
    ensures
        r == search::seen_on(cur@, also@, ne@, cache@, cache.settings()),
{
    if same_text(
        cur.im.as_slice(),
        cur.y.as_slice(),
        cur.ne.as_slice(),
        also,
        cur.im.as_slice(),
        Some(cur.y.as_slice()),
        ne,
        cache,
    ) {
        return true;
    }
    let mut both: Vec<u8> = copy(ne);
    intersect_two_images_inplace(both.as_mut_slice(), cur.ne.as_slice(), 0u8);
    same_text(
        cur.im.as_slice(),
        cur.y.as_slice(),
        cur.ne.as_slice(),
        also,
        cur.im.as_slice(),
        Some(cur.y.as_slice()),
        both.as_slice(),
        cache,
    )
}

/// Finds the first offset at which a subtitle cannot be seen any more, or the
/// frame is missing. Zero if it can be seen at all of them.
fn find_fading(cache: &FrameCache, k: i64, cur: &Stored, prev_ne: &Vec<u8>) -> (r: usize)
    requires
        ready(*cache),
        0 <= k <= 0x2_0000_0000,
        cur@.sized(cache@.w, cache@.h),
        prev_ne@.len() == cache@.w * cache@.h,
    ensures
        r == search::fades_at(cache@, k as int, cur@, prev_ne@, 0, cache.settings()),
        r < cache.settings().dl,
{
    let p: &Params = cache.params();
    let ghost c = cache@;
    let ghost goal = search::fades_at(c, k as int, cur@, prev_ne@, 0, *p);
    let mut also: Vec<u8> = copy(prev_ne.as_slice());
    let mut offset: usize = 0;
    while offset < p.dl - 1
        invariant
            ready(*cache),
            *p == cache.settings(),
            c == cache@,
            0 <= k <= 0x2_0000_0000,
            cur@.sized(c.w, c.h),
            also@.len() == c.w * c.h,
            offset <= p.dl - 1,
            goal == search::fades_at(cache@, k as int, cur@, prev_ne@, 0, cache.settings()),
            goal == search::fades_at(c, k as int, cur@, also@, offset as int, *p),
        decreases p.dl - offset,
    {
        match cache.try_frame(k + offset as i64) {
            None => {
                return offset;
            },
            Some(f) => {
                proof {
                    assert(f@.sized(c.w, c.h));
                }
                if !is_seen_on(cur, also.as_slice(), f.ne.as_slice(), cache) {
                    return offset;
                }
                also = copy(f.ne.as_slice());
            },
        }
        offset = offset + 1;
    }
    0
}

impl Search {
    /// Whether the subtitle before has the same edges as the current one.
    fn has_matching_edges(&self, cache: &FrameCache) -> (r: bool)
        requires
            ready(*cache),
            search_inv(self@, cache@.w, cache@.h),
        ensures
            r == search::edges_match(self@, cache@, cache.settings()),
    {
        let im: &[u8] = self.cur.im.as_slice();
        let y: &[u16] = self.cur.y.as_slice();
        let ne: &[u8] = self.cur.ne.as_slice();
        let before: &[u8] = self.prev.ne.as_slice();
        if same_text(im, y, before, before, im, Some(y), ne, cache) {
            return true;
        }
        let mut narrower: Vec<u8> = copy(ne);
        intersect_two_images_inplace(narrower.as_mut_slice(), before, 0u8);
        if same_text(im, y, before, before, im, Some(y), narrower.as_slice(), cache) {
            return true;
        }
        let mut both: Vec<u8> = copy(before);
        intersect_two_images_inplace(both.as_mut_slice(), ne, 0u8);
        same_text(im, y, both.as_slice(), both.as_slice(), im, Some(y), ne, cache)
    }

    /// Joins the subtitle before with the current one when they are the same.
    fn reunite(&mut self, cache: &FrameCache)
        requires
            ready(*cache),
            search_inv(old(self)@, cache@.w, cache@.h),
        ensures
            final(self)@ == search::reunited(old(self)@, cache@, cache.settings()),
            search_inv(final(self)@, cache@.w, cache@.h),
    {
        if self.has_prev {
            let same: bool = same_text(
                self.prev.im.as_slice(),
                self.prev.y.as_slice(),
                self.prev.ne.as_slice(),
                self.prev.ne.as_slice(),
                self.cur.im.as_slice(),
                Some(self.cur.y.as_slice()),
                self.cur.ne.as_slice(),
                cache,
            );
            if same {
                self.bf = self.pbf;
                self.ef = self.pbf;
                self.bt = self.pbt;
                self.has_prev = false;
            }
        }
    }

    /// Finds the end of the current subtitle.
    fn find_end(&mut self, f0: &FrameData, moved: bool, cache: &FrameCache)
        requires
            ready(*cache),
            search_inv(old(self)@, cache@.w, cache@.h),
            old(self)@.at < cache@.total(),
            f0@.sized(cache@.w, cache@.h),
        ensures
            forall|now: Now|
                now.f == f0@ ==> final(self)@ == #[trigger] search::end_found(
                    old(self)@,
                    now,
                    moved,
                    cache@,
                    cache.settings(),
                ),
            final(self)@.at == old(self)@.at,
            search_inv(final(self)@, cache@.w, cache@.h),
    {
        if moved {
            let offset: usize = find_fading(cache, self.at, &self.cur, &self.prev_ne);
            let end: i64 = self.at + offset as i64;
            self.ef = end - 1;
            match cache.try_frame(end) {
                Some(f) => {
                    proof {
                        assert(f@.sized(cache@.w, cache@.h));
                    }
                    self.et = f.pos - 1;
                },
                None => {
                    self.et = f0.pos;
                },
            }
        } else {
            self.ef = self.at - 1;
            self.et = f0.pos;
        }
    }

    /// Records a subtitle whose end is known, with the one before it.
    fn record_end(&mut self, cache: &FrameCache)
        requires
            ready(*cache),
            search_inv(old(self)@, cache@.w, cache@.h),
        ensures
            final(self)@ == search::end_recorded(old(self)@, cache@, cache.settings()),
            search_inv(final(self)@, cache@.w, cache@.h),
    {
        let dl: i64 = cache.params().dl as i64;
        if self.ef - self.bf + 1 < dl && self.has_prev && self.has_matching_edges(cache) {
            self.bf = self.pbf;
            self.bt = self.pbt;
        }
        if self.has_prev && self.bf != self.pbf {
            let pbt: i64 = self.pbt;
            let pet: i64 = self.pet;
            self.record_prev(pbt, pet, cache);
        }
        if self.ef - self.bf + 1 >= dl {
            if self.bf != self.pbf {
                self.record_cur(cache);
            } else {
                let bt: i64 = self.bt;
                let et: i64 = self.et;
                self.record_prev(bt, et, cache);
            }
        }
    }

    /// The current frame shows no subtitle: ends the one followed so far.
    fn disappear(&mut self, f0: &FrameData, moved: bool, cache: &FrameCache)
        requires
            ready(*cache),
            search_inv(old(self)@, cache@.w, cache@.h),
            old(self)@.at < cache@.total(),
            f0@.sized(cache@.w, cache@.h),
        ensures
            forall|now: Now|
                now.f == f0@ ==> final(self)@ == #[trigger] search::disappeared(
                    old(self)@,
                    now,
                    moved,
                    cache@,
                    cache.settings(),
                ),
            final(self)@.at == old(self)@.at,
            search_inv(final(self)@, cache@.w, cache@.h),
    {
        proof {
            reveal(search::disappeared);
        }
        let dl: i64 = cache.params().dl as i64;
        let ghost s0 = self@;
        let ghost c = cache@;
        let ghost p = cache.settings();
        self.reunite(cache);
        let ghost s1 = self@;
        if self.bf != -2 {
            self.find_end(f0, moved, cache);
            self.record_end(cache);
        }
        let ghost s2 = self@;
        proof {
            assert forall|now: Now| now.f == f0@ implies s2 == if s1.bf != -2 {
                search::end_recorded(#[trigger] search::end_found(s1, now, moved, c, p), c, p)
            } else {
                s1
            } by {
            }
        }
        self.has_prev = false;
        self.bf = -2;
        if self.at > self.ef && self.at - self.from >= dl {
            self.tracking = false;
            self.from = self.at;
        } else {
            self.tracking = true;
        }
        proof {
            assert forall|now: Now| now.f == f0@ implies self@ == #[trigger] search::disappeared(
                s0,
                now,
                moved,
                c,
                p,
            ) by {
                let _ = search::end_found(s1, now, moved, c, p);
            }
        }
    }

    /// Acts on what the current frame says of the subtitle.
    fn judge(
        &mut self,
        f0: &FrameData,
        im: Vec<u8>,
        y: Vec<u16>,
        text: bool,
        moved: bool,
        cache: &FrameCache,
    ) -> (goes_on: bool)
        requires
            ready(*cache),
            search_inv(old(self)@, cache@.w, cache@.h),
            old(self)@.at < cache@.total(),
            f0@.sized(cache@.w, cache@.h),
            im@.len() == cache@.w * cache@.h,
            y@.len() == cache@.w * cache@.h,
        ensures
            went(
                search::judged(
                    old(self)@,
                    (Now { f: f0@, im: im@, y: y@ }),
                    text,
                    moved,
                    cache@,
                    cache.settings(),
                ),
                goes_on,
                final(self)@,
            ),
            final(self)@.at == old(self)@.at,
            search_inv(final(self)@, cache@.w, cache@.h),
    {
        proof {
            reveal(search::judged);
        }
        let ghost now = Now { f: f0@, im: im@, y: y@ };
        if self.at == self.bf {
            self.cur = Stored {
                im: copy(im.as_slice()),
                y: copy(y.as_slice()),
                ne: copy(f0.ne.as_slice()),
                bgr: copy(f0.bgr.as_slice()),
            };
        }
        if self.at <= self.ef {
            true
        } else if text && moved {
            self.carry_on(f0, im, y, cache)
        } else if text || moved {
            let ghost s1 = self@;
            self.disappear(f0, moved, cache);
            proof {
                let _ = search::disappeared(s1, now, moved, cache@, cache.settings());
            }
            true
        } else {
            true
        }
    }

    /// A step of following a subtitle.
    fn follow(&mut self, cache: &FrameCache) -> (r: Result<bool, FrameLost>)
        requires
            ready(*cache),
            search_inv(old(self)@, cache@.w, cache@.h),
        ensures
            match r {
                Ok(goes_on) => went(
                    search::followed(old(self)@, cache@, cache.settings()),
                    goes_on,
                    final(self)@,
                ) && search_inv(final(self)@, cache@.w, cache@.h),
                Err(_) => search::followed(old(self)@, cache@, cache.settings()) is Lost
                    && final(self)@ == old(self)@,
            },
    {
        let ghost c = cache@;
        let f0: &FrameData = match cache.try_frame(self.at) {
            None => {
                self.run_out(cache);
                self.flush(cache);
                return Ok(false);
            },
            Some(f) => f,
        };
        proof {
            assert(f0@.sized(c.w, c.h));
        }
        let before: i64 = if self.at > 0 {
            match cache.try_frame(self.at - 1) {
                None => {
                    return Err(FrameLost);
                },
                Some(f) => f.pos,
            }
        } else {
            -1
        };
        let (im, y, text) = match get_intersect_images(cache, self.at) {
            None => {
                proof {
                    assert(false);
                }
                self.run_out(cache);
                self.flush(cache);
                return Ok(false);
            },
            Some(v) => v,
        };
        let moved: bool = f0.pos != before;
        if !self.judge(f0, im, y, text, moved, cache) {
            self.flush(cache);
            return Ok(false);
        }
        if self.tracking {
            self.prev_ne = copy(f0.ne.as_slice());
            self.at = self.at + 1;
        }
        Ok(true)
    }

    /// A step of the search, on frames decoded up to [`Search::target`]. True
    /// while the search goes on.
    pub fn step(&mut self, cache: &FrameCache) -> (r: Result<bool, FrameLost>)
        requires
            ready(*cache),
            search_inv(old(self)@, cache@.w, cache@.h),
        ensures
            match r {
                Ok(goes_on) => went(
                    search::stepped(old(self)@, cache@, cache.settings()),
                    goes_on,
                    final(self)@,
                ) && search_inv(final(self)@, cache@.w, cache@.h),
                Err(_) => search::stepped(old(self)@, cache@, cache.settings()) is Lost
                    && final(self)@ == old(self)@,
            },
    {
        if self.tracking {
            self.follow(cache)
        } else {
            Ok(self.detect(cache))
        }
    }
}

} // verus!
