//! Bands of rows with white pixels.

use super::grid;
use super::runs;
use super::runs::find_runs;
use vstd::prelude::*;

verus! {

/// Whether a row has a white pixel.
pub open spec fn white_row(im: Seq<u8>, w: int, y: int) -> bool {
    exists|x: int| 0 <= x < w && #[trigger] grid::at(im, w, x, y) == 255
}

/// The maximal runs of rows with a white pixel.
pub open spec fn white_bands(im: Seq<u8>, w: int, h: int) -> Seq<(i32, i32)> {
    runs::runs(Seq::new(h as nat, |y: int| white_row(im, w, y)))
}

/// Whether band `l` is to be joined with the one below rather than the one
/// above: with the nearer, the one below if both are equally near.
pub open spec fn joins_down(bands: Seq<(i32, i32)>, l: int) -> bool {
    l == 0 || (l < bands.len() - 1 && bands[l + 1].0 - bands[l].1 <= bands[l].0 - bands[l - 1].1)
}

/// The bands with band `l` joined to the one below.
pub open spec fn joined_down(bands: Seq<(i32, i32)>, l: int) -> Seq<(i32, i32)> {
    bands.update(l + 1, (bands[l].0, bands[l + 1].1)).remove(l)
}

/// The bands with band `l` joined to the one above.
pub open spec fn joined_up(bands: Seq<(i32, i32)>, l: int) -> Seq<(i32, i32)> {
    bands.update(l - 1, (bands[l - 1].0, bands[l].1)).remove(l)
}

/// The bands from `l` on that are at most `segh` rows high joined with a
/// neighbour, until one band is left.
pub open spec fn low_joined(bands: Seq<(i32, i32)>, l: int, segh: int) -> Seq<(i32, i32)>
    decreases bands.len(), bands.len() - l,
{
    if l < 0 || l >= bands.len() || bands.len() <= 1 {
        bands
    } else if height(bands[l]) <= segh {
        if joins_down(bands, l) {
            low_joined(joined_down(bands, l), l, segh)
        } else {
            low_joined(joined_up(bands, l), l, segh)
        }
    } else {
        low_joined(bands, l + 1, segh)
    }
}

/// How many rows a band has.
pub open spec fn height(band: (i32, i32)) -> int {
    band.1 - band.0 + 1
}

/// Whether band `l` and the one below are at most eight rows apart, and one of
/// them is at most twice `segh` rows high.
pub open spec fn near(bands: Seq<(i32, i32)>, l: int, segh: int) -> bool {
    &&& bands[l + 1].0 - bands[l].1 - 1 <= 8
    &&& height(bands[l]) <= 2 * segh || height(bands[l + 1]) <= 2 * segh
}

/// The bands from `l` on that are near each other joined.
pub open spec fn near_joined(bands: Seq<(i32, i32)>, l: int, segh: int) -> Seq<(i32, i32)>
    decreases bands.len(), bands.len() - l,
{
    if l < 0 || l + 1 >= bands.len() {
        bands
    } else if near(bands, l, segh) {
        near_joined(joined_down(bands, l), l, segh)
    } else {
        near_joined(bands, l + 1, segh)
    }
}

/// The text bands of an image: the runs of rows with a white pixel, the low
/// ones joined with a neighbour, and then those near each other.
pub open spec fn lines_info(im: Seq<u8>, w: int, h: int, segh: int) -> Seq<(i32, i32)> {
    near_joined(low_joined(white_bands(im, w, h), 0, segh), 0, segh)
}

proof fn lemma_join(bands: Seq<(i32, i32)>, l: int, h: int)
    requires
        runs::separated(bands, h),
        0 <= l,
        l + 1 < bands.len(),
    ensures
        runs::separated(joined_down(bands, l), h),
        joined_down(bands, l) == joined_up(bands, l + 1),
        joined_down(bands, l).len() == bands.len() - 1,
{
    let a = joined_down(bands, l);
    assert(a =~= joined_up(bands, l + 1));
    let _ = (bands[l], bands[l + 1]);
    assert forall|i: int| 0 <= i < a.len() implies 0 <= (#[trigger] a[i]).0 <= a[i].1 < h by {
        let _ = (bands[i], bands[i + 1]);
    }
    assert forall|i: int, j: int|
        #![trigger a[i], a[j]]
        0 <= i < j < a.len() implies a[i].1 + 1 < a[j].0 by {
        let _ = (bands[i], bands[i + 1], bands[j], bands[j + 1]);
    }
}

/// Text bands lie in the image, from top to bottom, with at least one row between
/// them.
pub proof fn text_bands_are_separated(im: Seq<u8>, w: int, h: int, segh: int)
    requires
        0 <= h <= 0x7fff_ffff,
    ensures
        runs::separated(lines_info(im, w, h, segh), h),
{
    let marks = Seq::new(h as nat, |y: int| white_row(im, w, y));
    runs::runs_cover(marks);
    lemma_low_joined(runs::runs(marks), 0, segh, h);
    lemma_near_joined(low_joined(runs::runs(marks), 0, segh), 0, segh, h);
}

proof fn lemma_low_joined(bands: Seq<(i32, i32)>, l: int, segh: int, h: int)
    requires
        runs::separated(bands, h),
    ensures
        runs::separated(low_joined(bands, l, segh), h),
    decreases bands.len(), bands.len() - l,
{
    if !(l < 0 || l >= bands.len() || bands.len() <= 1) {
        if height(bands[l]) <= segh {
            if joins_down(bands, l) {
                lemma_join(bands, l, h);
                lemma_low_joined(joined_down(bands, l), l, segh, h);
            } else {
                lemma_join(bands, l - 1, h);
                lemma_low_joined(joined_up(bands, l), l, segh, h);
            }
        } else {
            lemma_low_joined(bands, l + 1, segh, h);
        }
    }
}

proof fn lemma_near_joined(bands: Seq<(i32, i32)>, l: int, segh: int, h: int)
    requires
        runs::separated(bands, h),
    ensures
        runs::separated(near_joined(bands, l, segh), h),
    decreases bands.len(), bands.len() - l,
{
    if !(l < 0 || l + 1 >= bands.len()) {
        if near(bands, l, segh) {
            lemma_join(bands, l, h);
            lemma_near_joined(joined_down(bands, l), l, segh, h);
        } else {
            lemma_near_joined(bands, l + 1, segh, h);
        }
    }
}

/// Finds the maximal runs of rows with a white pixel.
fn find_white_bands(im: &[u8], w: usize, h: usize) -> (bands: Vec<(i32, i32)>)
    requires
        grid::frame_size(w as int, h as int),
        im@.len() == w * h,
    ensures
        bands@ == white_bands(im@, w as int, h as int),
        runs::separated(bands@, h as int),
{
    let ghost wi = w as int;
    let ghost hi = h as int;
    proof {
        grid::lemma_sides(wi, hi);
    }
    let mut marks: Vec<bool> = Vec::new();
    let mut y: usize = 0;
    while y < h
        invariant
            grid::frame_size(wi, hi),
            wi == w,
            hi == h,
            im@.len() == w * h,
            y <= h,
            marks@ == Seq::new(y as nat, |k: int| white_row(im@, wi, k)),
        decreases h - y,
    {
        let mut found: bool = false;
        let mut x: usize = 0;
        while x < w && !found
            invariant
                grid::frame_size(wi, hi),
                wi == w,
                hi == h,
                im@.len() == w * h,
                y < h,
                x <= w,
                found ==> white_row(im@, wi, y as int),
                !found ==> forall|k: int|
                    0 <= k < x ==> #[trigger] grid::at(im@, wi, k, y as int) != 255,
            decreases w - x, (if found { 0int } else { 1int }),
        {
            proof {
                grid::lemma_at(x as int, y as int, wi, hi);
            }
            if im[y * w + x] == 255 {
                found = true;
                proof {
                    assert(grid::at(im@, wi, x as int, y as int) == 255);
                }
            } else {
                x = x + 1;
            }
        }
        marks.push(found);
        y = y + 1;
        proof {
            assert(marks@ =~= Seq::new(y as nat, |k: int| white_row(im@, wi, k)));
        }
    }
    proof {
        runs::runs_cover(marks@);
    }
    find_runs(marks.as_slice())
}

/// Joins the low bands with a neighbour.
fn join_low(bands: &mut Vec<(i32, i32)>, segh: usize, Ghost(h): Ghost<int>)
    requires
        segh <= 0x7fff_ffff,
        runs::separated(old(bands)@, h),
    ensures
        final(bands)@ == low_joined(old(bands)@, 0, segh as int),
        runs::separated(final(bands)@, h),
{
    let ghost goal = low_joined(bands@, 0, segh as int);
    let mut l: usize = 0;
    while l < bands.len() && bands.len() > 1
        invariant
            segh <= 0x7fff_ffff,
            runs::separated(bands@, h),
            l <= bands@.len(),
            goal == low_joined(bands@, l as int, segh as int),
        decreases bands@.len(), bands@.len() - l,
    {
        let n: usize = bands.len();
        let b: (i32, i32) = bands[l];
        proof {
            let _ = bands@[l as int];
        }
        if b.1 as i64 - b.0 as i64 + 1 <= segh as i64 {
            let down: bool = if l == 0 {
                true
            } else if l == n - 1 {
                false
            } else {
                bands[l + 1].0 as i64 - b.1 as i64 <= b.0 as i64 - bands[l - 1].1 as i64
            };
            if down {
                proof {
                    lemma_join(bands@, l as int, h);
                }
                let c: (i32, i32) = bands[l + 1];
                bands.set(l + 1, (b.0, c.1));
                bands.remove(l);
            } else {
                proof {
                    lemma_join(bands@, l - 1, h);
                }
                let c: (i32, i32) = bands[l - 1];
                bands.set(l - 1, (c.0, b.1));
                bands.remove(l);
            }
        } else {
            l = l + 1;
        }
    }
}

/// Joins the bands that are near each other.
fn join_near(bands: &mut Vec<(i32, i32)>, segh: usize, Ghost(h): Ghost<int>)
    requires
        segh <= 0x7fff_ffff,
        runs::separated(old(bands)@, h),
    ensures
        final(bands)@ == near_joined(old(bands)@, 0, segh as int),
        runs::separated(final(bands)@, h),
{
    let ghost goal = near_joined(bands@, 0, segh as int);
    let mut l: usize = 0;
    while l < bands.len() && bands.len() - l > 1
        invariant
            segh <= 0x7fff_ffff,
            runs::separated(bands@, h),
            l <= bands@.len(),
            goal == near_joined(bands@, l as int, segh as int),
        decreases bands@.len(), bands@.len() - l,
    {
        let b: (i32, i32) = bands[l];
        let c: (i32, i32) = bands[l + 1];
        proof {
            let _ = (bands@[l as int], bands@[l + 1]);
        }
        let low: bool = b.1 as i64 - b.0 as i64 + 1 <= 2 * segh as i64 || c.1 as i64 - c.0 as i64
            + 1 <= 2 * segh as i64;
        if low && c.0 as i64 - b.1 as i64 - 1 <= 8 {
            proof {
                lemma_join(bands@, l as int, h);
            }
            bands.set(l + 1, (b.0, c.1));
            bands.remove(l);
        } else {
            l = l + 1;
        }
    }
}

/// Finds the text bands of an image, each by its first and last row.
pub fn get_lines_info(im: &[u8], w: usize, h: usize, segh: usize) -> (bands: Vec<(i32, i32)>)
    requires
        grid::frame_size(w as int, h as int),
        im@.len() == w * h,
        segh <= 0x7fff_ffff,
    ensures
        bands@ == lines_info(im@, w as int, h as int, segh as int),
        runs::separated(bands@, h as int),
{
    let mut bands: Vec<(i32, i32)> = find_white_bands(im, w, h);
    join_low(&mut bands, segh, Ghost(h as int));
    join_near(&mut bands, segh, Ghost(h as int));
    bands
}

} // verus!
