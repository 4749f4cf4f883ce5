//! Text lines: runs of rows that are not blank, with their outermost columns.

use super::grid;
use super::runs;
use super::runs::find_runs;
use vstd::prelude::*;

verus! {

/// Whether a row has a pixel that is not blank.
pub open spec fn busy_row(im: Seq<u8>, w: int, y: int) -> bool {
    exists|x: int| 0 <= x < w && #[trigger] grid::at(im, w, x, y) != 0
}

/// Which rows have a pixel that is not blank.
pub open spec fn busy_rows(im: Seq<u8>, w: int, h: int) -> Seq<bool> {
    Seq::new(h as nat, |y: int| busy_row(im, w, y))
}

/// Marks the rows with a pixel that is not blank.
pub fn find_busy_rows(im: &[u8], w: usize, h: usize) -> (marks: Vec<bool>)
    requires
        grid::frame_size(w as int, h as int),
        im@.len() == w * h,
    ensures
        marks@ == busy_rows(im@, w as int, h as int),
{
    let ghost wi = w as int;
    let ghost hi = h as int;
    let mut marks: Vec<bool> = Vec::new();
    let mut y: usize = 0;
    while y < h
        invariant
            grid::frame_size(wi, hi),
            wi == w,
            hi == h,
            im@.len() == w * h,
            y <= h,
            marks@ == busy_rows(im@, wi, y as int),
        decreases h - y,
    {
        let mut found: bool = false;
        let mut x: usize = 0;
        while x < w && !found
            invariant
                grid::frame_size(wi, hi),
                wi == w,
                hi == h,
                im@.len() == w * h,
                y < h,
                x <= w,
                found ==> busy_row(im@, wi, y as int),
                !found ==> forall|k: int|
                    0 <= k < x ==> #[trigger] grid::at(im@, wi, k, y as int) == 0,
            decreases w - x, (if found { 0int } else { 1int }),
        {
            proof {
                grid::lemma_at(x as int, y as int, wi, hi);
            }
            if im[y * w + x] != 0 {
                found = true;
                proof {
                    assert(grid::at(im@, wi, x as int, y as int) != 0);
                }
            } else {
                x = x + 1;
            }
        }
        marks.push(found);
        y = y + 1;
        proof {
            assert(marks@ =~= busy_rows(im@, wi, y as int));
        }
    }
    marks
}

/// A box of rows `top..=bottom` and columns `left..=right`.
#[derive(Clone, Copy, Debug, PartialEq, Eq, Structural)]
pub struct TextLine {
    pub top: i32,
    pub bottom: i32,
    pub left: i32,
    pub right: i32,
}

/// Whether `x` is the column of a pixel in rows `r.0..=r.1` that is not blank.
pub open spec fn inked(im: Seq<u8>, w: int, r: (i32, i32), x: int) -> bool {
    0 <= x < w && exists|y: int| r.0 <= y <= r.1 && #[trigger] grid::at(im, w, x, y) != 0
}

/// Whether `x` is the leftmost inked column.
pub open spec fn is_left(im: Seq<u8>, w: int, r: (i32, i32), x: int) -> bool {
    inked(im, w, r, x) && forall|k: int| #[trigger] inked(im, w, r, k) ==> x <= k
}

/// Whether `x` is the rightmost inked column.
pub open spec fn is_right(im: Seq<u8>, w: int, r: (i32, i32), x: int) -> bool {
    inked(im, w, r, x) && forall|k: int| #[trigger] inked(im, w, r, k) ==> k <= x
}

/// The box around the pixels in rows `r.0..=r.1` that are not blank.
pub open spec fn line_of(im: Seq<u8>, w: int, r: (i32, i32)) -> TextLine {
    TextLine {
        top: r.0,
        bottom: r.1,
        left: (choose|x: int| is_left(im, w, r, x)) as i32,
        right: (choose|x: int| is_right(im, w, r, x)) as i32,
    }
}

/// The boxes around the maximal runs of rows that are not blank.
pub open spec fn text_lines(im: Seq<u8>, w: int, h: int) -> Seq<TextLine> {
    let rs = runs::runs(busy_rows(im, w, h));
    Seq::new(rs.len(), |k: int| line_of(im, w, rs[k]))
}

/// Whether a box lies in a frame.
pub open spec fn in_frame(t: TextLine, w: int, h: int) -> bool {
    0 <= t.top <= t.bottom < h && 0 <= t.left <= t.right < w
}

/// Finds the box around the pixels of some rows that are not blank.
fn measure(im: &[u8], w: usize, h: usize, r: (i32, i32)) -> (t: TextLine)
    requires
        grid::frame_size(w as int, h as int),
        im@.len() == w * h,
        0 <= r.0 <= r.1 < h,
        busy_row(im@, w as int, r.0 as int),
    ensures
        t == line_of(im@, w as int, r),
        in_frame(t, w as int, h as int),
{
    let ghost wi = w as int;
    let ghost hi = h as int;
    proof {
        grid::lemma_sides(wi, hi);
    }
    let mut left: usize = w;
    let mut right: usize = 0;
    let mut y: usize = r.0 as usize;
    while y <= r.1 as usize
        invariant
            grid::frame_size(wi, hi),
            wi == w,
            hi == h,
            h <= 0x7fff_ffff,
            im@.len() == w * h,
            0 <= r.0 <= r.1 < h,
            r.0 <= y <= r.1 + 1,
            left <= w,
            left == w ==> forall|x: int, k: int|
                0 <= x < w && r.0 <= k < y ==> #[trigger] grid::at(im@, wi, x, k) == 0,
            left < w ==> inked(im@, wi, r, left as int) && inked(im@, wi, r, right as int),
            forall|x: int, k: int|
                0 <= x < w && r.0 <= k < y && #[trigger] grid::at(im@, wi, x, k) != 0 ==> left <= x
                    <= right,
        decreases r.1 + 1 - y,
    {
        let mut x: usize = 0;
        while x < w
            invariant
                grid::frame_size(wi, hi),
                wi == w,
                hi == h,
                im@.len() == w * h,
                0 <= r.0 <= y <= r.1 < h,
                x <= w,
                left <= w,
                left == w ==> forall|x: int, k: int|
                    0 <= x < w && r.0 <= k < y ==> #[trigger] grid::at(im@, wi, x, k) == 0,
                left == w ==> forall|k: int|
                    0 <= k < x ==> #[trigger] grid::at(im@, wi, k, y as int) == 0,
                left < w ==> inked(im@, wi, r, left as int) && inked(im@, wi, r, right as int),
                forall|x: int, k: int|
                    0 <= x < w && r.0 <= k < y && #[trigger] grid::at(im@, wi, x, k) != 0 ==> left
                        <= x <= right,
                forall|k: int|
                    0 <= k < x && #[trigger] grid::at(im@, wi, k, y as int) != 0 ==> left <= k
                        <= right,
            decreases w - x,
        {
            proof {
                grid::lemma_at(x as int, y as int, wi, hi);
            }
            if im[y * w + x] != 0 {
                proof {
                    assert(grid::at(im@, wi, x as int, y as int) != 0);
                    assert(inked(im@, wi, r, x as int));
                }
                if left == w {
                    left = x;
                    right = x;
                } else {
                    if x < left {
                        left = x;
                    }
                    if x > right {
                        right = x;
                    }
                }
            }
            x = x + 1;
        }
        y = y + 1;
    }
    proof {
        let x0 = choose|x: int| 0 <= x < wi && #[trigger] grid::at(im@, wi, x, r.0 as int) != 0;
        assert(grid::at(im@, wi, x0, r.0 as int) != 0);
        assert(left < w);
        assert forall|k: int| #[trigger] inked(im@, wi, r, k) implies left <= k <= right by {
            let yy = choose|y: int| r.0 <= y <= r.1 && #[trigger] grid::at(im@, wi, k, y) != 0;
            assert(grid::at(im@, wi, k, yy) != 0);
        }
        assert(is_left(im@, wi, r, left as int));
        assert(is_right(im@, wi, r, right as int));
        let a = choose|x: int| is_left(im@, wi, r, x);
        let b = choose|x: int| is_right(im@, wi, r, x);
        assert(is_left(im@, wi, r, a) && is_right(im@, wi, r, b));
        assert(a == left && b == right);
    }
    TextLine { top: r.0, bottom: r.1, left: left as i32, right: right as i32 }
}

/// Finds the text lines of an image.
pub fn find_text_lines(im: &[u8], w: usize, h: usize) -> (lines: Vec<TextLine>)
    requires
        grid::frame_size(w as int, h as int),
        im@.len() == w * h,
    ensures
        lines@ == text_lines(im@, w as int, h as int),
        forall|k: int|
            0 <= k < lines@.len() ==> in_frame(#[trigger] lines@[k], w as int, h as int),
        ordered(lines@),
{
    let ghost wi = w as int;
    let ghost hi = h as int;
    let marks: Vec<bool> = find_busy_rows(im, w, h);
    proof {
        grid::lemma_sides(wi, hi);
        runs::runs_cover(marks@);
    }
    let rs: Vec<(i32, i32)> = find_runs(marks.as_slice());
    let mut lines: Vec<TextLine> = Vec::new();
    let mut k: usize = 0;
    while k < rs.len()
        invariant
            grid::frame_size(wi, hi),
            wi == w,
            hi == h,
            im@.len() == w * h,
            rs@ == runs::runs(busy_rows(im@, wi, hi)),
            runs::separated(rs@, hi),
            marks@ == busy_rows(im@, wi, hi),
            forall|i: int, x: int|
                #![trigger rs@[i], marks@[x]]
                0 <= i < rs@.len() && runs::in_run(rs@[i], x) ==> marks@[x],
            k <= rs@.len(),
            lines@.len() == k,
            forall|i: int|
                #![trigger lines@[i]]
                0 <= i < k ==> lines@[i] == line_of(im@, wi, rs@[i]) && in_frame(lines@[i], wi, hi),
        decreases rs@.len() - k,
    {
        proof {
            let r = rs@[k as int];
            assert(runs::in_run(r, r.0 as int));
            assert(marks@[r.0 as int]);
        }
        let t: TextLine = measure(im, w, h, rs[k]);
        lines.push(t);
        k = k + 1;
    }
    proof {
        assert(lines@ =~= text_lines(im@, wi, hi));
        assert forall|i: int, j: int|
            #![trigger lines@[i], lines@[j]]
            0 <= i < j < lines@.len() implies lines@[i].bottom < lines@[j].top by {
            assert(rs@[i].1 + 1 < rs@[j].0);
        }
    }
    lines
}

/// Boxes from top to bottom, none overlapping the next.
pub open spec fn ordered(lines: Seq<TextLine>) -> bool {
    forall|i: int, j: int|
        #![trigger lines[i], lines[j]]
        0 <= i < j < lines.len() ==> lines[i].bottom < lines[j].top
}

/// Whether the space between two boxes is no higher than either box is high
/// and wide.
pub open spec fn adjoin(a: TextLine, b: TextLine) -> bool {
    let space = b.top - a.bottom - 1;
    &&& space <= a.bottom - a.top + 1
    &&& space <= b.bottom - b.top + 1
    &&& space <= a.right - a.left + 1
    &&& space <= b.right - b.left + 1
}

/// Two boxes as one.
pub open spec fn joined(a: TextLine, b: TextLine) -> TextLine {
    TextLine {
        top: a.top,
        bottom: b.bottom,
        left: if a.left <= b.left {
            a.left
        } else {
            b.left
        },
        right: if a.right >= b.right {
            a.right
        } else {
            b.right
        },
    }
}

/// Boxes joined with those below them, from box `k` upwards. A joined box is
/// tried again with the one now below it.
pub open spec fn merged(lines: Seq<TextLine>, k: int) -> Seq<TextLine>
    decreases lines.len(), k + 1,
{
    if k < 0 || k + 1 >= lines.len() {
        lines
    } else if adjoin(lines[k], lines[k + 1]) {
        let fewer = lines.update(k, joined(lines[k], lines[k + 1])).remove(k + 1);
        merged(
            fewer,
            if k == fewer.len() - 1 {
                k - 1
            } else {
                k
            },
        )
    } else {
        merged(lines, k - 1)
    }
}

/// Joins text lines that are close to each other.
pub(crate) fn merge_lines(lines: &mut Vec<TextLine>, Ghost(w): Ghost<int>, Ghost(h): Ghost<int>)
    requires
        w <= 0x7fff_ffff,
        h <= 0x7fff_ffff,
        ordered(old(lines)@),
        forall|i: int| 0 <= i < old(lines)@.len() ==> in_frame(#[trigger] old(lines)@[i], w, h),
    ensures
        final(lines)@ == merged(old(lines)@, old(lines)@.len() - 2),
        forall|i: int| 0 <= i < final(lines)@.len() ==> in_frame(#[trigger] final(lines)@[i], w, h),
{
    let ghost goal = merged(lines@, lines@.len() - 2);
    if lines.len() < 2 {
        return;
    }
    // One more than the index of the box to try.
    let mut next: usize = lines.len() - 1;
    while next > 0
        invariant
            w <= 0x7fff_ffff,
            h <= 0x7fff_ffff,
            ordered(lines@),
            forall|i: int| 0 <= i < lines@.len() ==> in_frame(#[trigger] lines@[i], w, h),
            lines@.len() >= 1,
            next < lines@.len(),
            goal == merged(lines@, next - 1),
        decreases lines@.len(), next,
    {
        let k: usize = next - 1;
        let a: TextLine = lines[k];
        let b: TextLine = lines[k + 1];
        let space: i64 = b.top as i64 - a.bottom as i64 - 1;
        if space <= a.bottom as i64 - a.top as i64 + 1 && space <= b.bottom as i64 - b.top as i64
            + 1 && space <= a.right as i64 - a.left as i64 + 1 && space <= b.right as i64
            - b.left as i64 + 1 {
            let ghost before = lines@;
            let both = TextLine {
                top: a.top,
                bottom: b.bottom,
                left: if a.left <= b.left {
                    a.left
                } else {
                    b.left
                },
                right: if a.right >= b.right {
                    a.right
                } else {
                    b.right
                },
            };
            lines.set(k, both);
            lines.remove(k + 1);
            proof {
                assert(both == joined(a, b));
                assert(before[k as int] == a && before[k + 1] == b);
                assert(a.bottom < b.top);
                assert(in_frame(a, w, h) && in_frame(b, w, h));
                assert forall|i: int| 0 <= i < lines@.len() implies in_frame(
                    #[trigger] lines@[i],
                    w,
                    h,
                ) by {
                    if i < k {
                        assert(lines@[i] == before[i]);
                    } else if i > k {
                        assert(lines@[i] == before[i + 1]);
                    }
                }
                assert forall|i: int, j: int|
                    #![trigger lines@[i], lines@[j]]
                    0 <= i < j < lines@.len() implies lines@[i].bottom < lines@[j].top by {
                    let _ = (before[i], before[i + 1], before[j], before[j + 1]);
                    if i < k {
                        assert(lines@[i] == before[i]);
                    } else if i > k {
                        assert(lines@[i] == before[i + 1]);
                    }
                    if j < k {
                        assert(lines@[j] == before[j]);
                    } else if j > k {
                        assert(lines@[j] == before[j + 1]);
                    }
                }
            }
            if k + 1 == lines.len() {
                next = next - 1;
            }
        } else {
            next = next - 1;
        }
    }
}

} // verus!
