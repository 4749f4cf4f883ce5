//! How the lines of an image are framed and put together.
use super::grid;
use super::lines;
use super::lines::TextLine;
use super::runs;
use vstd::prelude::*;

verus! {

/// Whether the box of a line holds a place.
pub open spec fn holds(t: TextLine, x: int, y: int) -> bool {
    t.left <= x <= t.right && t.top <= y <= t.bottom
}

/// Whether a place of an image is not blank.
pub open spec fn ink(im: Seq<u8>, w: int, x: int, y: int) -> bool {
    im[y * w + x] != 0
}

/// Whether a line holds ink at each of its four sides.
pub open spec fn is_tight(t: TextLine, im: Seq<u8>, w: int) -> bool {
    &&& exists|x: int| t.left <= x <= t.right && #[trigger] ink(im, w, x, t.top as int)
    &&& exists|x: int| t.left <= x <= t.right && #[trigger] ink(im, w, x, t.bottom as int)
    &&& exists|y: int| t.top <= y <= t.bottom && #[trigger] ink(im, w, t.left as int, y)
    &&& exists|y: int| t.top <= y <= t.bottom && #[trigger] ink(im, w, t.right as int, y)
}

proof fn lemma_left(im: Seq<u8>, w: int, r: (i32, i32), x: int) -> (m: int)
    requires
        lines::inked(im, w, r, x),
    ensures
        lines::is_left(im, w, r, m),
    decreases x,
{
    if exists|k: int| k < x && #[trigger] lines::inked(im, w, r, k) {
        let k = choose|k: int| k < x && #[trigger] lines::inked(im, w, r, k);
        lemma_left(im, w, r, k)
    } else {
        x
    }
}

proof fn lemma_right(im: Seq<u8>, w: int, r: (i32, i32), x: int) -> (m: int)
    requires
        lines::inked(im, w, r, x),
    ensures
        lines::is_right(im, w, r, m),
    decreases w - x,
{
    if exists|k: int| k > x && #[trigger] lines::inked(im, w, r, k) {
        let k = choose|k: int| k > x && #[trigger] lines::inked(im, w, r, k);
        lemma_right(im, w, r, k)
    } else {
        x
    }
}

proof fn lemma_line(im: Seq<u8>, w: int, h: int, r: (i32, i32))
    requires
        0 <= w <= 0x7fff_ffff,
        0 <= r.0 <= r.1 < h,
        forall|y: int| r.0 <= y <= r.1 ==> #[trigger] lines::busy_row(im, w, y),
    ensures
        ({
            let t = lines::line_of(im, w, r);
            &&& t.top == r.0
            &&& t.bottom == r.1
            &&& 0 <= t.left <= t.right < w
            &&& is_tight(t, im, w)
            &&& forall|x: int, y: int|
                0 <= x < w && r.0 <= y <= r.1 && #[trigger] ink(im, w, x, y) ==> t.left <= x
                    <= t.right
        }),
{
    let t = lines::line_of(im, w, r);
    assert(lines::busy_row(im, w, r.0 as int));
    assert(lines::busy_row(im, w, r.1 as int));
    let a = choose|x: int| 0 <= x < w && #[trigger] grid::at(im, w, x, r.0 as int) != 0;
    let b = choose|x: int| 0 <= x < w && #[trigger] grid::at(im, w, x, r.1 as int) != 0;
    assert(lines::inked(im, w, r, a));
    assert(lines::inked(im, w, r, b));
    let l0 = lemma_left(im, w, r, a);
    let r0 = lemma_right(im, w, r, a);
    let l = choose|x: int| lines::is_left(im, w, r, x);
    let m = choose|x: int| lines::is_right(im, w, r, x);
    assert(lines::is_left(im, w, r, l));
    assert(lines::is_right(im, w, r, m));
    assert(t.left == l && t.right == m);
    assert forall|x: int, y: int|
        0 <= x < w && r.0 <= y <= r.1 && #[trigger] ink(im, w, x, y) implies t.left <= x
        <= t.right by {
        assert(grid::at(im, w, x, y) != 0);
        assert(lines::inked(im, w, r, x));
    }
    assert(ink(im, w, a, r.0 as int));
    assert(ink(im, w, b, r.1 as int));
    let yl = choose|y: int| r.0 <= y <= r.1 && #[trigger] grid::at(im, w, l, y) != 0;
    assert(ink(im, w, t.left as int, yl));
    let yr = choose|y: int| r.0 <= y <= r.1 && #[trigger] grid::at(im, w, m, y) != 0;
    assert(ink(im, w, t.right as int, yr));
}

/// All ink of an image lies in a line. The lines are no larger than their ink, and
/// one begins below a blank row behind the other.
pub proof fn lines_frame_all_ink(im: Seq<u8>, w: int, h: int)
    requires
        0 <= w <= 0x7fff_ffff,
        0 <= h <= 0x7fff_ffff,
    ensures
        ({
            let ts = lines::text_lines(im, w, h);
            &&& forall|x: int, y: int|
                0 <= x < w && 0 <= y < h && #[trigger] ink(im, w, x, y) ==> exists|k: int|
                    0 <= k < ts.len() && holds(#[trigger] ts[k], x, y)
            &&& forall|k: int| 0 <= k < ts.len() ==> is_tight(#[trigger] ts[k], im, w)
            &&& forall|i: int, j: int|
                0 <= i < j < ts.len() ==> (#[trigger] ts[i]).bottom + 1 < (#[trigger] ts[j]).top
        }),
{
    let marks = lines::busy_rows(im, w, h);
    let rs = runs::runs(marks);
    let ts = lines::text_lines(im, w, h);
    runs::runs_cover(marks);
    assert forall|k: int| 0 <= k < rs.len() implies {
        &&& 0 <= (#[trigger] rs[k]).0 <= rs[k].1 < h
        &&& forall|y: int| rs[k].0 <= y <= rs[k].1 ==> #[trigger] lines::busy_row(im, w, y)
    } by {
        assert(0 <= rs[k].0 <= rs[k].1 < h);
        assert forall|y: int| rs[k].0 <= y <= rs[k].1 implies #[trigger] lines::busy_row(
            im,
            w,
            y,
        ) by {
            assert(runs::in_run(rs[k], y));
            assert(marks[y]);
        }
    }
    assert forall|x: int, y: int|
        0 <= x < w && 0 <= y < h && #[trigger] ink(im, w, x, y) implies exists|k: int|
        0 <= k < ts.len() && holds(#[trigger] ts[k], x, y) by {
        assert(grid::at(im, w, x, y) != 0);
        assert(marks[y]);
        let k = choose|k: int|
            #![trigger rs[k]]
            0 <= k < rs.len() && runs::in_run(rs[k], y);
        lemma_line(im, w, h, rs[k]);
        assert(holds(ts[k], x, y));
    }
    assert forall|k: int| 0 <= k < ts.len() implies is_tight(#[trigger] ts[k], im, w) by {
        assert(0 <= rs[k].0 <= rs[k].1 < h);
        lemma_line(im, w, h, rs[k]);
    }
    assert forall|i: int, j: int| 0 <= i < j < ts.len() implies (#[trigger] ts[i]).bottom + 1 < (
    #[trigger] ts[j]).top by {
        assert(rs[i].1 + 1 < rs[j].0);
    }
}

/// Whether the space between two lines is no larger than either of them, across or
/// down.
pub open spec fn close(a: TextLine, b: TextLine) -> bool {
    let space = b.top - a.bottom - 1;
    &&& space <= a.bottom - a.top + 1 && space <= a.right - a.left + 1
    &&& space <= b.bottom - b.top + 1 && space <= b.right - b.left + 1
}

/// Whether one line holds another one.
pub open spec fn encloses(big: TextLine, t: TextLine) -> bool {
    big.top <= t.top && t.bottom <= big.bottom && big.left <= t.left && t.right <= big.right
}

/// Whether a line lies in one of some others.
pub open spec fn is_enclosed(ts: Seq<TextLine>, t: TextLine) -> bool {
    exists|k: int| 0 <= k < ts.len() && encloses(#[trigger] ts[k], t)
}

/// Whether each line has a height and follows the one before it.
pub open spec fn are_stacked(ts: Seq<TextLine>) -> bool {
    &&& forall|i: int| 0 <= i < ts.len() ==> (#[trigger] ts[i]).top <= ts[i].bottom
    &&& forall|i: int, j: int|
        0 <= i < j < ts.len() ==> (#[trigger] ts[i]).bottom < (#[trigger] ts[j]).top
}

proof fn lemma_join(ts: Seq<TextLine>, k: int)
    requires
        0 <= k,
        k + 1 < ts.len(),
        are_stacked(ts),
    ensures
        ({
            let r = ts.update(k, lines::joined(ts[k], ts[k + 1])).remove(k + 1);
            &&& r.len() == ts.len() - 1
            &&& are_stacked(r)
            &&& r[k] == lines::joined(ts[k], ts[k + 1])
            &&& forall|i: int| 0 <= i < k ==> #[trigger] r[i] == ts[i]
            &&& forall|i: int| k < i < r.len() ==> #[trigger] r[i] == ts[i + 1]
            &&& forall|t: TextLine| #[trigger] is_enclosed(ts, t) ==> is_enclosed(r, t)
        }),
{
    let r = ts.update(k, lines::joined(ts[k], ts[k + 1])).remove(k + 1);
    assert(ts[k].top <= ts[k].bottom && ts[k].bottom < ts[k + 1].top && ts[k + 1].top <= ts[k
        + 1].bottom);
    assert forall|i: int, j: int| 0 <= i < j < r.len() implies (#[trigger] r[i]).bottom < (
    #[trigger] r[j]).top by {
        let a = if i < k {
            i
        } else {
            i + 1
        };
        let b = if j <= k {
            j
        } else {
            j + 1
        };
        assert(r[i].bottom == ts[a].bottom && r[j].top == ts[b].top);
    }
    assert forall|i: int| 0 <= i < r.len() implies (#[trigger] r[i]).top <= r[i].bottom by {
        if i < k {
            assert(r[i] == ts[i]);
        } else if i > k {
            assert(r[i] == ts[i + 1]);
        }
    }
    assert forall|t: TextLine| #[trigger] is_enclosed(ts, t) implies is_enclosed(r, t) by {
        let i = choose|i: int| 0 <= i < ts.len() && encloses(#[trigger] ts[i], t);
        if i < k {
            assert(encloses(r[i], t));
        } else if i <= k + 1 {
            assert(encloses(r[k], t));
        } else {
            assert(encloses(r[i - 1], t));
        }
    }
}

proof fn lemma_merged(ts: Seq<TextLine>, k: int)
    requires
        -1 <= k,
        k + 1 < ts.len() || k == -1,
        are_stacked(ts),
        forall|i: int| #![trigger ts[i]] k < i && i + 1 < ts.len() ==> !close(ts[i], ts[i + 1]),
    ensures
        ({
            let r = lines::merged(ts, k);
            &&& are_stacked(r)
            &&& r.len() <= ts.len()
            &&& forall|i: int| #![trigger r[i]] 0 <= i < r.len() - 1 ==> !close(r[i], r[i + 1])
            &&& forall|t: TextLine| #[trigger] is_enclosed(ts, t) ==> is_enclosed(r, t)
        }),
        (forall|i: int| #![trigger ts[i]] 0 <= i && i + 1 < ts.len() ==> !close(ts[i], ts[i + 1]))
            ==> lines::merged(ts, k) == ts,
    decreases ts.len(), k + 1,
{
    if k >= 0 {
        assert(lines::adjoin(ts[k], ts[k + 1]) == close(ts[k], ts[k + 1]));
        if close(ts[k], ts[k + 1]) {
            lemma_join(ts, k);
            let r = ts.update(k, lines::joined(ts[k], ts[k + 1])).remove(k + 1);
            let k1 = if k == r.len() - 1 {
                k - 1
            } else {
                k
            };
            assert forall|i: int| #![trigger r[i]] k1 < i && i + 1 < r.len() implies !close(
                r[i],
                r[i + 1],
            ) by {
                assert(r[i] == ts[i + 1] && r[i + 1] == ts[i + 2]);
                assert(!close(ts[i + 1], ts[i + 2]));
            }
            lemma_merged(r, k1);
        } else {
            lemma_merged(ts, k - 1);
        }
    }
}

/// Lines that are close to one another become one, which holds them both, until no
/// two neighbours are close. Lines that are not close stay as they are.
pub proof fn close_lines_become_one(ts: Seq<TextLine>)
    requires
        are_stacked(ts),
    ensures
        ({
            let r = lines::merged(ts, ts.len() - 2);
            &&& are_stacked(r)
            &&& r.len() <= ts.len()
            &&& forall|i: int| #![trigger r[i]] 0 <= i < r.len() - 1 ==> !close(r[i], r[i + 1])
            &&& forall|i: int| 0 <= i < ts.len() ==> is_enclosed(r, #[trigger] ts[i])
            &&& (forall|i: int|
                #![trigger ts[i]]
                0 <= i < ts.len() - 1 ==> !close(ts[i], ts[i + 1])) ==> r == ts
        }),
{
    let r = lines::merged(ts, ts.len() - 2);
    if ts.len() >= 1 {
        lemma_merged(ts, ts.len() - 2);
    }
    assert forall|i: int| 0 <= i < ts.len() implies is_enclosed(r, #[trigger] ts[i]) by {
        assert(encloses(ts[i], ts[i]));
        assert(is_enclosed(ts, ts[i]));
    }
}

/// Two close lines become the box that holds them both, and no more.
pub proof fn two_close_lines_become_their_box(a: TextLine, b: TextLine)
    requires
        close(a, b),
    ensures
        ({
            let r = lines::merged(seq![a, b], 0);
            &&& r.len() == 1
            &&& r[0].top == a.top
            &&& r[0].bottom == b.bottom
            &&& r[0].left <= a.left && r[0].left <= b.left
            &&& r[0].left == a.left || r[0].left == b.left
            &&& r[0].right >= a.right && r[0].right >= b.right
            &&& r[0].right == a.right || r[0].right == b.right
        }),
{
    let ts = seq![a, b];
    let r = ts.update(0, lines::joined(a, b)).remove(1);
    assert(lines::adjoin(ts[0], ts[1]));
    assert(r =~= seq![lines::joined(a, b)]);
    assert(lines::merged(r, -1) == r);
}

} // verus!
