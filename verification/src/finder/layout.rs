//! How the lines of a text are told apart.
use super::bands;
use super::grid;
use super::runs;
use super::stretches;
use vstd::prelude::*;

verus! {

/// Whether a row of an image has a white pixel.
pub open spec fn lit(im: Seq<u8>, w: int, y: int) -> bool {
    exists|x: int| 0 <= x < w && #[trigger] im[y * w + x] == 255
}

/// Whether a row lies in one of the bands.
pub open spec fn banded(b: Seq<(i32, i32)>, y: int) -> bool {
    exists|i: int| 0 <= i < b.len() && (#[trigger] b[i]).0 <= y <= b[i].1
}

/// Whether the bands follow one another, hold all white rows, and begin and end
/// with one.
pub open spec fn frame_rows(b: Seq<(i32, i32)>, im: Seq<u8>, w: int, h: int) -> bool {
    &&& runs::separated(b, h)
    &&& forall|y: int| 0 <= y < h && lit(im, w, y) ==> #[trigger] banded(b, y)
    &&& forall|i: int|
        0 <= i < b.len() ==> lit(im, w, (#[trigger] b[i]).0 as int) && lit(im, w, b[i].1 as int)
}

/// Whether nine rows in succession hold a white one.
pub open spec fn lit_within(im: Seq<u8>, w: int, y: int) -> bool {
    exists|z: int| y <= z <= y + 8 && #[trigger] lit(im, w, z)
}

/// Whether no band holds more than eight blank rows in succession.
pub open spec fn no_wide_gap(b: Seq<(i32, i32)>, im: Seq<u8>, w: int) -> bool {
    forall|i: int, y: int|
        #![trigger b[i], lit_within(im, w, y)]
        0 <= i < b.len() && b[i].0 <= y && y + 8 <= b[i].1 ==> lit_within(im, w, y)
}

/// Whether all bands are higher than some number of rows.
pub open spec fn all_higher(b: Seq<(i32, i32)>, n: int) -> bool {
    forall|i: int| 0 <= i < b.len() ==> (#[trigger] b[i]).1 - b[i].0 + 1 > n
}

/// Whether neighbouring bands are told apart: by more than eight blank rows
/// between them, or by the height of both.
pub open spec fn told_apart(b: Seq<(i32, i32)>, i: int, segh: int) -> bool {
    ||| b[i + 1].0 - b[i].1 > 9
    ||| b[i].1 - b[i].0 + 1 > 2 * segh && b[i + 1].1 - b[i + 1].0 + 1 > 2 * segh
}

proof fn lemma_lit(im: Seq<u8>, w: int, y: int)
    ensures
        lit(im, w, y) == bands::white_row(im, w, y),
{
    if lit(im, w, y) {
        let x = choose|x: int| 0 <= x < w && #[trigger] im[y * w + x] == 255;
        assert(grid::at(im, w, x, y) == 255);
    }
    if bands::white_row(im, w, y) {
        let x = choose|x: int| 0 <= x < w && #[trigger] grid::at(im, w, x, y) == 255;
        assert(im[y * w + x] == 255);
    }
}

proof fn lemma_runs(im: Seq<u8>, w: int, h: int)
    requires
        0 <= h <= 0x7fff_ffff,
    ensures
        frame_rows(bands::white_bands(im, w, h), im, w, h),
        no_wide_gap(bands::white_bands(im, w, h), im, w),
        forall|i: int, y: int|
            #![trigger bands::white_bands(im, w, h)[i], lit(im, w, y)]
            0 <= i < bands::white_bands(im, w, h).len() && bands::white_bands(im, w, h)[i].0 <= y
                <= bands::white_bands(im, w, h)[i].1 ==> lit(im, w, y),
{
    let m = Seq::new(h as nat, |y: int| bands::white_row(im, w, y));
    let b = bands::white_bands(im, w, h);
    runs::runs_cover(m);
    assert forall|y: int| 0 <= y < h && lit(im, w, y) implies #[trigger] banded(b, y) by {
        lemma_lit(im, w, y);
        assert(m[y]);
        let i = choose|i: int|
            #![trigger b[i]]
            0 <= i < b.len() && runs::in_run(b[i], y);
        assert(b[i].0 <= y <= b[i].1);
    }
    assert forall|i: int, y: int|
        #![trigger b[i], lit(im, w, y)]
        0 <= i < b.len() && b[i].0 <= y <= b[i].1 implies lit(im, w, y) by {
        assert(runs::in_run(b[i], y));
        assert(0 <= b[i].0 <= b[i].1 < h);
        assert(m[y]);
        lemma_lit(im, w, y);
    }
    assert forall|i: int| 0 <= i < b.len() implies lit(im, w, (#[trigger] b[i]).0 as int) && lit(
        im,
        w,
        b[i].1 as int,
    ) by {
        assert(0 <= b[i].0 <= b[i].1 < h);
    }
    assert forall|i: int, y: int|
        #![trigger b[i], lit_within(im, w, y)]
        0 <= i < b.len() && b[i].0 <= y && y + 8 <= b[i].1 implies lit_within(im, w, y) by {
        assert(lit(im, w, y));
    }
}

#[verifier::spinoff_prover]
#[verifier::rlimit(60)]
proof fn lemma_join(b: Seq<(i32, i32)>, l: int, im: Seq<u8>, w: int, h: int)
    requires
        0 <= l < b.len() - 1,
        frame_rows(b, im, w, h),
    ensures
        ({
            let c = bands::joined_down(b, l);
            &&& c.len() == b.len() - 1
            &&& frame_rows(c, im, w, h)
            &&& c == bands::joined_up(b, l + 1)
            &&& c[l] == (b[l].0, b[l + 1].1)
            &&& forall|i: int| 0 <= i < l ==> #[trigger] c[i] == b[i]
            &&& forall|i: int| l < i < c.len() ==> #[trigger] c[i] == b[i + 1]
            &&& b[l].1 < b[l + 1].0
        }),
{
    let c = bands::joined_down(b, l);
    assert(c =~= bands::joined_up(b, l + 1));
    assert(b[l].1 + 1 < b[l + 1].0);
    assert forall|i: int, j: int|
        #![trigger c[i], c[j]]
        0 <= i < j < c.len() implies c[i].1 + 1 < c[j].0 by {
        let p = if i < l {
            i
        } else {
            i + 1
        };
        let q = if j <= l {
            j
        } else {
            j + 1
        };
        assert(c[i].1 == b[p].1);
        assert(c[j].0 == b[q].0);
        assert(p < q);
    }
    assert forall|i: int|
        #![trigger c[i]]
        0 <= i < c.len() implies 0 <= c[i].0 <= c[i].1 < h by {
        if i == l {
            assert(0 <= b[l].0 <= b[l].1 < h);
            assert(0 <= b[l + 1].0 <= b[l + 1].1 < h);
        } else if i < l {
            assert(c[i] == b[i]);
        } else {
            assert(c[i] == b[i + 1]);
        }
    }
    assert forall|y: int| 0 <= y < h && lit(im, w, y) implies #[trigger] banded(c, y) by {
        assert(banded(b, y));
        let i = choose|i: int| 0 <= i < b.len() && (#[trigger] b[i]).0 <= y <= b[i].1;
        if i < l {
            assert(c[i] == b[i]);
        } else if i <= l + 1 {
            assert(0 <= b[l].0 <= b[l].1 < h);
            assert(0 <= b[l + 1].0 <= b[l + 1].1 < h);
            assert(c[l].0 <= y <= c[l].1);
        } else {
            assert(c[i - 1] == b[i]);
        }
    }
    assert forall|i: int| 0 <= i < c.len() implies lit(im, w, (#[trigger] c[i]).0 as int) && lit(
        im,
        w,
        c[i].1 as int,
    ) by {
        if i < l {
            assert(c[i] == b[i]);
        } else if i == l {
            assert(lit(im, w, b[l].0 as int));
            assert(lit(im, w, b[l + 1].1 as int));
        } else {
            assert(c[i] == b[i + 1]);
        }
    }
}

proof fn lemma_low(b: Seq<(i32, i32)>, l: int, segh: int, im: Seq<u8>, w: int, h: int)
    requires
        0 <= l,
        frame_rows(b, im, w, h),
        forall|i: int| 0 <= i < l && i < b.len() ==> (#[trigger] b[i]).1 - b[i].0 + 1 > segh,
    ensures
        frame_rows(bands::low_joined(b, l, segh), im, w, h),
        bands::low_joined(b, l, segh).len() <= 1 || all_higher(
            bands::low_joined(b, l, segh),
            segh,
        ),
        all_higher(b, segh) ==> bands::low_joined(b, l, segh) == b,
    decreases b.len(), b.len() - l,
{
    if l >= b.len() || b.len() <= 1 {
    } else if bands::height(b[l]) <= segh {
        assert(!(b[l].1 - b[l].0 + 1 > segh));
        if bands::joins_down(b, l) {
            lemma_join(b, l, im, w, h);
            let c = bands::joined_down(b, l);
            assert forall|i: int| 0 <= i < l && i < c.len() implies (#[trigger] c[i]).1 - c[i].0 + 1
                > segh by {
                assert(c[i] == b[i]);
            }
            lemma_low(c, l, segh, im, w, h);
        } else {
            lemma_join(b, l - 1, im, w, h);
            let c = bands::joined_up(b, l);
            assert(0 <= b[l].0 <= b[l].1 < h);
            assert forall|i: int| 0 <= i < l && i < c.len() implies (#[trigger] c[i]).1 - c[i].0 + 1
                > segh by {
                if i < l - 1 {
                    assert(c[i] == b[i]);
                } else {
                    assert(b[l - 1].1 - b[l - 1].0 + 1 > segh);
                }
            }
            lemma_low(c, l, segh, im, w, h);
        }
    } else {
        lemma_low(b, l + 1, segh, im, w, h);
    }
}

proof fn lemma_gap(b: Seq<(i32, i32)>, l: int, im: Seq<u8>, w: int, h: int)
    requires
        0 <= l < b.len() - 1,
        frame_rows(b, im, w, h),
        no_wide_gap(b, im, w),
        b[l + 1].0 - b[l].1 <= 9,
    ensures
        no_wide_gap(bands::joined_down(b, l), im, w),
{
    let c = bands::joined_down(b, l);
    lemma_join(b, l, im, w, h);
    assert forall|i: int, y: int|
        #![trigger c[i], lit_within(im, w, y)]
        0 <= i < c.len() && c[i].0 <= y && y + 8 <= c[i].1 implies lit_within(im, w, y) by {
        if i < l {
            assert(c[i] == b[i]);
        } else if i > l {
            assert(c[i] == b[i + 1]);
        } else {
            assert(lit(im, w, b[l].1 as int));
            assert(lit(im, w, b[l + 1].0 as int));
            if y + 8 <= b[l].1 {
                assert(b[l].0 <= y);
            } else if y >= b[l + 1].0 {
                assert(y + 8 <= b[l + 1].1);
            } else if y <= b[l].1 {
                assert(y <= b[l].1 <= y + 8);
            } else {
                assert(y <= b[l + 1].0 <= y + 8);
            }
        }
    }
}

#[verifier::spinoff_prover]
#[verifier::rlimit(60)]
proof fn lemma_near(b: Seq<(i32, i32)>, l: int, segh: int, im: Seq<u8>, w: int, h: int)
    requires
        0 <= l,
        frame_rows(b, im, w, h),
        forall|i: int| 0 <= i < l && i + 1 < b.len() ==> #[trigger] told_apart(b, i, segh),
    ensures
        ({
            let r = bands::near_joined(b, l, segh);
            &&& frame_rows(r, im, w, h)
            &&& forall|i: int| 0 <= i < r.len() - 1 ==> #[trigger] told_apart(r, i, segh)
            &&& all_higher(b, segh) ==> all_higher(r, segh)
            &&& all_higher(b, 2 * segh) ==> r == b
            &&& no_wide_gap(b, im, w) ==> no_wide_gap(r, im, w)
            &&& r.len() <= b.len()
        }),
    decreases b.len(), b.len() - l,
{
    if l + 1 >= b.len() {
    } else if bands::near(b, l, segh) {
        lemma_join(b, l, im, w, h);
        let c = bands::joined_down(b, l);
        assert(0 <= b[l].0 <= b[l].1 < h);
        assert(0 <= b[l + 1].0 <= b[l + 1].1 < h);
        assert forall|i: int| 0 <= i < l && i + 1 < c.len() implies #[trigger] told_apart(
            c,
            i,
            segh,
        ) by {
            assert(told_apart(b, i, segh));
            assert(c[i] == b[i]);
            if i + 1 < l {
                assert(c[i + 1] == b[i + 1]);
            }
        }
        if no_wide_gap(b, im, w) {
            lemma_gap(b, l, im, w, h);
        }
        if all_higher(b, segh) {
            assert forall|i: int| 0 <= i < c.len() implies (#[trigger] c[i]).1 - c[i].0 + 1
                > segh by {
                if i < l {
                    assert(c[i] == b[i]);
                } else if i == l {
                    assert(b[l].1 - b[l].0 + 1 > segh);
                } else {
                    assert(c[i] == b[i + 1]);
                }
            }
        }
        if all_higher(b, 2 * segh) {
            assert(b[l].1 - b[l].0 + 1 > 2 * segh);
            assert(b[l + 1].1 - b[l + 1].0 + 1 > 2 * segh);
            assert(false);
        }
        lemma_near(c, l, segh, im, w, h);
    } else {
        assert(told_apart(b, l, segh));
        lemma_near(b, l + 1, segh, im, w, h);
    }
}

/// The lines hold all white rows, begin and end with one, and are told apart: two
/// neighbours have more than eight blank rows between them or are both more than
/// twice as high as a line must be. Where there is more than one, each is higher
/// than a line must be.
pub proof fn every_white_row_is_in_a_line(im: Seq<u8>, w: int, h: int, segh: int)
    requires
        0 <= h <= 0x7fff_ffff,
    ensures
        ({
            let r = bands::lines_info(im, w, h, segh);
            &&& frame_rows(r, im, w, h)
            &&& forall|i: int| 0 <= i < r.len() - 1 ==> #[trigger] told_apart(r, i, segh)
            &&& r.len() > 1 ==> all_higher(r, segh)
        }),
{
    let b = bands::white_bands(im, w, h);
    lemma_runs(im, w, h);
    lemma_low(b, 0, segh, im, w, h);
    let c = bands::low_joined(b, 0, segh);
    lemma_near(c, 0, segh, im, w, h);
}

/// Whether the bands are the stretches of white rows: all their rows are white,
/// and the rows before and after each are not.
pub open spec fn are_stretches(b: Seq<(i32, i32)>, im: Seq<u8>, w: int, h: int) -> bool {
    &&& frame_rows(b, im, w, h)
    &&& forall|i: int, y: int|
        #![trigger b[i], lit(im, w, y)]
        0 <= i < b.len() && b[i].0 <= y <= b[i].1 ==> lit(im, w, y)
}

/// High enough stretches of white rows are lines of their own: where all are
/// higher than a line must be, no more than eight blank rows in succession lie in
/// a line, and where all are more than twice as high, the lines are the stretches.
pub proof fn high_stretches_stay_lines(
    im: Seq<u8>,
    w: int,
    h: int,
    segh: int,
    stretches: Seq<(i32, i32)>,
)
    requires
        0 <= h <= 0x7fff_ffff,
        0 <= segh,
        are_stretches(stretches, im, w, h),
        all_higher(stretches, segh),
    ensures
        no_wide_gap(bands::lines_info(im, w, h, segh), im, w),
        all_higher(stretches, 2 * segh) ==> bands::lines_info(im, w, h, segh) == stretches,
{
    let b = bands::white_bands(im, w, h);
    lemma_runs(im, w, h);
    lemma_same_stretches(b, stretches, im, w, h);
    lemma_low(b, 0, segh, im, w, h);
    lemma_near(b, 0, segh, im, w, h);
}

proof fn lemma_generic(b: Seq<(i32, i32)>, im: Seq<u8>, w: int, h: int)
    requires
        are_stretches(b, im, w, h),
    ensures
        stretches::are_stretches(b, |y: int| lit(im, w, y), h),
{
    let f = |y: int| lit(im, w, y);
    assert forall|y: int| 0 <= y < h && f(y) implies #[trigger] stretches::within(b, y) by {
        assert(banded(b, y));
        let i = choose|i: int| 0 <= i < b.len() && (#[trigger] b[i]).0 <= y <= b[i].1;
    }
    assert forall|i: int, y: int|
        #![trigger b[i], f(y)]
        0 <= i < b.len() && b[i].0 <= y <= b[i].1 implies f(y) by {
        assert(lit(im, w, y));
    }
}

proof fn lemma_same_stretches(
    a: Seq<(i32, i32)>,
    b: Seq<(i32, i32)>,
    im: Seq<u8>,
    w: int,
    h: int,
)
    requires
        are_stretches(a, im, w, h),
        are_stretches(b, im, w, h),
    ensures
        a == b,
{
    let f = |y: int| lit(im, w, y);
    lemma_generic(a, im, w, h);
    lemma_generic(b, im, w, h);
    stretches::stretches_are_unique(a, b, f, h);
}

/// A stretch of white rows that is too low for a line, between two that are more
/// than twice as high as a line must be, belongs to the nearer one, to the lower
/// one where both are as near.
#[verifier::spinoff_prover]
#[verifier::rlimit(60)]
pub proof fn low_stretches_join_the_nearer_line(
    im: Seq<u8>,
    w: int,
    h: int,
    segh: int,
    stretches: Seq<(i32, i32)>,
)
    requires
        0 <= h <= 0x7fff_ffff,
        0 <= segh,
        are_stretches(stretches, im, w, h),
        stretches.len() == 3,
        stretches[0].1 - stretches[0].0 + 1 > 2 * segh,
        stretches[1].1 - stretches[1].0 + 1 <= segh,
        stretches[2].1 - stretches[2].0 + 1 > 2 * segh,
    ensures
        ({
            let above = stretches[1].0 - stretches[0].1;
            let below = stretches[2].0 - stretches[1].1;
            bands::lines_info(im, w, h, segh) == if below <= above {
                seq![stretches[0], (stretches[1].0, stretches[2].1)]
            } else {
                seq![(stretches[0].0, stretches[1].1), stretches[2]]
            }
        }),
{
    let b = bands::white_bands(im, w, h);
    lemma_runs(im, w, h);
    lemma_same_stretches(b, stretches, im, w, h);
    assert(0 <= b[0].0 <= b[0].1 < h);
    assert(0 <= b[1].0 <= b[1].1 < h);
    assert(0 <= b[2].0 <= b[2].1 < h);
    assert(b[0].1 + 1 < b[1].0);
    assert(b[1].1 + 1 < b[2].0);
    let above = b[1].0 - b[0].1;
    let below = b[2].0 - b[1].1;
    let c = if below <= above {
        seq![b[0], (b[1].0, b[2].1)]
    } else {
        seq![(b[0].0, b[1].1), b[2]]
    };
    assert(bands::low_joined(b, 0, segh) == bands::low_joined(b, 1, segh));
    if below <= above {
        lemma_join(b, 1, im, w, h);
        assert(bands::joined_down(b, 1) =~= c);
        assert(bands::low_joined(b, 1, segh) == bands::low_joined(c, 1, segh));
    } else {
        lemma_join(b, 0, im, w, h);
        assert(bands::joined_up(b, 1) =~= c);
        assert(bands::low_joined(b, 1, segh) == bands::low_joined(c, 1, segh));
    }
    assert(frame_rows(c, im, w, h));
    assert(all_higher(c, 2 * segh)) by {
        assert(c.len() == 2);
    }
    assert(all_higher(c, segh)) by {
        assert forall|i: int| 0 <= i < c.len() implies (#[trigger] c[i]).1 - c[i].0 + 1 > segh by {
            assert(c[i].1 - c[i].0 + 1 > 2 * segh);
        }
    }
    lemma_low(c, 1, segh, im, w, h);
    lemma_near(c, 0, segh, im, w, h);
}

} // verus!
