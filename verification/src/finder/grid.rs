//! Row-major pixel indices.

use vstd::arithmetic::div_mod::*;
use vstd::arithmetic::mul::*;
use vstd::prelude::*;

verus! {

/// The column of pixel `i` in an image of width `w`.
pub open spec fn col(i: int, w: int) -> int {
    i % w
}

/// The row of pixel `i` in an image of width `w`.
pub open spec fn row(i: int, w: int) -> int {
    i / w
}

/// The pixel in column `x` of row `y`.
pub open spec fn at<T>(im: Seq<T>, w: int, x: int, y: int) -> T {
    im[y * w + x]
}

/// The number of white pixels.
pub open spec fn whites(im: Seq<u8>) -> nat
    decreases im.len(),
{
    if im.len() == 0 {
        0
    } else {
        whites(im.drop_last()) + if im.last() == 255 {
            1nat
        } else {
            0
        }
    }
}

/// The number of pixels that are not blank.
pub open spec fn marked(im: Seq<u8>) -> nat
    decreases im.len(),
{
    if im.len() == 0 {
        0
    } else {
        marked(im.drop_last()) + if im.last() != 0 {
            1nat
        } else {
            0
        }
    }
}

/// Whether `b` is `a` with some pixels blanked.
pub open spec fn only_cleared(a: Seq<u8>, b: Seq<u8>) -> bool {
    &&& a.len() == b.len()
    &&& forall|i: int| 0 <= i < a.len() ==> #[trigger] b[i] == a[i] || b[i] == 0
}

/// Blanking pixels, a white one among them, leaves fewer white pixels.
pub proof fn lemma_fewer_whites(a: Seq<u8>, b: Seq<u8>, k: int)
    requires
        only_cleared(a, b),
        0 <= k < a.len(),
        a[k] == 255,
        b[k] == 0,
    ensures
        whites(b) < whites(a),
    decreases a.len(),
{
    let a1 = a.drop_last();
    let b1 = b.drop_last();
    assert(only_cleared(a1, b1));
    if k < a.len() - 1 {
        lemma_fewer_whites(a1, b1, k);
    } else {
        lemma_no_more_whites(a1, b1);
    }
}

proof fn lemma_no_more_whites(a: Seq<u8>, b: Seq<u8>)
    requires
        only_cleared(a, b),
    ensures
        whites(b) <= whites(a),
    decreases a.len(),
{
    if a.len() > 0 {
        assert(only_cleared(a.drop_last(), b.drop_last()));
        lemma_no_more_whites(a.drop_last(), b.drop_last());
    }
}

/// Blanking pixels never adds a pixel that is not blank, and takes one away
/// when the image changes.
pub proof fn lemma_fewer_marked(a: Seq<u8>, b: Seq<u8>)
    requires
        only_cleared(a, b),
    ensures
        marked(b) <= marked(a),
        a != b ==> marked(b) < marked(a),
    decreases a.len(),
{
    if a.len() > 0 {
        let a1 = a.drop_last();
        let b1 = b.drop_last();
        assert(only_cleared(a1, b1));
        lemma_fewer_marked(a1, b1);
        if a1 == b1 && a.last() == b.last() {
            assert(a =~= a1.push(a.last()));
            assert(b =~= b1.push(b.last()));
        }
    } else {
        assert(a =~= b);
    }
}

/// A frame has at least one column, and its pixels can be counted in 31 bits.
pub open spec fn frame_size(w: int, h: int) -> bool {
    w >= 1 && h >= 0 && w * h <= 0x7fff_ffff
}

pub proof fn lemma_at(x: int, y: int, w: int, h: int)
    requires
        0 <= x < w,
        0 <= y < h,
    ensures
        0 <= y * w,
        0 <= y * w + x < w * h,
        y * w + w <= w * h,
        col(y * w + x, w) == x,
        row(y * w + x, w) == y,
{
    lemma_fundamental_div_mod_converse(y * w + x, w, y, x);
    assert(0 <= y * w && y * w + w <= w * h) by (nonlinear_arith)
        requires
            0 <= y < h,
            0 < w,
    ;
}

pub proof fn lemma_of(i: int, w: int, h: int)
    requires
        0 <= i < w * h,
        0 <= w,
        0 <= h,
    ensures
        0 < w,
        0 < h,
        0 <= col(i, w) < w,
        0 <= row(i, w) < h,
        i == row(i, w) * w + col(i, w),
{
    assert(w > 0 && h > 0) by (nonlinear_arith)
        requires
            0 <= i < w * h,
            0 <= w,
            0 <= h,
    ;
    lemma_fundamental_div_mod(i, w);
    lemma_mul_is_commutative(w, i / w);
    assert(0 <= i / w) by (nonlinear_arith)
        requires
            0 <= i,
            0 < w,
    ;
    assert(i / w < h) by (nonlinear_arith)
        requires
            i < w * h,
            0 < w,
    ;
}

/// A row starts inside the image, and one row further down starts a row later.
pub proof fn lemma_row_start(y: int, w: int, h: int)
    requires
        0 <= y <= h,
        0 <= w,
    ensures
        0 <= y * w <= w * h,
        (y + 1) * w == y * w + w,
{
    assert(0 <= y * w <= w * h && (y + 1) * w == y * w + w) by (nonlinear_arith)
        requires
            0 <= y <= h,
            0 <= w,
    ;
}

/// The sides of a frame fit into 31 bits.
pub proof fn lemma_sides(w: int, h: int)
    requires
        frame_size(w, h),
    ensures
        h <= w * h,
        h <= 0x7fff_ffff,
        h > 0 ==> w <= w * h && w <= 0x7fff_ffff,
{
    assert(h <= w * h) by (nonlinear_arith)
        requires
            w >= 1,
            h >= 0,
    ;
    if h > 0 {
        assert(w <= w * h) by (nonlinear_arith)
            requires
                w >= 1,
                h > 0,
        ;
    }
}

} // verus!
