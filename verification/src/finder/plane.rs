//! Images held in arrays of the `ndarray` crate.
//!
//! A [`Plane`] is an array of rows and columns with one byte for each pixel, a
//! [`Picture`] one of rows, columns and the three channels blue, green and red.

use super::grid;
use vstd::prelude::*;

verus! {

/// An array of rows and columns.
#[verifier::external_body]
pub struct Plane {
    data: ndarray::Array2<u8>,
}

/// The elements of a plane, row by row.
pub uninterp spec fn plane_pixels(p: Plane) -> Seq<u8>;

/// The numbers of rows and columns of a plane.
pub uninterp spec fn plane_size(p: Plane) -> (nat, nat);

/// `ndarray::Array2::from_shape_vec` with the shape `(h, w)`: an array of `h`
/// rows and `w` columns that holds the elements of the vector row by row. The
/// vector has as many elements as the shape, so that the call succeeds.
#[verifier::external_body]
fn plane_from_shape_vec(h: usize, w: usize, v: Vec<u8>) -> (p: Plane)
    requires
        h <= 0x7fff_ffff,
        w <= 0x7fff_ffff,
        v@.len() == h * w,
    ensures
        plane_size(p) == (h as nat, w as nat),
        plane_pixels(p) == v@,
{
    Plane { data: ndarray::Array2::from_shape_vec((h, w), v).expect("shape and length agree") }
}

/// `ndarray::Array2::dim`: the numbers of rows and columns, whose product is
/// the number of elements.
#[verifier::external_body]
fn plane_dim(p: &Plane) -> (r: (usize, usize))
    ensures
        plane_size(*p) == (r.0 as nat, r.1 as nat),
        plane_pixels(*p).len() == r.0 * r.1,
{
    p.data.dim()
}

/// `ndarray`'s indexing of an `Array2`: the element in row `y` and column `x`.
#[verifier::external_body]
fn plane_get(p: &Plane, y: usize, x: usize) -> (v: u8)
    requires
        y < plane_size(*p).0,
        x < plane_size(*p).1,
    ensures
        v == plane_pixels(*p)[y * plane_size(*p).1 + x],
{
    p.data[[y, x]]
}

/// `ndarray`'s indexed assignment to an `Array2`: replaces the element in row
/// `y` and column `x` and keeps everything else.
#[verifier::external_body]
fn plane_set(p: &mut Plane, y: usize, x: usize, v: u8)
    requires
        y < plane_size(*old(p)).0,
        x < plane_size(*old(p)).1,
    ensures
        plane_size(*final(p)) == plane_size(*old(p)),
        plane_pixels(*final(p)) == plane_pixels(*old(p)).update(
            (y * plane_size(*old(p)).1 + x) as int,
            v,
        ),
{
    p.data[[y, x]] = v;
}

/// `ndarray`'s `clone` of an `Array2`: an array of the same shape with the same
/// elements.
#[verifier::external_body]
fn plane_clone(p: &Plane) -> (r: Plane)
    ensures
        plane_size(r) == plane_size(*p),
        plane_pixels(r) == plane_pixels(*p),
{
    Plane { data: p.data.clone() }
}

/// An array of rows, columns and three channels.
#[verifier::external_body]
pub struct Picture {
    data: ndarray::Array3<u8>,
}

/// The elements of a picture, row by row, pixel by pixel.
pub uninterp spec fn picture_bytes(p: Picture) -> Seq<u8>;

/// The numbers of rows and columns of a picture.
pub uninterp spec fn picture_size(p: Picture) -> (nat, nat);

/// `ndarray::Array3::zeros` with the shape `(h, w, 3)`: an array of that shape
/// whose elements are all zero.
#[verifier::external_body]
fn picture_zeros(h: usize, w: usize) -> (p: Picture)
    requires
        h <= 0x7fff_ffff,
        w <= 0x7fff_ffff,
        h * w <= 0x2aaa_aaaa,
        h == 0 ==> w <= 0x2aaa_aaaa,
        w == 0 ==> h <= 0x2aaa_aaaa,
    ensures
        picture_size(p) == (h as nat, w as nat),
        picture_bytes(p) == Seq::new((h * w * 3) as nat, |i: int| 0u8),
{
    Picture { data: ndarray::Array3::zeros((h, w, 3)) }
}

/// `ndarray::Array3::dim`: the numbers of rows and columns. A picture has three
/// channels, so it has three times as many elements as pixels.
#[verifier::external_body]
fn picture_dim(p: &Picture) -> (r: (usize, usize))
    ensures
        picture_size(*p) == (r.0 as nat, r.1 as nat),
        picture_bytes(*p).len() == r.0 * r.1 * 3,
{
    let (h, w, _) = p.data.dim();
    (h, w)
}

/// `ndarray`'s indexing of an `Array3`: the element in row `y`, column `x` and
/// channel `c`.
#[verifier::external_body]
fn picture_get(p: &Picture, y: usize, x: usize, c: usize) -> (v: u8)
    requires
        y < picture_size(*p).0,
        x < picture_size(*p).1,
        c < 3,
    ensures
        v == picture_bytes(*p)[(y * picture_size(*p).1 + x) * 3 + c],
{
    p.data[[y, x, c]]
}

/// `ndarray`'s indexed assignment to an `Array3`: replaces the element in row
/// `y`, column `x` and channel `c` and keeps everything else.
#[verifier::external_body]
fn picture_set(p: &mut Picture, y: usize, x: usize, c: usize, v: u8)
    requires
        y < picture_size(*old(p)).0,
        x < picture_size(*old(p)).1,
        c < 3,
    ensures
        picture_size(*final(p)) == picture_size(*old(p)),
        picture_bytes(*final(p)) == picture_bytes(*old(p)).update(
            (y * picture_size(*old(p)).1 + x) * 3 + c,
            v,
        ),
{
    p.data[[y, x, c]] = v;
}

impl View for Plane {
    type V = Seq<u8>;

    open spec fn view(&self) -> Seq<u8> {
        plane_pixels(*self)
    }
}

impl Plane {
    /// The number of rows.
    pub open spec fn rows(self) -> nat {
        plane_size(self).0
    }

    /// The number of columns.
    pub open spec fn cols(self) -> nat {
        plane_size(self).1
    }

    /// A plane of `h` rows and `w` columns, from its pixels row by row. `None`
    /// when the number of pixels is another, or a side is too long.
    pub fn new(h: usize, w: usize, pixels: Vec<u8>) -> (r: Option<Plane>)
        ensures
            match r {
                Some(p) => {
                    &&& h <= 0x7fff_ffff && w <= 0x7fff_ffff && pixels@.len() == h * w
                    &&& p.rows() == h
                    &&& p.cols() == w
                    &&& p@ == pixels@
                },
                None => h > 0x7fff_ffff || w > 0x7fff_ffff || pixels@.len() != h * w,
            },
    {
        if h > 0x7fff_ffff || w > 0x7fff_ffff {
            return None;
        }
        proof {
            assert(h * w <= 0x7fff_ffff * 0x7fff_ffff) by (nonlinear_arith)
                requires
                    h <= 0x7fff_ffff,
                    w <= 0x7fff_ffff,
            ;
        }
        if pixels.len() as u64 != h as u64 * w as u64 {
            None
        } else {
            Some(plane_from_shape_vec(h, w, pixels))
        }
    }

    /// The numbers of rows and columns.
    pub fn dim(&self) -> (r: (usize, usize))
        ensures
            r.0 == self.rows(),
            r.1 == self.cols(),
            self@.len() == r.0 * r.1,
    {
        plane_dim(self)
    }

    /// The pixel in row `y` and column `x`.
    pub fn get(&self, y: usize, x: usize) -> (v: u8)
        requires
            y < self.rows(),
            x < self.cols(),
        ensures
            v == grid::at(self@, self.cols() as int, x as int, y as int),
    {
        plane_get(self, y, x)
    }

    /// Replaces the pixel in row `y` and column `x`.
    pub fn set(&mut self, y: usize, x: usize, v: u8)
        requires
            y < old(self).rows(),
            x < old(self).cols(),
        ensures
            final(self).rows() == old(self).rows(),
            final(self).cols() == old(self).cols(),
            final(self)@ == old(self)@.update(y * old(self).cols() + x, v),
    {
        plane_set(self, y, x, v)
    }

    /// A plane of the same size with the same pixels.
    pub fn duplicate(&self) -> (r: Plane)
        ensures
            r.rows() == self.rows(),
            r.cols() == self.cols(),
            r@ == self@,
    {
        plane_clone(self)
    }
}

impl View for Picture {
    type V = Seq<u8>;

    open spec fn view(&self) -> Seq<u8> {
        picture_bytes(*self)
    }
}

impl Picture {
    /// The number of rows.
    pub open spec fn rows(self) -> nat {
        picture_size(self).0
    }

    /// The number of columns.
    pub open spec fn cols(self) -> nat {
        picture_size(self).1
    }

    /// The numbers of rows and columns.
    pub fn dim(&self) -> (r: (usize, usize))
        ensures
            r.0 == self.rows(),
            r.1 == self.cols(),
            self@.len() == r.0 * r.1 * 3,
    {
        picture_dim(self)
    }
}

/// A picture from interleaved blue, green and red bytes.
pub fn flat_bgr_to_array3(bgr: &[u8], w: usize, h: usize) -> (p: Picture)
    requires
        grid::frame_size(w as int, h as int),
        w * h <= 0x2aaa_aaaa,
        w <= 0x2aaa_aaaa,
        bgr@.len() >= w * h * 3,
    ensures
        p.rows() == h,
        p.cols() == w,
        p@ == bgr@.take(w * h * 3),
{
    let ghost wi = w as int;
    let ghost hi = h as int;
    proof {
        grid::lemma_sides(wi, hi);
        assert(h * w == w * h) by (nonlinear_arith);
    }
    let mut p: Picture = picture_zeros(h, w);
    let mut y: usize = 0;
    while y < h
        invariant
            grid::frame_size(wi, hi),
            wi == w,
            hi == h,
            w * h <= 0x2aaa_aaaa,
            bgr@.len() >= w * h * 3,
            p.rows() == h,
            p.cols() == w,
            p@.len() == w * h * 3,
            y <= h,
            forall|i: int| 0 <= i < y * w * 3 ==> #[trigger] p@[i] == bgr@[i],
        decreases h - y,
    {
        let mut x: usize = 0;
        proof {
            grid::lemma_row_start(y as int, wi, hi);
        }
        while x < w
            invariant
                grid::frame_size(wi, hi),
                wi == w,
                hi == h,
                w * h <= 0x2aaa_aaaa,
                bgr@.len() >= w * h * 3,
                p.rows() == h,
                p.cols() == w,
                p@.len() == w * h * 3,
                y < h,
                x <= w,
                0 <= y * w <= w * h,
                forall|i: int| 0 <= i < (y * w + x) * 3 ==> #[trigger] p@[i] == bgr@[i],
            decreases w - x,
        {
            proof {
                grid::lemma_at(x as int, y as int, wi, hi);
            }
            let i: usize = (y * w + x) * 3;
            picture_set(&mut p, y, x, 0, bgr[i]);
            picture_set(&mut p, y, x, 1, bgr[i + 1]);
            picture_set(&mut p, y, x, 2, bgr[i + 2]);
            x = x + 1;
        }
        y = y + 1;
    }
    proof {
        assert(h * w == w * h) by (nonlinear_arith);
        assert(p@ =~= bgr@.take(w * h * 3));
    }
    p
}

/// The bytes of a picture, channel `order[k]` of each pixel at its place `k`.
pub open spec fn reordered(bytes: Seq<u8>, a: int, b: int, c: int) -> Seq<u8> {
    Seq::new(
        bytes.len(),
        |i: int|
            bytes[i - i % 3 + if i % 3 == 0 {
                a
            } else if i % 3 == 1 {
                b
            } else {
                c
            }],
    )
}

/// Reads all pixels, with the channels in the given order.
fn read_pixels(p: &Picture, a: usize, b: usize, c: usize) -> (r: Vec<u8>)
    requires
        a < 3,
        b < 3,
        c < 3,
        p.rows() * p.cols() <= 0x2aaa_aaaa,
    ensures
        r@ == reordered(p@, a as int, b as int, c as int),
{
    let (h, w) = p.dim();
    let ghost wi = w as int;
    let ghost hi = h as int;
    let ghost goal = reordered(p@, a as int, b as int, c as int);
    let mut r: Vec<u8> = Vec::new();
    let mut y: usize = 0;
    proof {
        assert(h * w == w * h) by (nonlinear_arith);
    }
    while y < h
        invariant
            wi == w,
            hi == h,
            a < 3,
            b < 3,
            c < 3,
            w * h <= 0x2aaa_aaaa,
            p.rows() == h,
            p.cols() == w,
            p@.len() == w * h * 3,
            goal == reordered(p@, a as int, b as int, c as int),
            y <= h,
            r@.len() == y * w * 3,
            forall|i: int| 0 <= i < r@.len() ==> #[trigger] r@[i] == goal[i],
        decreases h - y,
    {
        let mut x: usize = 0;
        proof {
            grid::lemma_row_start(y as int, wi, hi);
        }
        while x < w
            invariant
                wi == w,
                hi == h,
                a < 3,
                b < 3,
                c < 3,
                w * h <= 0x2aaa_aaaa,
                p.rows() == h,
                p.cols() == w,
                p@.len() == w * h * 3,
                goal == reordered(p@, a as int, b as int, c as int),
                y < h,
                x <= w,
                0 <= y * w <= w * h,
                r@.len() == (y * w + x) * 3,
                forall|i: int| 0 <= i < r@.len() ==> #[trigger] r@[i] == goal[i],
            decreases w - x,
        {
            proof {
                grid::lemma_at(x as int, y as int, wi, hi);
            }
            let ghost k = (y * w + x) * 3;
            r.push(picture_get(p, y, x, a));
            r.push(picture_get(p, y, x, b));
            r.push(picture_get(p, y, x, c));
            proof {
                assert(k % 3 == 0 && (k + 1) % 3 == 1 && (k + 2) % 3 == 2);
                assert(goal[k] == p@[k + a]);
                assert(goal[k + 1] == p@[k + b]);
                assert(goal[k + 2] == p@[k + c]);
            }
            x = x + 1;
        }
        y = y + 1;
    }
    proof {
        assert(h * w == w * h) by (nonlinear_arith);
        assert(r@ =~= goal);
    }
    r
}

/// The bytes of a picture, interleaved as blue, green and red.
pub fn array3_to_flat_bgr(p: &Picture) -> (r: Vec<u8>)
    requires
        p.rows() * p.cols() <= 0x2aaa_aaaa,
    ensures
        r@ == p@,
{
    let r: Vec<u8> = read_pixels(p, 0, 1, 2);
    proof {
        assert(reordered(p@, 0, 1, 2) =~= p@);
    }
    r
}

/// The bytes of a picture, interleaved as red, green and blue.
pub fn array3_to_flat_rgb(p: &Picture) -> (r: Vec<u8>)
    requires
        p.rows() * p.cols() <= 0x2aaa_aaaa,
    ensures
        r@ == reordered(p@, 2, 1, 0),
{
    read_pixels(p, 2, 1, 0)
}

} // verus!
