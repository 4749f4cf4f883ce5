//! Frames to measure the search with, and digests to tell pictures apart.
use super::grid;
use vstd::prelude::*;

verus! {

/// The width of the frames.
pub const W: usize = 1280;

/// The height of the frames.
pub const H: usize = 720;

/// The number of pixels of the frames.
pub const SIZE: usize = 921_600;

/// Whether a pixel lies in a block of columns and rows.
pub open spec fn in_block(i: int, x0: int, x1: int, y0: int, y1: int) -> bool {
    x0 <= i % 1280 < x1 && y0 <= i / 1280 < y1
}

fn is_in_block(i: usize, x0: usize, x1: usize, y0: usize, y1: usize) -> (r: bool)
    ensures
        r == in_block(i as int, x0 as int, x1 as int, y0 as int, y1 as int),
{
    let x: usize = i % 1280;
    let y: usize = i / 1280;
    x0 <= x && x < x1 && y0 <= y && y < y1
}

/// A black frame with up to two white lines near its top.
pub open spec fn text_frame(line1: bool, line2: bool) -> Seq<u8> {
    Seq::new(
        SIZE as nat,
        |i: int|
            if (line1 && in_block(i, 200, 1080, 20, 40)) || (line2 && in_block(
                i,
                150,
                1100,
                45,
                60,
            )) {
                255u8
            } else {
                0
            },
    )
}

/// Draws a black frame with up to two white lines near its top.
pub fn make_text_frame(line1: bool, line2: bool) -> (r: Vec<u8>)
    ensures
        r@ == text_frame(line1, line2),
{
    let mut im: Vec<u8> = Vec::new();
    let mut i: usize = 0;
    while i < SIZE
        invariant
            i <= SIZE,
            im@.len() == i,
            forall|k: int| 0 <= k < i ==> #[trigger] im@[k] == text_frame(line1, line2)[k],
        decreases SIZE - i,
    {
        if (line1 && is_in_block(i, 200, 1080, 20, 40)) || (line2 && is_in_block(
            i,
            150,
            1100,
            45,
            60,
        )) {
            im.push(255);
        } else {
            im.push(0);
        }
        i = i + 1;
    }
    proof {
        assert(im@ =~= text_frame(line1, line2));
    }
    im
}

/// The next number of a sequence that looks like chance.
pub open spec fn next_number(seed: int) -> int {
    (seed * 1_664_525 + 1_013_904_223) % 4_294_967_296
}

/// The `n`th number after a seed.
pub open spec fn number_after(seed: int, n: nat) -> int
    decreases n,
{
    if n == 0 {
        seed
    } else {
        next_number(number_after(seed, (n - 1) as nat))
    }
}

fn step(seed: u32) -> (r: u32)
    ensures
        r == next_number(seed as int),
{
    (((seed as u64) * 1_664_525 + 1_013_904_223) % 4_294_967_296) as u32
}

/// A frame with a few lines across and down, and a few white pixels between
/// them.
pub open spec fn edge_frame() -> Seq<u8> {
    Seq::new(
        SIZE as nat,
        |i: int|
            if (i / 1280) % 9 == 0 || (i % 1280) % 12 == 0 || (number_after(777, (i + 1) as nat)
                / 65_536) % 70 == 0 {
                255u8
            } else {
                0
            },
    )
}

/// Draws a frame with a few lines across and down, and a few white pixels between
/// them.
pub fn make_edge_dense() -> (r: Vec<u8>)
    ensures
        r@ == edge_frame(),
{
    let mut im: Vec<u8> = Vec::new();
    let mut seed: u32 = 777;
    let mut i: usize = 0;
    while i < SIZE
        invariant
            i <= SIZE,
            im@.len() == i,
            seed == number_after(777, i as nat),
            forall|k: int| 0 <= k < i ==> #[trigger] im@[k] == edge_frame()[k],
        decreases SIZE - i,
    {
        seed = step(seed);
        if (i / 1280) % 9 == 0 || (i % 1280) % 12 == 0 || (seed / 65_536) % 70 == 0 {
            im.push(255);
        } else {
            im.push(0);
        }
        i = i + 1;
    }
    proof {
        assert(im@ =~= edge_frame());
    }
    im
}

/// A gray frame that looks like chance, brighter in its right half.
pub open spec fn gray_frame() -> Seq<u8> {
    Seq::new(
        SIZE as nat,
        |i: int|
            {
                let v = number_after(999, (i + 1) as nat) / 16_777_216;
                if i % 1280 >= 640 {
                    ((v + 80) % 256) as u8
                } else {
                    v as u8
                }
            },
    )
}

/// Draws a gray frame that looks like chance, brighter in its right half.
pub fn make_gray_frame() -> (r: Vec<u8>)
    ensures
        r@ == gray_frame(),
{
    let mut im: Vec<u8> = Vec::new();
    let mut seed: u32 = 999;
    let mut i: usize = 0;
    while i < SIZE
        invariant
            i <= SIZE,
            im@.len() == i,
            seed == number_after(999, i as nat),
            forall|k: int| 0 <= k < i ==> #[trigger] im@[k] == gray_frame()[k],
        decreases SIZE - i,
    {
        seed = step(seed);
        let v: u32 = seed / 16_777_216;
        if i % 1280 >= 640 {
            im.push(((v + 80) % 256) as u8);
        } else {
            im.push(v as u8);
        }
        i = i + 1;
    }
    proof {
        assert(im@ =~= gray_frame());
    }
    im
}

/// The number of pixels of the three lines of text before pixel `i`.
pub open spec fn drawn_before(i: int) -> nat
    decreases i,
{
    if i <= 0 {
        0
    } else {
        drawn_before(i - 1) + if on_text(i - 1) {
            1nat
        } else {
            0nat
        }
    }
}

/// Whether a pixel lies on one of three lines of text.
pub open spec fn on_text(i: int) -> bool {
    in_block(i, 100, 1200, 50, 80) || in_block(i, 100, 1200, 150, 180) || in_block(
        i,
        100,
        1200,
        600,
        630,
    )
}

/// The brightness of a pixel: gray behind three lines of flickering white text.
pub open spec fn shade(i: int) -> u8 {
    if on_text(i) {
        let wobble = number_after(12_345, drawn_before(i) + 1) / 16_777_216;
        ((220 + wobble / 4) % 256) as u8
    } else {
        200
    }
}

/// A frame of three bytes for each pixel, with three lines of text.
pub open spec fn bgr_frame() -> Seq<u8> {
    Seq::new(2_764_800, |j: int| shade(j / 3))
}

/// Draws a frame of three bytes for each pixel, with three lines of text.
pub fn make_bgr_frame() -> (r: Vec<u8>)
    ensures
        r@ == bgr_frame(),
{
    let mut bgr: Vec<u8> = Vec::new();
    let mut seed: u32 = 12_345;
    let mut i: usize = 0;
    while i < SIZE
        invariant
            i <= SIZE,
            bgr@.len() == 3 * i,
            seed == number_after(12_345, drawn_before(i as int)),
            forall|j: int| 0 <= j < 3 * i ==> #[trigger] bgr@[j] == shade(j / 3),
        decreases SIZE - i,
    {
        let on = is_in_block(i, 100, 1200, 50, 80) || is_in_block(i, 100, 1200, 150, 180)
            || is_in_block(i, 100, 1200, 600, 630);
        let mut value: u8 = 200;
        if on {
            seed = step(seed);
            let wobble: u32 = seed / 16_777_216;
            value = ((220 + wobble / 4) % 256) as u8;
        }
        bgr.push(value);
        bgr.push(value);
        bgr.push(value);
        i = i + 1;
    }
    proof {
        assert(bgr@ =~= bgr_frame());
    }
    bgr
}

/// The digest of some bytes: each byte is mixed in, and the result multiplied.
pub open spec fn digest(s: Seq<u8>) -> u64
    decreases s.len(),
{
    if s.len() == 0 {
        0xcbf2_9ce4_8422_2325
    } else {
        let mixed = digest(s.drop_last()) ^ (s.last() as u64);
        ((mixed * 0x100_0000_01b3) % 0x1_0000_0000_0000_0000) as u64
    }
}

fn count_whites(im: &[u8], from: usize, to: usize) -> (n: usize)
    requires
        from <= to <= im@.len(),
    ensures
        n == grid::whites(im@.subrange(from as int, to as int)),
{
    let mut n: usize = 0;
    let mut i: usize = from;
    proof {
        assert(im@.subrange(from as int, from as int) =~= Seq::<u8>::empty());
    }
    while i < to
        invariant
            from <= i <= to <= im@.len(),
            n <= i - from,
            n == grid::whites(im@.subrange(from as int, i as int)),
        decreases to - i,
    {
        proof {
            assert(im@.subrange(from as int, i + 1).drop_last() =~= im@.subrange(
                from as int,
                i as int,
            ));
            assert(im@.subrange(from as int, i + 1).last() == im@[i as int]);
        }
        if im[i] == 255 {
            n = n + 1;
        }
        i = i + 1;
    }
    n
}

/// Tells pictures apart: the number of white pixels of all rows, of rows 26 to 44
/// and of rows 331 to 339, and the lower half of the digest.
pub fn fingerprint(im: &[u8], w: usize) -> (r: (usize, usize, usize, u32))
    requires
        340 * w <= im@.len(),
    ensures
        r.0 == grid::whites(im@),
        r.1 == grid::whites(im@.subrange(26 * w, 45 * w)),
        r.2 == grid::whites(im@.subrange(331 * w, 340 * w)),
        r.3 == digest(im@) % 0x1_0000_0000,
{
    let n: usize = im.len();
    let total: usize = count_whites(im, 0, n);
    proof {
        assert(im@.subrange(0, n as int) =~= im@);
    }
    let top: usize = count_whites(im, 26 * w, 45 * w);
    let mid: usize = count_whites(im, 331 * w, 340 * w);
    let mut h: u64 = 0xcbf2_9ce4_8422_2325;
    let mut i: usize = 0;
    proof {
        assert(im@.take(0) =~= Seq::<u8>::empty());
    }
    while i < n
        invariant
            i <= n,
            n == im@.len(),
            h == digest(im@.take(i as int)),
        decreases n - i,
    {
        proof {
            assert(im@.take(i + 1).drop_last() =~= im@.take(i as int));
            assert(im@.take(i + 1).last() == im@[i as int]);
        }
        let mixed: u64 = h ^ (im[i] as u64);
        h = (((mixed as u128) * 0x100_0000_01b3) % 0x1_0000_0000_0000_0000) as u64;
        i = i + 1;
    }
    proof {
        assert(im@.take(n as int) =~= im@);
    }
    (total, top, mid, (h % 0x1_0000_0000) as u32)
}

} // verus!
