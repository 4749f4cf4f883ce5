//! Connected figures of an image.
//!
//! Two pixels touch when they are neighbours along a row, a column or a
//! diagonal. A figure is a maximal set of pixels of one colour that are linked
//! by touching pixels of that colour.

use super::grid;
use vstd::prelude::*;

verus! {

/// Whether two pixels are the same or neighbours.
pub open spec fn touch(p: int, q: int, w: int) -> bool {
    &&& -1 <= grid::col(p, w) - grid::col(q, w) <= 1
    &&& -1 <= grid::row(p, w) - grid::row(q, w) <= 1
}

/// A walk over pixels of one colour, each touching the next.
pub open spec fn is_path(im: Seq<u8>, w: int, white: u8, path: Seq<int>) -> bool {
    &&& path.len() > 0
    &&& forall|i: int| #![trigger path[i]] 0 <= i < path.len() ==> 0 <= path[i] < im.len() && im[path[i]] == white
    &&& forall|i: int| #![trigger path[i]] 0 < i < path.len() ==> touch(path[i - 1], path[i], w)
}

/// Whether a walk over pixels of one colour leads from `p` to `q`.
pub open spec fn linked(im: Seq<u8>, w: int, white: u8, p: int, q: int) -> bool {
    exists|path: Seq<int>| #[trigger]
        is_path(im, w, white, path) && path[0] == p && path.last() == q
}

pub proof fn lemma_linked_self(im: Seq<u8>, w: int, white: u8, p: int)
    requires
        0 <= p < im.len(),
        im[p] == white,
    ensures
        linked(im, w, white, p, p),
{
    assert(is_path(im, w, white, seq![p]));
}

pub proof fn lemma_linked_step(im: Seq<u8>, w: int, white: u8, p: int, q: int, r: int)
    requires
        linked(im, w, white, p, q),
        0 <= r < im.len(),
        im[r] == white,
        touch(q, r, w),
    ensures
        linked(im, w, white, p, r),
{
    let path = choose|path: Seq<int>| #[trigger]
        is_path(im, w, white, path) && path[0] == p && path.last() == q;
    let longer = path.push(r);
    assert(is_path(im, w, white, longer));
    assert(longer[0] == p && longer.last() == r);
}

pub proof fn lemma_linked_symmetric(im: Seq<u8>, w: int, white: u8, p: int, q: int)
    requires
        linked(im, w, white, p, q),
    ensures
        linked(im, w, white, q, p),
{
    let path = choose|path: Seq<int>| #[trigger]
        is_path(im, w, white, path) && path[0] == p && path.last() == q;
    let back = path.reverse();
    assert forall|i: int| #![trigger back[i]] 0 < i < back.len() implies touch(
        back[i - 1],
        back[i],
        w,
    ) by {
        let j = path.len() - i;
        assert(touch(path[j - 1], path[j], w));
    }
    assert(is_path(im, w, white, back));
    assert(back[0] == q && back.last() == p);
}

pub proof fn lemma_linked_transitive(im: Seq<u8>, w: int, white: u8, p: int, q: int, r: int)
    requires
        linked(im, w, white, p, q),
        linked(im, w, white, q, r),
    ensures
        linked(im, w, white, p, r),
{
    let a = choose|path: Seq<int>| #[trigger]
        is_path(im, w, white, path) && path[0] == p && path.last() == q;
    let b = choose|path: Seq<int>| #[trigger]
        is_path(im, w, white, path) && path[0] == q && path.last() == r;
    let c = a + b;
    assert forall|i: int| #![trigger c[i]] 0 < i < c.len() implies touch(c[i - 1], c[i], w) by {
        if i < a.len() {
            assert(touch(a[i - 1], a[i], w));
        } else if i > a.len() {
            assert(touch(b[i - a.len() - 1], b[i - a.len()], w));
        } else {
            assert(c[i - 1] == q && c[i] == q);
        }
    }
    assert forall|i: int| #![trigger c[i]] 0 <= i < c.len() implies 0 <= c[i] < im.len()
        && im[c[i]] == white by {
        if i < a.len() {
            assert(c[i] == a[i]);
        } else {
            assert(c[i] == b[i - a.len()]);
        }
    }
    assert(is_path(im, w, white, c));
    assert(c[0] == p && c.last() == r);
}

/// Linked pixels have the colour of the walk.
pub proof fn lemma_linked_ends(im: Seq<u8>, w: int, white: u8, p: int, q: int)
    requires
        linked(im, w, white, p, q),
    ensures
        0 <= p < im.len(),
        im[p] == white,
        0 <= q < im.len(),
        im[q] == white,
{
    let path = choose|path: Seq<int>| #[trigger]
        is_path(im, w, white, path) && path[0] == p && path.last() == q;
    assert(path[0] == p);
    assert(path[path.len() - 1] == q);
}

/// A set of pixels that holds `p` and, with each pixel, those of the colour
/// that touch it, holds all that is linked to `p`.
proof fn lemma_closed_set(im: Seq<u8>, w: int, white: u8, set: Set<int>, path: Seq<int>)
    requires
        is_path(im, w, white, path),
        set.contains(path[0]),
        forall|a: int, b: int|
            #![trigger set.contains(a), set.contains(b)]
            set.contains(a) && 0 <= b < im.len() && im[b] == white && touch(a, b, w)
                ==> set.contains(b),
    ensures
        set.contains(path.last()),
    decreases path.len(),
{
    if path.len() > 1 {
        let shorter = path.drop_last();
        assert(is_path(im, w, white, shorter));
        assert(shorter[0] == path[0]);
        lemma_closed_set(im, w, white, set, shorter);
        let k = path.len() - 1;
        assert(touch(path[k - 1], path[k], w));
        assert(shorter.last() == path[k - 1]);
        assert(set.contains(path[k - 1]));
        assert(0 <= path[k] < im.len() && im[path[k]] == white);
        assert(set.contains(path[k]));
    }
}

/// A figure: its pixels, the first of which has the smallest index, and the
/// smallest box around them.
pub struct Figure {
    pub points: Vec<usize>,
    pub min_x: i32,
    pub max_x: i32,
    pub min_y: i32,
    pub max_y: i32,
}

impl Figure {
    pub open spec fn has(self, q: int) -> bool {
        exists|i: int| 0 <= i < self.points@.len() && #[trigger] self.points@[i] == q
    }

    /// Whether the box is the smallest around the pixels.
    pub open spec fn boxed(self, w: int) -> bool {
        &&& forall|i: int|
            #![trigger self.points@[i]]
            0 <= i < self.points@.len() ==> {
                &&& self.min_x <= grid::col(self.points@[i] as int, w) <= self.max_x
                &&& self.min_y <= grid::row(self.points@[i] as int, w) <= self.max_y
            }
        &&& exists|i: int|
            #![trigger self.points@[i]]
            0 <= i < self.points@.len() && grid::col(self.points@[i] as int, w) == self.min_x
        &&& exists|i: int|
            #![trigger self.points@[i]]
            0 <= i < self.points@.len() && grid::col(self.points@[i] as int, w) == self.max_x
        &&& exists|i: int|
            #![trigger self.points@[i]]
            0 <= i < self.points@.len() && grid::row(self.points@[i] as int, w) == self.min_y
        &&& exists|i: int|
            #![trigger self.points@[i]]
            0 <= i < self.points@.len() && grid::row(self.points@[i] as int, w) == self.max_y
    }

    /// Whether this is a figure of the image: exactly the pixels that are
    /// linked to its first one, each once.
    pub open spec fn of(self, im: Seq<u8>, w: int, white: u8) -> bool {
        &&& self.points@.len() > 0
        &&& self.points@.no_duplicates()
        &&& forall|q: int| #[trigger]
            self.has(q) <==> linked(im, w, white, self.points@[0] as int, q)
        &&& forall|q: int| #[trigger] self.has(q) ==> self.points@[0] <= q
        &&& self.boxed(w)
        &&& 0 <= self.min_x <= self.max_x < 0x7fff_ffff
        &&& 0 <= self.min_y <= self.max_y < 0x7fff_ffff
    }

    /// The width of the box.
    pub fn width(&self) -> (r: i32)
        requires
            0 <= self.min_x <= self.max_x < 0x7fff_ffff,
        ensures
            r == self.max_x - self.min_x + 1,
    {
        self.max_x - self.min_x + 1
    }

    /// The height of the box.
    pub fn height(&self) -> (r: i32)
        requires
            0 <= self.min_y <= self.max_y < 0x7fff_ffff,
        ensures
            r == self.max_y - self.min_y + 1,
    {
        self.max_y - self.min_y + 1
    }
}

/// Whether these are all figures of the image, in the order of their first pixels.
pub open spec fn all_figures(figs: Seq<Figure>, im: Seq<u8>, w: int, white: u8) -> bool {
    &&& forall|i: int| 0 <= i < figs.len() ==> (#[trigger] figs[i]).of(im, w, white)
    &&& forall|i: int, j: int|
        #![trigger figs[i], figs[j]]
        0 <= i < j < figs.len() ==> figs[i].points@[0] < figs[j].points@[0]
    &&& forall|p: int|
        #![trigger im[p]]
        0 <= p < im.len() && im[p] == white ==> exists|i: int|
            #![trigger figs[i]]
            0 <= i < figs.len() && figs[i].has(p)
}

/// Whether a set of visited pixels consists of whole figures.
pub open spec fn whole(im: Seq<u8>, w: int, white: u8, visited: Seq<bool>) -> bool {
    &&& visited.len() == im.len()
    &&& forall|p: int| 0 <= p < im.len() && #[trigger] visited[p] ==> im[p] == white
    &&& forall|p: int, q: int|
        #![trigger visited[p], visited[q]]
        0 <= p < im.len() && visited[p] && 0 <= q < im.len() && im[q] == white && touch(p, q, w)
            ==> visited[q]
}

/// The walk of one figure so far: `points` are visited pixels of the figure of
/// `start`, and the neighbours of the first `head` of them are visited too.
spec fn walking(
    im: Seq<u8>,
    w: int,
    white: u8,
    base: Seq<bool>,
    visited: Seq<bool>,
    points: Seq<usize>,
    start: int,
    head: int,
) -> bool {
    &&& visited.len() == im.len()
    &&& points.len() > 0
    &&& points[0] == start
    &&& 0 <= head <= points.len()
    &&& points.no_duplicates()
    &&& forall|i: int|
        #![trigger points[i]]
        0 <= i < points.len() ==> {
            &&& points[i] < im.len()
            &&& !base[points[i] as int]
            &&& visited[points[i] as int]
            &&& linked(im, w, white, start, points[i] as int)
        }
    &&& forall|p: int|
        #![trigger visited[p]]
        0 <= p < im.len() && visited[p] ==> base[p] || exists|i: int|
            0 <= i < points.len() && #[trigger] points[i] == p
    &&& forall|p: int| #![trigger visited[p]] 0 <= p < im.len() && base[p] ==> visited[p]
    &&& forall|i: int, q: int|
        #![trigger points[i], visited[q]]
        0 <= i < head && 0 <= q < im.len() && im[q] == white && touch(points[i] as int, q, w)
            ==> visited[q]
}

proof fn lemma_distinct_bound(points: Seq<usize>, n: int)
    requires
        points.no_duplicates(),
        forall|i: int| 0 <= i < points.len() ==> #[trigger] points[i] < n,
        n >= 0,
    ensures
        points.len() <= n,
{
    let ints = points.map(|i: int, p: usize| p as int);
    assert(ints.no_duplicates());
    ints.unique_seq_to_set();
    let range = vstd::set_lib::set_int_range(0, n);
    vstd::set_lib::lemma_int_range(0, n);
    assert(ints.to_set().subset_of(range)) by {
        assert forall|x: int| ints.to_set().contains(x) implies range.contains(x) by {
            let i = choose|i: int| 0 <= i < ints.len() && ints[i] == x;
            assert(points[i] < n);
        }
    }
    vstd::set_lib::lemma_len_subset(ints.to_set(), range);
}

/// Marks a neighbour as visited and lines it up.
fn visit(
    im: &[u8],
    visited: &mut Vec<bool>,
    points: &mut Vec<usize>,
    ni: usize,
    white: u8,
    Ghost(w): Ghost<int>,
    Ghost(base): Ghost<Seq<bool>>,
    Ghost(start): Ghost<int>,
    Ghost(head): Ghost<int>,
    Ghost(from): Ghost<int>,
)
    requires
        ni < im@.len(),
        walking(im@, w, white, base, old(visited)@, old(points)@, start, head),
        linked(im@, w, white, start, from),
        touch(from, ni as int, w),
    ensures
        walking(im@, w, white, base, final(visited)@, final(points)@, start, head),
        forall|q: int|
            0 <= q < im@.len() && old(visited)@[q] ==> #[trigger] final(visited)@[q],
        im@[ni as int] == white ==> final(visited)@[ni as int],
        final(points)@.len() >= old(points)@.len(),
        forall|i: int|
            0 <= i < old(points)@.len() ==> #[trigger] final(points)@[i] == old(points)@[i],
{
    let ghost v0 = visited@;
    let ghost p0 = points@;
    if im[ni] == white && !visited[ni] {
        visited.set(ni, true);
        points.push(ni);
        proof {
            lemma_linked_step(im@, w, white, start, from, ni as int);
            let k = p0.len() as int;
            assert(points@[k] == ni);
            assert(!base[ni as int]) by {
                if base[ni as int] {
                    assert(v0[ni as int]);
                }
            }
            assert forall|i: int, j: int| 0 <= i < points@.len() && 0 <= j < points@.len() && i
                != j implies points@[i] != points@[j] by {
                if i == k {
                    assert(v0[p0[j] as int]);
                } else if j == k {
                    assert(v0[p0[i] as int]);
                }
            }
            assert forall|p: int|
                #![trigger visited@[p]]
                0 <= p < im@.len() && visited@[p] implies base[p] || exists|i: int|
                0 <= i < points@.len() && #[trigger] points@[i] == p by {
                if p != ni {
                    assert(v0[p]);
                    if !base[p] {
                        let i = choose|i: int| 0 <= i < p0.len() && #[trigger] p0[i] == p;
                        assert(points@[i] == p);
                    }
                }
            }
            assert forall|i: int|
                #![trigger points@[i]]
                0 <= i < points@.len() implies points@[i] < im@.len() && !base[points@[i] as int]
                && visited@[points@[i] as int] && linked(im@, w, white, start, points@[i] as int) by {
                if i < k {
                    assert(points@[i] == p0[i]);
                }
            }
            assert forall|i: int, q: int|
                #![trigger points@[i], visited@[q]]
                0 <= i < head && 0 <= q < im@.len() && im@[q] == white && touch(
                    points@[i] as int,
                    q,
                    w,
                ) implies visited@[q] by {
                assert(points@[i] == p0[i]);
                assert(v0[q]);
            }
        }
    }
}

/// Visits the figure of pixel `start`.
fn grow(im: &[u8], w: usize, h: usize, white: u8, visited: &mut Vec<bool>, start: usize) -> (f:
    Figure)
    requires
        grid::frame_size(w as int, h as int),
        im@.len() == w * h,
        start < im@.len(),
        im@[start as int] == white,
        whole(im@, w as int, white, old(visited)@),
        !old(visited)@[start as int],
        forall|p: int|
            0 <= p < start && #[trigger] im@[p] == white ==> old(visited)@[p],
    ensures
        f.of(im@, w as int, white),
        f.points@[0] == start,
        whole(im@, w as int, white, final(visited)@),
        forall|p: int|
            0 <= p < im@.len() ==> (#[trigger] final(visited)@[p] <==> old(visited)@[p] || f.has(
                p,
            )),
{
    let ghost wi = w as int;
    let ghost hi = h as int;
    let ghost base = visited@;
    let ghost st = start as int;
    let mut points: Vec<usize> = Vec::new();
    points.push(start);
    visited.set(start, true);
    proof {
        grid::lemma_sides(wi, hi);
        lemma_linked_self(im@, wi, white, st);
        grid::lemma_of(st, wi, hi);
        assert(points@[0] == st);
    }
    let sx: i32 = (start % w) as i32;
    let sy: i32 = (start / w) as i32;
    let mut min_x: i32 = sx;
    let mut max_x: i32 = sx;
    let mut min_y: i32 = sy;
    let mut max_y: i32 = sy;
    let mut head: usize = 0;
    while head < points.len()
        invariant
            grid::frame_size(wi, hi),
            wi == w,
            hi == h,
            h > 0,
            w <= 0x7fff_ffff,
            h <= 0x7fff_ffff,
            im@.len() == w * h,
            start < im@.len(),
            st == start,
            walking(im@, wi, white, base, visited@, points@, st, head as int),
            0 <= min_x <= max_x < w,
            0 <= min_y <= max_y < h,
            forall|i: int|
                #![trigger points@[i]]
                0 <= i < head ==> {
                    &&& min_x <= grid::col(points@[i] as int, wi) <= max_x
                    &&& min_y <= grid::row(points@[i] as int, wi) <= max_y
                },
            exists|i: int|
                #![trigger points@[i]]
                0 <= i < points@.len() && grid::col(points@[i] as int, wi) == min_x,
            exists|i: int|
                #![trigger points@[i]]
                0 <= i < points@.len() && grid::col(points@[i] as int, wi) == max_x,
            exists|i: int|
                #![trigger points@[i]]
                0 <= i < points@.len() && grid::row(points@[i] as int, wi) == min_y,
            exists|i: int|
                #![trigger points@[i]]
                0 <= i < points@.len() && grid::row(points@[i] as int, wi) == max_y,
        decreases im@.len() - head,
    {
        let p: usize = points[head];
        proof {
            grid::lemma_of(p as int, wi, hi);
            lemma_distinct_bound(points@, im@.len() as int);
        }
        let x: usize = p % w;
        let y: usize = p / w;
        if (x as i32) < min_x {
            min_x = x as i32;
        }
        if (x as i32) > max_x {
            max_x = x as i32;
        }
        if (y as i32) < min_y {
            min_y = y as i32;
        }
        if (y as i32) > max_y {
            max_y = y as i32;
        }
        let ghost before = points@;
        let y0: usize = if y > 0 {
            y - 1
        } else {
            0
        };
        let y1: usize = if y + 1 < h {
            y + 1
        } else {
            h - 1
        };
        let x0: usize = if x > 0 {
            x - 1
        } else {
            0
        };
        let x1: usize = if x + 1 < w {
            x + 1
        } else {
            w - 1
        };
        let mut ny: usize = y0;
        while ny <= y1
            invariant
                grid::frame_size(wi, hi),
                wi == w,
                hi == h,
                w <= 0x7fff_ffff,
                h <= 0x7fff_ffff,
                im@.len() == w * h,
                p < im@.len(),
                x == grid::col(p as int, wi),
                y == grid::row(p as int, wi),
                x < w,
                y < h,
                y0 <= ny <= y1 + 1,
                y0 <= y <= y0 + 1,
                y0 < y || y == 0,
                y <= y1 <= y + 1,
                y1 < h,
                y1 == y + 1 || y1 == h - 1,
                x0 <= x <= x0 + 1,
                x0 < x || x == 0,
                x <= x1 <= x + 1,
                x1 < w,
                x1 == x + 1 || x1 == w - 1,
                before.len() <= points@.len(),
                head < before.len(),
                forall|i: int| 0 <= i < before.len() ==> points@[i] == before[i],
                before[head as int] == p,
                walking(im@, wi, white, base, visited@, points@, st, head as int),
                forall|q: int|
                    #![trigger visited@[q]]
                    0 <= q < im@.len() && im@[q] == white && touch(p as int, q, wi) && grid::row(
                        q,
                        wi,
                    ) < ny ==> visited@[q],
            decreases y1 + 1 - ny,
        {
            let mut nx: usize = x0;
            while nx <= x1
                invariant
                    grid::frame_size(wi, hi),
                    wi == w,
                    hi == h,
                    w <= 0x7fff_ffff,
                    h <= 0x7fff_ffff,
                    im@.len() == w * h,
                    p < im@.len(),
                    x == grid::col(p as int, wi),
                    y == grid::row(p as int, wi),
                    x < w,
                    y < h,
                    y0 <= ny <= y1,
                    y0 <= y <= y0 + 1,
                    y <= y1 <= y + 1,
                    y1 < h,
                    x0 <= nx <= x1 + 1,
                    x0 <= x <= x0 + 1,
                    x0 < x || x == 0,
                    x <= x1 <= x + 1,
                    x1 < w,
                    x1 == x + 1 || x1 == w - 1,
                    before.len() <= points@.len(),
                    head < before.len(),
                    forall|i: int| 0 <= i < before.len() ==> points@[i] == before[i],
                    before[head as int] == p,
                    walking(im@, wi, white, base, visited@, points@, st, head as int),
                    forall|q: int|
                        #![trigger visited@[q]]
                        0 <= q < im@.len() && im@[q] == white && touch(p as int, q, wi) && (
                        grid::row(q, wi) < ny || (grid::row(q, wi) == ny && grid::col(q, wi) < nx))
                            ==> visited@[q],
                decreases x1 + 1 - nx,
            {
                proof {
                    grid::lemma_at(nx as int, ny as int, wi, hi);
                    assert(points@[head as int] == p);
                }
                let ni: usize = ny * w + nx;
                let ghost seen = visited@;
                visit(
                    im,
                    visited,
                    &mut points,
                    ni,
                    white,
                    Ghost(wi),
                    Ghost(base),
                    Ghost(st),
                    Ghost(head as int),
                    Ghost(p as int),
                );
                proof {
                    assert forall|q: int|
                        #![trigger visited@[q]]
                        0 <= q < im@.len() && im@[q] == white && touch(p as int, q, wi) && (
                        grid::row(q, wi) < ny || (grid::row(q, wi) == ny && grid::col(q, wi) < nx
                            + 1)) implies visited@[q] by {
                        grid::lemma_of(q, wi, hi);
                        if q != ni {
                            assert(seen[q]);
                        }
                    }
                }
                nx = nx + 1;
            }
            proof {
                assert forall|q: int|
                    #![trigger visited@[q]]
                    0 <= q < im@.len() && im@[q] == white && touch(p as int, q, wi) && grid::row(
                        q,
                        wi,
                    ) < ny + 1 implies visited@[q] by {
                    grid::lemma_of(q, wi, hi);
                }
            }
            ny = ny + 1;
        }
        proof {
            assert forall|i: int, q: int|
                #![trigger points@[i], visited@[q]]
                0 <= i < head + 1 && 0 <= q < im@.len() && im@[q] == white && touch(
                    points@[i] as int,
                    q,
                    wi,
                ) implies visited@[q] by {
                grid::lemma_of(q, wi, hi);
                if i == head {
                    assert(points@[i] == p);
                }
            }
            assert(points@[head as int] == p);
            let a = choose|i: int|
                #![trigger before[i]]
                0 <= i < before.len() && (grid::col(before[i] as int, wi) == min_x);
            let b = choose|i: int|
                #![trigger before[i]]
                0 <= i < before.len() && (grid::col(before[i] as int, wi) == max_x);
            let c = choose|i: int|
                #![trigger before[i]]
                0 <= i < before.len() && (grid::row(before[i] as int, wi) == min_y);
            let d = choose|i: int|
                #![trigger before[i]]
                0 <= i < before.len() && (grid::row(before[i] as int, wi) == max_y);
            assert(before[head as int] == p);
            assert(points@[a] == before[a]);
            assert(points@[b] == before[b]);
            assert(points@[c] == before[c]);
            assert(points@[d] == before[d]);
            assert forall|i: int|
                #![trigger points@[i]]
                0 <= i < head + 1 implies min_x <= grid::col(points@[i] as int, wi) <= max_x
                && min_y <= grid::row(points@[i] as int, wi) <= max_y by {
                assert(points@[i] == before[i]);
            }
        }
        head = head + 1;
    }
    let f = Figure { points, min_x, max_x, min_y, max_y };
    proof {
        let set = Set::new(|q: int| f.has(q));
        assert forall|a: int, b: int|
            #![trigger set.contains(a), set.contains(b)]
            set.contains(a) && 0 <= b < im@.len() && im@[b] == white && touch(a, b, wi) implies
            set.contains(b) by {
            assert(f.has(a));
            let i = choose|i: int| 0 <= i < f.points@.len() && #[trigger] f.points@[i] == a;
            assert(visited@[b]);
            if base[b] {
                assert(touch(b, a, wi));
                assert(visited@[a]);
                assert(im@[a] == white) by {
                    lemma_linked_ends(im@, wi, white, st, a);
                }
                assert(base[a]);
                assert(!base[f.points@[i] as int]);
            }
            assert(f.has(b));
        }
        assert forall|q: int| #[trigger] f.has(q) <==> linked(im@, wi, white, st, q) by {
            if f.has(q) {
                let i = choose|i: int| 0 <= i < f.points@.len() && #[trigger] f.points@[i] == q;
                assert(linked(im@, wi, white, st, f.points@[i] as int));
            }
            if linked(im@, wi, white, st, q) {
                let path = choose|path: Seq<int>| #[trigger]
                    is_path(im@, wi, white, path) && path[0] == st && path.last() == q;
                assert(f.points@[0] == st);
                assert(f.has(st));
                assert(set.contains(path[0]));
                lemma_closed_set(im@, wi, white, set, path);
                assert(set.contains(q));
            }
        }
        assert forall|q: int| #[trigger] f.has(q) implies f.points@[0] <= q by {
            let i = choose|i: int| 0 <= i < f.points@.len() && #[trigger] f.points@[i] == q;
            lemma_linked_ends(im@, wi, white, st, q);
            assert(!base[f.points@[i] as int]);
        }
        assert forall|p: int| 0 <= p < im@.len() implies (#[trigger] visited@[p] <==> base[p]
            || f.has(p)) by {
            if f.has(p) {
                let i = choose|i: int| 0 <= i < f.points@.len() && #[trigger] f.points@[i] == p;
                assert(visited@[f.points@[i] as int]);
            }
        }
        assert forall|p: int| 0 <= p < im@.len() && #[trigger] visited@[p] implies im@[p]
            == white by {
            if f.has(p) {
                lemma_linked_ends(im@, wi, white, st, p);
            }
        }
        assert forall|p: int, q: int|
            #![trigger visited@[p], visited@[q]]
            0 <= p < im@.len() && visited@[p] && 0 <= q < im@.len() && im@[q] == white && touch(
                p,
                q,
                wi,
            ) implies visited@[q] by {
            if base[p] {
                assert(base[q]);
            } else {
                assert(set.contains(p));
                assert(set.contains(q));
                assert(f.has(q));
            }
        }
    }
    f
}

/// All figures of the given colour, in the order of their first pixels.
pub fn connected_components(im: &[u8], w: usize, h: usize, white: u8) -> (figs: Vec<Figure>)
    requires
        grid::frame_size(w as int, h as int),
        im@.len() == w * h,
    ensures
        all_figures(figs@, im@, w as int, white),
{
    let size: usize = im.len();
    let mut visited: Vec<bool> = vec![false; size];
    let mut figs: Vec<Figure> = Vec::new();
    let mut start: usize = 0;
    while start < size
        invariant
            grid::frame_size(w as int, h as int),
            im@.len() == w * h,
            size == im@.len(),
            start <= size,
            whole(im@, w as int, white, visited@),
            forall|p: int| 0 <= p < start && #[trigger] im@[p] == white ==> visited@[p],
            forall|p: int|
                0 <= p < size && #[trigger] visited@[p] ==> exists|i: int|
                    #![trigger figs@[i]]
                    0 <= i < figs@.len() && figs@[i].has(p),
            forall|i: int| 0 <= i < figs@.len() ==> (#[trigger] figs@[i]).of(im@, w as int, white),
            forall|i: int|
                0 <= i < figs@.len() ==> (#[trigger] figs@[i]).points@[0] < start,
            forall|i: int, j: int|
                #![trigger figs@[i], figs@[j]]
                0 <= i < j < figs@.len() ==> figs@[i].points@[0] < figs@[j].points@[0],
        decreases size - start,
    {
        if im[start] == white && !visited[start] {
            let ghost base = visited@;
            let ghost before = figs@;
            let f = grow(im, w, h, white, &mut visited, start);
            let ghost g = f;
            figs.push(f);
            proof {
                let k = before.len() as int;
                assert(figs@[k] == g);
                assert forall|p: int| 0 <= p < size && #[trigger] visited@[p] implies exists|
                    i: int,
                |
                    #![trigger figs@[i]]
                    0 <= i < figs@.len() && figs@[i].has(p) by {
                    if base[p] {
                        let i = choose|i: int|
                            #![trigger before[i]]
                            0 <= i < before.len() && before[i].has(p);
                        assert(figs@[i] == before[i]);
                    } else {
                        assert(figs@[k].has(p));
                    }
                }
            }
        }
        start = start + 1;
    }
    figs
}

} // verus!
