//! Which rows of a frame may hold text, in terms of its pixels.

use super::params::Params;
use super::runs;
use super::strip;
use super::text_rows;
use vstd::prelude::*;

verus! {

/// How much two bytes differ.
pub open spec fn difference(a: u8, b: u8) -> int {
    if a < b {
        b - a
    } else {
        a - b
    }
}

/// The colour difference of several pixels is the sum of the differences of each of
/// them from the pixel before it, in all three colours.
pub proof fn contrast_adds_up(bgr: Seq<u8>, a: int, m: nat, n: nat)
    ensures
        text_rows::contrast_sum(bgr, a, m + n) == text_rows::contrast_sum(bgr, a, m)
            + text_rows::contrast_sum(bgr, a + m, n),
        text_rows::contrast_sum(bgr, a, 0) == 0,
        text_rows::contrast_sum(bgr, a, 1) == difference(bgr[3 * a + 3], bgr[3 * a]) + difference(
            bgr[3 * a + 4],
            bgr[3 * a + 1],
        ) + difference(bgr[3 * a + 5], bgr[3 * a + 2]),
    decreases n,
{
    reveal_with_fuel(text_rows::contrast_sum, 2);
    if n > 0 {
        contrast_adds_up(bgr, a, m, (n - 1) as nat);
        assert((m + n - 1) as nat == m + (n - 1) as nat);
    }
}

/// Whether a segment of a row is contrasted.
pub open spec fn strong(bgr: Seq<u8>, w: int, p: Params, y: int, j: int) -> bool {
    text_rows::contrast_sum(bgr, w * y + j * p.segw, p.segw as nat) >= p.scd
}

proof fn lemma_run(bgr: Seq<u8>, w: int, p: Params, y: int, n: nat)
    ensures
        text_rows::contrasted(bgr, w, p, y, n) <= n,
        forall|j: int|
            n - text_rows::contrasted(bgr, w, p, y, n) <= j < n ==> #[trigger] strong(
                bgr,
                w,
                p,
                y,
                j,
            ),
    decreases n,
{
    if n > 0 {
        lemma_run(bgr, w, p, y, (n - 1) as nat);
        assert(strong(bgr, w, p, y, n - 1) == (text_rows::contrast_sum(
            bgr,
            w * y + (n - 1) * p.segw,
            p.segw as nat,
        ) >= p.scd));
    }
}

/// A count of contrasted segments passes through all smaller ones.
proof fn lemma_back(bgr: Seq<u8>, w: int, p: Params, y: int, n: nat, c: nat)
    requires
        1 <= c <= text_rows::contrasted(bgr, w, p, y, n),
    ensures
        exists|k: nat| 1 <= k <= n && #[trigger] text_rows::contrasted(bgr, w, p, y, k) == c,
    decreases n,
{
    if text_rows::contrasted(bgr, w, p, y, n) != c {
        lemma_back(bgr, w, p, y, (n - 1) as nat, c);
    }
}

proof fn lemma_enough(bgr: Seq<u8>, w: int, p: Params, y: int, s: int, c: nat)
    requires
        0 <= s,
        forall|j: int| s <= j < s + c ==> #[trigger] strong(bgr, w, p, y, j),
    ensures
        text_rows::contrasted(bgr, w, p, y, (s + c) as nat) >= c,
    decreases c,
{
    if c > 0 {
        lemma_enough(bgr, w, p, y, s, (c - 1) as nat);
        assert(strong(bgr, w, p, y, s + c - 1));
        assert((s + (c - 1) as nat) as nat == ((s + c) as nat - 1) as nat);
    }
}

/// Whether all of some segments of a row in succession are contrasted.
pub open spec fn all_strong(
    bgr: Seq<u8>,
    w: int,
    p: Params,
    y: int,
    s: int,
    c: int,
) -> bool {
    forall|j: int| s <= j < s + c ==> #[trigger] strong(bgr, w, p, y, j)
}

/// A row may hold text just when enough of its segments in succession are contrasted.
pub proof fn text_rows_are_contrasted(bgr: Seq<u8>, w: int, p: Params, y: int)
    requires
        p.msegc >= 1,
    ensures
        text_rows::text_row(bgr, w, p, y) <==> exists|s: int|
            0 <= s && s + p.msegc <= (w - 1) / (p.segw as int) && #[trigger] all_strong(
                bgr,
                w,
                p,
                y,
                s,
                p.msegc as int,
            ),
{
    let c = p.msegc as nat;
    if text_rows::text_row(bgr, w, p, y) {
        let n = choose|n: nat|
            1 <= n <= (w - 1) / (p.segw as int) && #[trigger] text_rows::contrasted(
                bgr,
                w,
                p,
                y,
                n,
            ) == p.msegc;
        lemma_run(bgr, w, p, y, n);
        assert(all_strong(bgr, w, p, y, n - c, p.msegc as int));
    }
    if exists|s: int|
        0 <= s && s + p.msegc <= (w - 1) / (p.segw as int) && #[trigger] all_strong(
            bgr,
            w,
            p,
            y,
            s,
            p.msegc as int,
        ) {
        let s = choose|s: int|
            0 <= s && s + p.msegc <= (w - 1) / (p.segw as int) && #[trigger] all_strong(
                bgr,
                w,
                p,
                y,
                s,
                p.msegc as int,
            );
        lemma_enough(bgr, w, p, y, s, c);
        lemma_back(bgr, w, p, y, (s + c) as nat, c);
    }
}

// ---------------------------------------------------------------------------
// Groups of rows
// ---------------------------------------------------------------------------
/// Whether rows `first` and `last` are the ends of a group of marked rows: no marked
/// row stands within twenty-four rows before or after it, and within it no two marked
/// rows that follow one another are farther apart.
pub open spec fn group(marks: Seq<bool>, first: int, last: int) -> bool {
    &&& 0 <= first <= last < marks.len()
    &&& marks[first]
    &&& marks[last]
    &&& forall|y: int| 0 <= y && first - 24 <= y < first ==> !#[trigger] marks[y]
    &&& forall|y: int| y < marks.len() && last < y <= last + 24 ==> !#[trigger] marks[y]
    &&& forall|y: int|
        first <= y < last && #[trigger] marks[y] ==> exists|z: int|
            y < z <= y + 24 && z <= last && #[trigger] marks[z]
}

/// The rows of a frame that may hold text.
pub open spec fn rows(bgr: Seq<u8>, w: int, h: int, p: Params) -> Seq<bool> {
    Seq::new(h as nat, |y: int| text_rows::text_row(bgr, w, p, y))
}

/// Twelve rows above, as far as there are any.
pub open spec fn above(first: int) -> int {
    if first < 12 {
        0
    } else {
        first - 12
    }
}

/// Twelve rows below, as far as there are any.
pub open spec fn below(last: int, h: int) -> int {
    if last + 12 < h {
        last + 12
    } else {
        h - 1
    }
}

/// Whether a long pause lies between run `i` and the next one.
spec fn long(raw: Seq<(i32, i32)>, i: int) -> bool {
    raw[i + 1].0 - raw[i].1 - 1 >= 24
}

/// Whether runs `m` to `e` belong together: the first after a long pause, and no long
/// pause between them.
spec fn chained(raw: Seq<(i32, i32)>, m: int, e: int) -> bool {
    &&& 0 <= m <= e < raw.len()
    &&& m == 0 || long(raw, m - 1)
    &&& forall|i: int| m <= i < e ==> !#[trigger] long(raw, i)
}

/// Whether a band is that of runs `m` to `e`.
spec fn stands_for(raw: Seq<(i32, i32)>, b: (i32, i32), m: int, e: int) -> bool {
    b.0 == above(raw[m].0 as int) && b.1 == raw[e].1 + 12
}

/// Whether runs `m` to `e` belong together, with a long pause after them, before run
/// `n`, and are high enough.
spec fn closed(raw: Seq<(i32, i32)>, m: int, e: int, n: int, min_h: int) -> bool {
    &&& chained(raw, m, e)
    &&& e < n
    &&& long(raw, e)
    &&& raw[e].1 - above(raw[m].0 as int) >= min_h
}

spec fn has_chain(raw: Seq<(i32, i32)>, b: (i32, i32), n: int, min_h: int) -> bool {
    exists|m: int, e: int| #[trigger] closed(raw, m, e, n, min_h) && stands_for(raw, b, m, e)
}

spec fn has_band(raw: Seq<(i32, i32)>, done: Seq<(i32, i32)>, m: int, e: int) -> bool {
    exists|k: int| 0 <= k < done.len() && stands_for(raw, #[trigger] done[k], m, e)
}

/// Whether some bands are those of all runs that belong together before run `n`.
spec fn complete(raw: Seq<(i32, i32)>, done: Seq<(i32, i32)>, n: int, min_h: int) -> bool {
    &&& forall|k: int| 0 <= k < done.len() ==> has_chain(raw, #[trigger] done[k], n, min_h)
    &&& forall|m: int, e: int| #[trigger] closed(raw, m, e, n, min_h) ==> has_band(raw, done, m, e)
}

proof fn lemma_later(raw: Seq<(i32, i32)>, b: (i32, i32), n: int, min_h: int)
    requires
        has_chain(raw, b, n, min_h),
    ensures
        has_chain(raw, b, n + 1, min_h),
{
    let (m, e) = choose|m: int, e: int|
        #[trigger] closed(raw, m, e, n, min_h) && stands_for(raw, b, m, e);
    assert(closed(raw, m, e, n + 1, min_h));
}

#[verifier::spinoff_prover]
#[verifier::rlimit(60)]
proof fn lemma_grouped(raw: Seq<(i32, i32)>, n: nat, min_h: int, h: int) -> (m: int)
    requires
        runs::separated(raw, h),
        h <= 0x7fff_ffff,
        n < raw.len(),
    ensures
        chained(raw, m, n as int),
        text_rows::grouped(raw, n, min_h).1 == above(raw[m].0 as int),
        complete(raw, text_rows::grouped(raw, n, min_h).0, n as int, min_h),
    decreases n,
{
    let _ = raw[n as int];
    if n == 0 {
        assert(chained(raw, 0, 0));
        0
    } else {
        let c = (n - 1) as nat;
        let m = lemma_grouped(raw, c, min_h, h);
        let (done, first) = text_rows::grouped(raw, c, min_h);
        let (now, next) = text_rows::grouped(raw, n, min_h);
        assert(0 <= raw[n - 1].0 <= raw[n - 1].1 < h);
        assert(raw[n - 1].1 + 1 < raw[n as int].0);
        assert(0 <= raw[m].0 <= raw[m].1 < h);
        if !long(raw, n - 1) {
            assert(chained(raw, m, n as int));
            assert(now == done);
            assert forall|k: int| 0 <= k < now.len() implies has_chain(
                raw,
                #[trigger] now[k],
                n as int,
                min_h,
            ) by {
                lemma_later(raw, done[k], c as int, min_h);
            }
            assert forall|i: int, e: int| #[trigger] closed(
                raw,
                i,
                e,
                n as int,
                min_h,
            ) implies has_band(raw, now, i, e) by {
                assert(closed(raw, i, e, c as int, min_h));
            }
            m
        } else {
            assert(chained(raw, n as int, n as int));
            let b = (first as i32, (raw[n - 1].1 + 12) as i32);
            let high = raw[n - 1].1 - first >= min_h;
            assert(now == if high {
                done.push(b)
            } else {
                done
            });
            assert forall|k: int| 0 <= k < now.len() implies has_chain(
                raw,
                #[trigger] now[k],
                n as int,
                min_h,
            ) by {
                if k < done.len() {
                    assert(now[k] == done[k]);
                    lemma_later(raw, done[k], c as int, min_h);
                } else {
                    assert(closed(raw, m, c as int, n as int, min_h));
                    assert(stands_for(raw, now[k], m, c as int));
                }
            }
            assert forall|i: int, e: int| #[trigger] closed(
                raw,
                i,
                e,
                n as int,
                min_h,
            ) implies has_band(raw, now, i, e) by {
                if e < c {
                    assert(closed(raw, i, e, c as int, min_h));
                    let k = choose|k: int|
                        0 <= k < done.len() && stands_for(raw, #[trigger] done[k], i, e);
                    assert(stands_for(raw, now[k], i, e));
                } else {
                    lemma_same_chain(raw, i, m, e);
                    assert(stands_for(raw, now[now.len() - 1], i, e));
                }
            }
            n as int
        }
    }
}

/// A chain has one beginning.
proof fn lemma_same_chain(raw: Seq<(i32, i32)>, i: int, m: int, e: int)
    requires
        chained(raw, i, e),
        chained(raw, m, e),
    ensures
        i == m,
{
    if i < m {
        assert(!long(raw, m - 1));
    } else if m < i {
        assert(!long(raw, i - 1));
    }
}

/// Runs that belong together are a group of rows.
proof fn lemma_group_of(marks: Seq<bool>, m: int, e: int)
    requires
        marks.len() <= 0x7fff_ffff,
        chained(runs::runs(marks), m, e),
        e == runs::runs(marks).len() - 1 || long(runs::runs(marks), e),
    ensures
        group(marks, runs::runs(marks)[m].0 as int, runs::runs(marks)[e].1 as int),
{
    let raw = runs::runs(marks);
    runs::runs_cover(marks);
    let first = raw[m].0 as int;
    let last = raw[e].1 as int;
    assert(runs::in_run(raw[m], first) && runs::in_run(raw[e], last));
    if m < e {
        assert(raw[m].1 + 1 < raw[e].0);
    }
    assert forall|y: int| 0 <= y && first - 24 <= y < first implies !#[trigger] marks[y] by {
        if marks[y] {
            let i = choose|i: int|
                #![trigger raw[i]]
                0 <= i < raw.len() && runs::in_run(raw[i], y);
            if i >= m {
                if i > m {
                    assert(raw[m].1 + 1 < raw[i].0);
                }
            } else {
                assert(long(raw, m - 1));
                if i < m - 1 {
                    assert(raw[i].1 + 1 < raw[m - 1].0);
                }
                assert(raw[m - 1].0 <= raw[m - 1].1);
            }
        }
    }
    assert forall|y: int| y < marks.len() && last < y <= last + 24 implies !#[trigger] marks[y] by {
        if marks[y] {
            let i = choose|i: int|
                #![trigger raw[i]]
                0 <= i < raw.len() && runs::in_run(raw[i], y);
            if i <= e {
                if i < e {
                    assert(raw[i].1 + 1 < raw[e].0);
                }
            } else {
                assert(long(raw, e));
                if i > e + 1 {
                    assert(raw[e + 1].1 + 1 < raw[i].0);
                }
                assert(raw[e + 1].0 <= raw[e + 1].1);
            }
        }
    }
    assert forall|y: int| first <= y < last && #[trigger] marks[y] implies exists|z: int|
        y < z <= y + 24 && z <= last && #[trigger] marks[z] by {
        let i = choose|i: int| #![trigger raw[i]] 0 <= i < raw.len() && runs::in_run(raw[i], y);
        if y < raw[i].1 {
            assert(runs::in_run(raw[i], y + 1));
            assert(marks[y + 1]);
            assert(y + 1 <= last);
        } else {
            if i < m {
                assert(raw[i].1 + 1 < raw[m].0);
            }
            if i >= e {
                if i > e {
                    assert(raw[e].1 + 1 < raw[i].0);
                }
            }
            assert(!long(raw, i));
            let z = raw[i + 1].0 as int;
            assert(runs::in_run(raw[i + 1], z));
            assert(marks[z]);
            if i + 1 < e {
                assert(raw[i + 1].1 + 1 < raw[e].0);
            }
        }
    }
}

/// A group of rows is made of runs that belong together.
proof fn lemma_chain_of(marks: Seq<bool>, first: int, last: int) -> (r: (int, int))
    requires
        marks.len() <= 0x7fff_ffff,
        group(marks, first, last),
    ensures
        chained(runs::runs(marks), r.0, r.1),
        r.1 == runs::runs(marks).len() - 1 || long(runs::runs(marks), r.1),
        runs::runs(marks)[r.0].0 == first,
        runs::runs(marks)[r.1].1 == last,
{
    let raw = runs::runs(marks);
    runs::runs_cover(marks);
    let m = choose|i: int| #![trigger raw[i]] 0 <= i < raw.len() && runs::in_run(raw[i], first);
    let e = choose|i: int| #![trigger raw[i]] 0 <= i < raw.len() && runs::in_run(raw[i], last);
    if raw[m].0 < first {
        assert(runs::in_run(raw[m], first - 1));
        assert(marks[first - 1]);
    }
    if raw[e].1 > last {
        assert(runs::in_run(raw[e], last + 1));
        assert(marks[last + 1]);
    }
    if e < m {
        assert(raw[e].1 + 1 < raw[m].0);
    }
    if m > 0 {
        let y = raw[m - 1].1 as int;
        assert(raw[m - 1].1 + 1 < raw[m].0);
        assert(runs::in_run(raw[m - 1], y));
        assert(marks[y]);
        assert(long(raw, m - 1));
    }
    if e + 1 < raw.len() {
        let y = raw[e + 1].0 as int;
        assert(raw[e].1 + 1 < raw[e + 1].0);
        assert(runs::in_run(raw[e + 1], y));
        assert(marks[y]);
        assert(long(raw, e));
    }
    assert forall|i: int| m <= i < e implies !#[trigger] long(raw, i) by {
        let y = raw[i].1 as int;
        assert(runs::in_run(raw[i], y));
        assert(marks[y]);
        if m < i {
            assert(raw[m].1 + 1 < raw[i].0);
        }
        assert(raw[i].1 + 1 < raw[e].0);
        let z = choose|z: int| y < z <= y + 24 && z <= last && #[trigger] marks[z];
        let j = choose|j: int| #![trigger raw[j]] 0 <= j < raw.len() && runs::in_run(raw[j], z);
        if j <= i {
            if j < i {
                assert(raw[j].1 + 1 < raw[i].0);
            }
        } else if j > i + 1 {
            assert(raw[i + 1].1 + 1 < raw[j].0);
        }
        assert(raw[i + 1].0 <= raw[i + 1].1);
    }
    (m, e)
}

/// Whether a band is that of a group of rows.
pub open spec fn surrounds(b: (i32, i32), first: int, last: int, h: int) -> bool {
    b.0 == above(first) && b.1 == below(last, h)
}

/// Whether a group of rows has a band.
pub open spec fn is_banded(bs: Seq<(i32, i32)>, first: int, last: int, h: int) -> bool {
    exists|k: int| 0 <= k < bs.len() && surrounds(#[trigger] bs[k], first, last, h)
}

/// Whether a band is that of a group of rows that is high enough.
pub open spec fn is_grouped(marks: Seq<bool>, b: (i32, i32), least: int, h: int) -> bool {
    exists|first: int, last: int|
        #[trigger] group(marks, first, last) && last - above(first) >= least && surrounds(
            b,
            first,
            last,
            h,
        )
}

/// Runs lie apart.
proof fn lemma_apart(marks: Seq<bool>)
    requires
        marks.len() <= 0x7fff_ffff,
    ensures
        runs::separated(runs::runs(marks), marks.len() as int),
{
    runs::runs_cover(marks);
}

/// Runs that belong together, high enough, make their band that of a group.
proof fn lemma_is_grouped(marks: Seq<bool>, b: (i32, i32), m: int, e: int, least: int, h: int)
    requires
        marks.len() <= 0x7fff_ffff,
        chained(runs::runs(marks), m, e),
        e == runs::runs(marks).len() - 1 || long(runs::runs(marks), e),
        runs::runs(marks)[e].1 - above(runs::runs(marks)[m].0 as int) >= least,
        surrounds(b, runs::runs(marks)[m].0 as int, runs::runs(marks)[e].1 as int, h),
    ensures
        is_grouped(marks, b, least, h),
{
    lemma_group_of(marks, m, e);
}

#[verifier::spinoff_prover]
#[verifier::rlimit(60)]
proof fn lemma_bands(bgr: Seq<u8>, w: int, h: int, p: Params, marks: Seq<bool>)
    requires
        p.wf(),
        0 <= h <= 0x7fff_ffff,
        marks == rows(bgr, w, h, p),
        runs::runs(marks).len() > 0,
    ensures
        ({
            let raw = runs::runs(marks);
            let n = raw.len() - 1;
            let bs = text_rows::text_bands(bgr, w, h, p);
            let least = strip::cap31(p.min_h.part_of(h as nat));
            &&& forall|m: int, e: int|
                #[trigger] chained(raw, m, e) && (e == n || long(raw, e)) && raw[e].1 - above(
                    raw[m].0 as int,
                ) >= least ==> is_banded(bs, raw[m].0 as int, raw[e].1 as int, h)
            &&& forall|k: int|
                0 <= k < bs.len() ==> is_grouped(marks, #[trigger] bs[k], least, h)
        }),
{
    let bs = text_rows::text_bands(bgr, w, h, p);
    let least = strip::cap31(p.min_h.part_of(h as nat));
    let raw = runs::runs(marks);
    lemma_apart(marks);
    assert(marks =~= Seq::new(h as nat, |y: int| text_rows::text_row(bgr, w, p, y)));
    let n = (raw.len() - 1) as nat;
    let m = lemma_grouped(raw, n, least, h);
    let (done, start) = text_rows::grouped(raw, n, least);
    assert(raw.last() == raw[n as int]);
    assert(0 <= raw[m].0 <= raw[m].1 < h);
    assert(0 <= raw[n as int].0 <= raw[n as int].1 < h);
    assert forall|i: int, e: int|
        #[trigger] chained(raw, i, e) && (e == n || long(raw, e)) && raw[e].1 - above(
            raw[i].0 as int,
        ) >= least implies is_banded(bs, raw[i].0 as int, raw[e].1 as int, h) by {
        if e < n {
            assert(closed(raw, i, e, n as int, least));
            let k = choose|k: int| 0 <= k < done.len() && stands_for(raw, #[trigger] done[k], i, e);
            assert(bs[k] == done[k]);
            assert(0 <= raw[e + 1].0 <= raw[e + 1].1 < h);
            assert(surrounds(bs[k], raw[i].0 as int, raw[e].1 as int, h));
        } else {
            lemma_same_chain(raw, i, m, e);
            assert(surrounds(bs[bs.len() - 1], raw[i].0 as int, raw[e].1 as int, h));
        }
    }
    assert forall|k: int| 0 <= k < bs.len() implies is_grouped(
        marks,
        #[trigger] bs[k],
        least,
        h,
    ) by {
        if k < done.len() {
            assert(bs[k] == done[k]);
            let (i, e) = choose|i: int, e: int|
                #[trigger] closed(raw, i, e, n as int, least) && stands_for(raw, done[k], i, e);
            assert(0 <= raw[e + 1].0 <= raw[e + 1].1 < h);
            assert(surrounds(bs[k], raw[i].0 as int, raw[e].1 as int, h));
            lemma_is_grouped(marks, bs[k], i, e, least, h);
        } else {
            assert(surrounds(bs[k], raw[m].0 as int, raw[n as int].1 as int, h));
            lemma_is_grouped(marks, bs[k], m, n as int, least, h);
        }
    }
}

/// The text bands of a frame are its groups of rows that may hold text, each with
/// twelve rows more above and below, as far as there are any. Groups that are lower
/// than the least height are left out, and no others.
#[verifier::spinoff_prover]
#[verifier::rlimit(60)]
pub proof fn every_high_group_has_a_band(bgr: Seq<u8>, w: int, h: int, p: Params)
    requires
        p.wf(),
        0 <= h <= 0x7fff_ffff,
    ensures
        ({
            let marks = rows(bgr, w, h, p);
            let bs = text_rows::text_bands(bgr, w, h, p);
            let least = strip::cap31(p.min_h.part_of(h as nat));
            &&& forall|first: int, last: int|
                #[trigger] group(marks, first, last) && last - above(first) >= least ==> is_banded(
                    bs,
                    first,
                    last,
                    h,
                )
            &&& forall|k: int|
                0 <= k < bs.len() ==> is_grouped(marks, #[trigger] bs[k], least, h)
        }),
{
    let marks = rows(bgr, w, h, p);
    let bs = text_rows::text_bands(bgr, w, h, p);
    let least = strip::cap31(p.min_h.part_of(h as nat));
    let raw = runs::runs(marks);
    if raw.len() > 0 {
        lemma_bands(bgr, w, h, p, marks);
    }
    assert(marks =~= Seq::new(h as nat, |y: int| text_rows::text_row(bgr, w, p, y)));
    assert forall|first: int, last: int|
        #[trigger] group(marks, first, last) && last - above(first) >= least implies is_banded(
        bs,
        first,
        last,
        h,
    ) by {
        let (i, e) = lemma_chain_of(marks, first, last);
        assert(chained(raw, i, e));
    }
}

} // verus!
