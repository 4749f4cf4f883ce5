//! What is left of a strip of text, and what goes.
use super::agreement;
use super::agreement::number;
use super::compare;
use super::grid;
use super::runs;
use super::stretches;
use super::strip;
use super::strip::StripLimits;
use vstd::prelude::*;

verus! {

/// Whether a column of a strip has a white pixel.
pub open spec fn lit_column(im: Seq<u8>, top: int, l: StripLimits, x: int) -> bool {
    exists|y: int| top <= y < top + l.segh && #[trigger] im[y * l.w + x] == 255
}

/// Whether these are the stretches of columns of a strip with a white pixel.
pub open spec fn columns(s: Seq<(i32, i32)>, im: Seq<u8>, top: int, l: StripLimits) -> bool {
    stretches::are_stretches(s, |x: int| lit_column(im, top, l, x), l.w as int)
}

/// How many columns of a strip have a white pixel.
pub open spec fn column_number(im: Seq<u8>, top: int, l: StripLimits) -> nat {
    number(|x: int| lit_column(im, top, l, x), 0, l.w as int)
}

/// How many edge pixels of a strip stand in columns with a white pixel.
pub open spec fn edge_number(im: Seq<u8>, ne: Seq<u8>, top: int, l: StripLimits) -> nat {
    let w = l.w as int;
    number(
        |i: int| ne[i] == 255 && lit_column(im, top, l, i % w),
        top * w,
        (top + l.segh) * w,
    )
}

/// Whether a strip with white columns in these stretches holds text: neighbouring
/// stretches stand near one another, all of them together stand in the middle,
/// two of them are not further apart than both are wide, and they are dense and
/// have enough edges.
pub open spec fn holds_text(
    s: Seq<(i32, i32)>,
    im: Seq<u8>,
    ne: Seq<u8>,
    top: int,
    l: StripLimits,
) -> bool {
    let first = s[0];
    let last = s[s.len() - 1];
    &&& s.len() > 0
    &&& forall|i: int, j: int|
        0 <= i < s.len() && j == i + 1 && j < s.len() ==> (#[trigger] s[j]).0 - (#[trigger] s[i]).1
            <= l.btd_max
    &&& -l.to_max2 <= first.0 + last.1 - (l.w - 1) <= l.to_max2
    &&& s.len() == 2 ==> last.0 - first.1 - 1 <= first.1 - first.0 + 1 || last.0 - first.1 - 1
        <= last.1 - last.0 + 1
    &&& s.len() > 1 ==> !l.mpd.above(column_number(im, top, l), (last.1 - first.0 + 1) as nat)
    &&& edge_number(im, ne, top, l) >= l.mpn
    &&& !l.mpned.above(
        edge_number(im, ne, top, l),
        (column_number(im, top, l) * l.segh) as nat,
    )
}

// ---------------------------------------------------------------------------
// Counting in the stretches
// ---------------------------------------------------------------------------
proof fn lemma_width(marks: Seq<bool>, f: spec_fn(int) -> bool)
    requires
        marks.len() <= 0x7fff_ffff,
        forall|x: int| 0 <= x < marks.len() ==> #[trigger] marks[x] == f(x),
    ensures
        strip::total_width(runs::runs(marks)) == compare::count_if(f, 0, marks.len() as int),
    decreases marks.len(),
{
    if marks.len() > 0 {
        let t = marks.drop_last();
        let b = runs::runs(t);
        let x = (marks.len() - 1) as i32;
        assert(forall|i: int| 0 <= i < t.len() ==> t[i] == #[trigger] marks[i]);
        lemma_width(t, f);
        assert(marks[marks.len() - 1] == f(marks.len() - 1));
        if marks.last() {
            if b.len() > 0 && b.last().1 == x - 1 {
                let c = b.drop_last().push((b.last().0, x));
                assert(c.drop_last() =~= b.drop_last());
            } else {
                assert(b.push((x, x)).drop_last() =~= b);
            }
        }
    }
}

proof fn lemma_row(marks: Seq<bool>, ne: Seq<u8>, base: int, f: spec_fn(int) -> bool)
    requires
        marks.len() <= 0x7fff_ffff,
        forall|x: int|
            #![trigger marks[x]]
            0 <= x < marks.len() ==> f(x) == (marks[x] && ne[base + x] == 255),
    ensures
        strip::row_points(ne, base, runs::runs(marks)) == compare::count_if(
            f,
            0,
            marks.len() as int,
        ),
    decreases marks.len(),
{
    if marks.len() > 0 {
        let t = marks.drop_last();
        let b = runs::runs(t);
        let x = (marks.len() - 1) as i32;
        assert(forall|i: int| 0 <= i < t.len() ==> t[i] == #[trigger] marks[i]);
        lemma_row(t, ne, base, f);
        assert(marks[marks.len() - 1] == marks.last());
        runs::runs_cover(t);
        if marks.last() {
            if b.len() > 0 && b.last().1 == x - 1 {
                let c = b.drop_last().push((b.last().0, x));
                assert(c.drop_last() =~= b.drop_last());
                assert(b[b.len() - 1].0 <= b[b.len() - 1].1);
            } else {
                assert(b.push((x, x)).drop_last() =~= b);
                assert(strip::count_white(ne, base + x, base + x) == 0);
            }
        }
    }
}

proof fn lemma_rows(
    marks: Seq<bool>,
    ne: Seq<u8>,
    top: int,
    w: int,
    rows: nat,
    f: spec_fn(int) -> bool,
)
    requires
        marks.len() <= 0x7fff_ffff,
        marks.len() == w,
        w > 0,
        top >= 0,
        forall|i: int| #[trigger] f(i) == (ne[i] == 255 && marks[i % w]),
    ensures
        strip::edge_points(ne, runs::runs(marks), top, w, rows) == compare::count_if(
            f,
            top * w,
            (top + rows) * w,
        ),
    decreases rows,
{
    if rows > 0 {
        let k = (rows - 1) as nat;
        lemma_rows(marks, ne, top, w, k, f);
        let base = (top + k) * w;
        assert(base >= top * w && (top + rows) * w == base + w) by (nonlinear_arith)
            requires
                base == (top + k) * w,
                rows == k + 1,
                w > 0,
                top >= 0,
        ;
        stretches::lemma_count_split(f, top * w, base, base + w);
        let g = |x: int| marks[x] && ne[base + x] == 255;
        lemma_row(marks, ne, base, g);
        assert forall|x: int| 0 <= x < w implies #[trigger] g(x) == f(x + base) by {
            grid::lemma_at(x, top + k, w, top + k + 1);
            assert((base + x) % w == x);
        }
        stretches::lemma_count_shift(g, f, 0, w, base);
    }
}

proof fn lemma_lit(im: Seq<u8>, top: int, l: StripLimits, x: int)
    ensures
        lit_column(im, top, l, x) == strip::white_column(im, top, l, x),
{
    if lit_column(im, top, l, x) {
        let y = choose|y: int| top <= y < top + l.segh && #[trigger] im[y * l.w + x] == 255;
        assert(grid::at(im, l.w as int, x, y) == 255);
    }
    if strip::white_column(im, top, l, x) {
        let y = choose|y: int|
            top <= y < top + l.segh && #[trigger] grid::at(im, l.w as int, x, y) == 255;
        assert(im[y * l.w + x] == 255);
    }
}

proof fn lemma_columns(im: Seq<u8>, ne: Seq<u8>, top: int, l: StripLimits)
    requires
        l.wf(),
        l.fits(im, top),
    ensures
        ({
            let s = strip::strip_segments(im, top, l);
            &&& columns(s, im, top, l)
            &&& strip::total_width(s) == column_number(im, top, l)
            &&& strip::edge_points(ne, s, top, l.w as int, l.segh as nat) == edge_number(
                im,
                ne,
                top,
                l,
            )
        }),
{
    let w = l.w as int;
    let marks = Seq::new(l.w as nat, |x: int| strip::white_column(im, top, l, x));
    let f = |x: int| lit_column(im, top, l, x);
    assert forall|x: int| 0 <= x < marks.len() implies #[trigger] marks[x] == f(x) by {
        lemma_lit(im, top, l, x);
    }
    stretches::runs_are_stretches(marks, f);
    lemma_width(marks, f);
    agreement::lemma_number(f, 0, w);
    let g = |i: int| ne[i] == 255 && lit_column(im, top, l, i % w);
    assert forall|i: int| #[trigger] g(i) == (ne[i] == 255 && marks[i % w]) by {
        assert(0 <= i % w < w);
        assert(marks[i % w] == f(i % w));
    }
    lemma_rows(marks, ne, top, w, l.segh as nat, g);
    agreement::lemma_number(g, top * w, (top + l.segh) * w);
}

// ---------------------------------------------------------------------------
// Strips in which nothing goes any more
// ---------------------------------------------------------------------------
proof fn lemma_closed_up(im: Seq<u8>, segs: Seq<(i32, i32)>, top: int, l: StripLimits)
    ensures
        strip::closed_up(im, segs, top, l).1.len() <= segs.len(),
    decreases segs.len(),
{
    if segs.len() > 0 && exists|i: int|
        0 < i < segs.len() && #[trigger] strip::gap(segs, i) > l.btd_max {
        let (im1, segs1) = strip::take_out(im, segs, top, l, strip::farthest(segs, l));
        lemma_closed_up(im1, segs1, top, l);
    }
}

proof fn lemma_trimmed(im: Seq<u8>, segs: Seq<(i32, i32)>, top: int, l: StripLimits)
    ensures
        strip::trimmed(im, segs, top, l).1 matches Some(s) ==> s.len() < segs.len(),
    decreases segs.len(),
{
    if segs.len() > 1 {
        let (im1, segs1) = strip::take_out(im, segs, top, l, strip::outlier(segs, l));
        lemma_trimmed(im1, segs1, top, l);
    }
}

proof fn lemma_thickened(im: Seq<u8>, segs: Seq<(i32, i32)>, top: int, l: StripLimits)
    ensures
        strip::thickened(im, segs, top, l).1.len() <= segs.len(),
    decreases segs.len(),
{
    if segs.len() > 1 && l.mpd.above(
        strip::total_width(segs) as nat,
        (segs.last().1 - segs[0].0 + 1) as nat,
    ) {
        let (im1, segs1) = strip::take_out(im, segs, top, l, strip::farthest(segs, l));
        lemma_thickened(im1, segs1, top, l);
    }
}

proof fn lemma_sharpened(
    im: Seq<u8>,
    ne: Seq<u8>,
    segs: Seq<(i32, i32)>,
    top: int,
    l: StripLimits,
)
    ensures
        strip::sharpened(im, ne, segs, top, l).1 matches Some(s) ==> 0 < s.len() <= segs.len(),
    decreases segs.len(),
{
    if segs.len() > 0 {
        let (im1, segs1) = strip::take_out(im, segs, top, l, strip::farthest(segs, l));
        lemma_sharpened(im1, ne, segs1, top, l);
    }
}

/// Whether a round finds nothing to take out of a strip.
spec fn quiet(im: Seq<u8>, ne: Seq<u8>, top: int, l: StripLimits) -> bool {
    let segs = strip::strip_segments(im, top, l);
    let points = strip::edge_points(ne, segs, top, l.w as int, l.segh as nat);
    &&& segs.len() > 0
    &&& forall|i: int| 0 < i < segs.len() ==> #[trigger] strip::gap(segs, i) <= l.btd_max
    &&& strip::offset(segs, l) <= l.to_max2
    &&& !strip::torn(segs)
    &&& segs.len() > 1 ==> !l.mpd.above(
        strip::total_width(segs) as nat,
        (segs.last().1 - segs[0].0 + 1) as nat,
    )
    &&& points >= l.mpn
    &&& !l.mpned.above(points, (strip::total_width(segs) * l.segh) as nat)
}

#[verifier::spinoff_prover]
#[verifier::rlimit(60)]
proof fn lemma_quiet(im: Seq<u8>, ne: Seq<u8>, top: int, l: StripLimits)
    ensures
        ({
            let segs = strip::strip_segments(im, top, l);
            let r = strip::round(im, ne, top, l);
            &&& quiet(im, ne, top, l) ==> r == (im, Some(segs))
            &&& r.1 is Some && r.1->0.len() == segs.len() ==> quiet(im, ne, top, l) && r.0 == im
        }),
{
    let segs = strip::strip_segments(im, top, l);
    let r = strip::round(im, ne, top, l);
    if segs.len() > 0 {
        lemma_closed_up(im, segs, top, l);
        let (im1, segs1) = strip::closed_up(im, segs, top, l);
        if exists|i: int| 0 < i < segs.len() && #[trigger] strip::gap(segs, i) > l.btd_max {
            let (a, b) = strip::take_out(im, segs, top, l, strip::farthest(segs, l));
            lemma_closed_up(a, b, top, l);
            assert(segs1.len() < segs.len());
        } else {
            assert(im1 == im && segs1 == segs);
        }
        lemma_trimmed(im1, segs1, top, l);
        let c = strip::centred(im1, segs1, top, l);
        if c.1 is Some {
            let im2 = c.0;
            let segs2 = c.1->0;
            if !strip::torn(segs2) {
                lemma_thickened(im2, segs2, top, l);
                let (im3, segs3) = strip::thickened(im2, segs2, top, l);
                lemma_sharpened(im3, ne, segs3, top, l);
                if segs2.len() > 1 && l.mpd.above(
                    strip::total_width(segs2) as nat,
                    (segs2.last().1 - segs2[0].0 + 1) as nat,
                ) {
                    let (a, b) = strip::take_out(im2, segs2, top, l, strip::farthest(segs2, l));
                    lemma_thickened(a, b, top, l);
                } else {
                    assert(im3 == im2 && segs3 == segs2);
                }
                if segs3.len() > 0 {
                    let (a, b) = strip::take_out(im3, segs3, top, l, strip::farthest(segs3, l));
                    lemma_sharpened(a, ne, b, top, l);
                }
            }
        }
    }
}

proof fn lemma_holds_text(im: Seq<u8>, ne: Seq<u8>, top: int, l: StripLimits)
    requires
        l.wf(),
        l.fits(im, top),
    ensures
        quiet(im, ne, top, l) == holds_text(
            strip::strip_segments(im, top, l),
            im,
            ne,
            top,
            l,
        ),
{
    let s = strip::strip_segments(im, top, l);
    lemma_columns(im, ne, top, l);
    if s.len() > 0 {
        if quiet(im, ne, top, l) {
            assert forall|i: int, j: int|
                0 <= i < s.len() && j == i + 1 && j < s.len() implies (#[trigger] s[j]).0 - (
            #[trigger] s[i]).1 <= l.btd_max by {
                assert(strip::gap(s, j) <= l.btd_max);
            }
        }
        if holds_text(s, im, ne, top, l) {
            assert forall|i: int| 0 < i < s.len() implies #[trigger] strip::gap(s, i)
                <= l.btd_max by {
                assert(s[i].0 - s[i - 1].1 <= l.btd_max);
            }
        }
    }
}

proof fn lemma_settled(im: Seq<u8>, ne: Seq<u8>, top: int, l: StripLimits)
    requires
        l.wf(),
        l.fits(im, top),
    ensures
        strip::strip_filtered(im, ne, top, l).1 ==> quiet(
            strip::strip_filtered(im, ne, top, l).0,
            ne,
            top,
            l,
        ),
        strip::strip_filtered(im, ne, top, l).0.len() == im.len(),
    decreases grid::whites(im),
{
    strip::lemma_round(im, ne, top, l);
    lemma_quiet(im, ne, top, l);
    if let (im1, Some(segs1)) = strip::round(im, ne, top, l) {
        if segs1.len() != strip::strip_segments(im, top, l).len() {
            lemma_settled(im1, ne, top, l);
        }
    }
}

/// Where a strip is said to hold text, what is left of it does.
pub proof fn strips_that_stay_hold_text(
    im: Seq<u8>,
    ne: Seq<u8>,
    top: int,
    l: StripLimits,
    s: Seq<(i32, i32)>,
)
    requires
        l.wf(),
        l.fits(im, top),
        strip::strip_filtered(im, ne, top, l).1,
        columns(s, strip::strip_filtered(im, ne, top, l).0, top, l),
    ensures
        holds_text(s, strip::strip_filtered(im, ne, top, l).0, ne, top, l),
{
    let r = strip::strip_filtered(im, ne, top, l).0;
    lemma_settled(im, ne, top, l);
    lemma_holds_text(r, ne, top, l);
    lemma_columns(r, ne, top, l);
    stretches::stretches_are_unique(
        s,
        strip::strip_segments(r, top, l),
        |x: int| lit_column(r, top, l, x),
        l.w as int,
    );
}

/// A strip that holds text stays as it is.
pub proof fn strips_of_text_stay(
    im: Seq<u8>,
    ne: Seq<u8>,
    top: int,
    l: StripLimits,
    s: Seq<(i32, i32)>,
)
    requires
        l.wf(),
        l.fits(im, top),
        columns(s, im, top, l),
        holds_text(s, im, ne, top, l),
    ensures
        strip::strip_filtered(im, ne, top, l) == (im, true),
{
    lemma_columns(im, ne, top, l);
    stretches::stretches_are_unique(
        s,
        strip::strip_segments(im, top, l),
        |x: int| lit_column(im, top, l, x),
        l.w as int,
    );
    lemma_holds_text(im, ne, top, l);
    lemma_quiet(im, ne, top, l);
}

// ---------------------------------------------------------------------------
// What goes
// ---------------------------------------------------------------------------
/// Whether a pixel lies in the rows of a strip.
pub open spec fn in_strip(top: int, l: StripLimits, i: int) -> bool {
    top <= i / (l.w as int) < top + l.segh
}

/// Whether one image is another one of which, in the rows of a strip, only the
/// columns from `a` to `b` are left: all their pixels are, and no white one of the
/// columns beside them.
pub open spec fn narrowed(
    before: Seq<u8>,
    after: Seq<u8>,
    top: int,
    l: StripLimits,
    a: int,
    b: int,
) -> bool {
    &&& after.len() == before.len()
    &&& forall|i: int|
        0 <= i < after.len() && !in_strip(top, l, i) ==> #[trigger] after[i] == before[i]
    &&& forall|i: int|
        0 <= i < after.len() && in_strip(top, l, i) && a <= i % (l.w as int) <= b
            ==> #[trigger] after[i] == before[i]
    &&& forall|i: int|
        0 <= i < after.len() && in_strip(top, l, i) && !(a <= i % (l.w as int) <= b)
            ==> #[trigger] after[i] != 255
}

spec fn covered(im: Seq<u8>, segs: Seq<(i32, i32)>, top: int, l: StripLimits) -> bool {
    forall|i: int|
        0 <= i < im.len() && in_strip(top, l, i) && #[trigger] im[i] == 255 ==> stretches::within(
            segs,
            i % (l.w as int),
        )
}

/// What holds while segments are taken out of a strip.
spec fn outer_gone(
    before: Seq<u8>,
    im: Seq<u8>,
    segs: Seq<(i32, i32)>,
    top: int,
    l: StripLimits,
    a: int,
    b: int,
) -> bool {
    &&& narrowed(before, im, top, l, a, b)
    &&& covered(im, segs, top, l)
    &&& runs::separated(segs, l.w as int)
    &&& segs.len() > 0 ==> a <= segs[0].0 && segs.last().1 <= b
}

proof fn lemma_take_first(
    before: Seq<u8>,
    im: Seq<u8>,
    segs: Seq<(i32, i32)>,
    top: int,
    l: StripLimits,
    a: int,
    b: int,
)
    requires
        l.wf(),
        segs.len() > 0,
        outer_gone(before, im, segs, top, l, a, b),
    ensures
        ({
            let (im1, segs1) = strip::take_out(im, segs, top, l, 0);
            outer_gone(before, im1, segs1, top, l, segs[0].1 + 1, b)
        }),
{
    let (im1, segs1) = strip::take_out(im, segs, top, l, 0);
    let w = l.w as int;
    let a1 = segs[0].1 + 1;
    assert(0 <= segs[0].0 <= segs[0].1 < w);
    assert forall|i: int|
        0 <= i < im1.len() && in_strip(top, l, i) && !(a1 <= i % w <= b) implies #[trigger] im1[i]
        != 255 by {
        let c = i % w;
        if !(segs[0].0 <= c <= segs[0].1) {
            assert(im1[i] == im[i]);
            if im[i] == 255 {
                assert(stretches::within(segs, c));
                let j = choose|j: int| 0 <= j < segs.len() && (#[trigger] segs[j]).0 <= c
                    <= segs[j].1;
                assert(j > 0 ==> segs[0].1 + 1 < segs[j].0);
            }
        }
    }
    assert forall|i: int|
        0 <= i < im1.len() && in_strip(top, l, i) && a1 <= i % w <= b implies #[trigger] im1[i]
        == before[i] by {
        assert(im1[i] == im[i]);
    }
    assert forall|i: int| 0 <= i < im1.len() && !in_strip(top, l, i) implies #[trigger] im1[i]
        == before[i] by {
        assert(im1[i] == im[i]);
    }
    assert forall|i: int|
        0 <= i < im1.len() && in_strip(top, l, i) && #[trigger] im1[i]
            == 255 implies stretches::within(segs1, i % w) by {
        let c = i % w;
        assert(im1[i] == im[i]);
        assert(stretches::within(segs, c));
        let j = choose|j: int| 0 <= j < segs.len() && (#[trigger] segs[j]).0 <= c <= segs[j].1;
        assert(j != 0);
        assert(segs1[j - 1] == segs[j]);
    }
    lemma_separated(segs, 0, w);
    if segs1.len() > 0 {
        assert(segs1[0] == segs[1]);
        assert(segs1.last() == segs.last());
    }
}

proof fn lemma_separated(segs: Seq<(i32, i32)>, k: int, w: int)
    requires
        runs::separated(segs, w),
        0 <= k < segs.len(),
    ensures
        runs::separated(segs.remove(k), w),
{
    let t = segs.remove(k);
    assert forall|i: int, j: int|
        #![trigger t[i], t[j]]
        0 <= i < j < t.len() implies t[i].1 + 1 < t[j].0 by {
        let p = if i < k {
            i
        } else {
            i + 1
        };
        let q = if j < k {
            j
        } else {
            j + 1
        };
        assert(t[i] == segs[p] && t[j] == segs[q]);
    }
    assert forall|i: int|
        #![trigger t[i]]
        0 <= i < t.len() implies 0 <= t[i].0 <= t[i].1 < w by {
        let p = if i < k {
            i
        } else {
            i + 1
        };
        assert(t[i] == segs[p]);
    }
}

proof fn lemma_take_last(
    before: Seq<u8>,
    im: Seq<u8>,
    segs: Seq<(i32, i32)>,
    top: int,
    l: StripLimits,
    a: int,
    b: int,
)
    requires
        l.wf(),
        segs.len() > 0,
        outer_gone(before, im, segs, top, l, a, b),
    ensures
        ({
            let (im1, segs1) = strip::take_out(im, segs, top, l, segs.len() - 1);
            outer_gone(before, im1, segs1, top, l, a, segs[segs.len() - 1].0 - 1)
        }),
{
    let n = segs.len() - 1;
    let (im1, segs1) = strip::take_out(im, segs, top, l, n);
    let w = l.w as int;
    let b1 = segs[n].0 - 1;
    assert(0 <= segs[n].0 <= segs[n].1 < w);
    assert(segs.last() == segs[n]);
    assert forall|i: int|
        0 <= i < im1.len() && in_strip(top, l, i) && !(a <= i % w <= b1) implies #[trigger] im1[i]
        != 255 by {
        let c = i % w;
        if !(segs[n].0 <= c <= segs[n].1) {
            assert(im1[i] == im[i]);
            if im[i] == 255 {
                assert(stretches::within(segs, c));
                let j = choose|j: int| 0 <= j < segs.len() && (#[trigger] segs[j]).0 <= c
                    <= segs[j].1;
                assert(j < n ==> segs[j].1 + 1 < segs[n].0);
            }
        }
    }
    assert forall|i: int|
        0 <= i < im1.len() && in_strip(top, l, i) && a <= i % w <= b1 implies #[trigger] im1[i]
        == before[i] by {
        assert(im1[i] == im[i]);
    }
    assert forall|i: int| 0 <= i < im1.len() && !in_strip(top, l, i) implies #[trigger] im1[i]
        == before[i] by {
        assert(im1[i] == im[i]);
    }
    assert forall|i: int|
        0 <= i < im1.len() && in_strip(top, l, i) && #[trigger] im1[i]
            == 255 implies stretches::within(segs1, i % w) by {
        let c = i % w;
        assert(im1[i] == im[i]);
        assert(stretches::within(segs, c));
        let j = choose|j: int| 0 <= j < segs.len() && (#[trigger] segs[j]).0 <= c <= segs[j].1;
        assert(j != n);
        assert(segs1[j] == segs[j]);
    }
    lemma_separated(segs, n, w);
    if segs1.len() > 0 {
        assert(segs1[0] == segs[0]);
        assert(segs1.last() == segs[n - 1]);
        assert(segs[n - 1].1 + 1 < segs[n].0);
    }
}

proof fn lemma_blank_all(
    before: Seq<u8>,
    im: Seq<u8>,
    segs: Seq<(i32, i32)>,
    top: int,
    l: StripLimits,
    a: int,
    b: int,
)
    requires
        l.wf(),
        segs.len() > 0,
        outer_gone(before, im, segs, top, l, a, b),
    ensures
        narrowed(before, strip::blank_all(im, segs, top, l), top, l, 1, 0),
{
    let im1 = strip::blank_all(im, segs, top, l);
    let w = l.w as int;
    let n = segs.len() - 1;
    assert forall|i: int|
        0 <= i < im1.len() && in_strip(top, l, i) && !(1 <= i % w <= 0) implies #[trigger] im1[i]
        != 255 by {
        let c = i % w;
        if im[i] == 255 {
            assert(stretches::within(segs, c));
            let j = choose|j: int| 0 <= j < segs.len() && (#[trigger] segs[j]).0 <= c
                <= segs[j].1;
            assert(0 <= segs[0].0 <= segs[0].1 < w);
            assert(0 <= segs[n].0 <= segs[n].1 < w);
            assert(j > 0 ==> segs[0].1 + 1 < segs[j].0);
            assert(j < n ==> segs[j].1 + 1 < segs[n].0);
        }
    }
    assert forall|i: int| 0 <= i < im1.len() && !in_strip(top, l, i) implies #[trigger] im1[i]
        == before[i] by {
        assert(im1[i] == im[i]);
    }
}

proof fn lemma_take_far(
    before: Seq<u8>,
    im: Seq<u8>,
    segs: Seq<(i32, i32)>,
    top: int,
    l: StripLimits,
    a: int,
    b: int,
    k: int,
) -> (r: (int, int))
    requires
        l.wf(),
        segs.len() > 0,
        outer_gone(before, im, segs, top, l, a, b),
        k == 0 || k == segs.len() - 1,
    ensures
        ({
            let (im1, segs1) = strip::take_out(im, segs, top, l, k);
            outer_gone(before, im1, segs1, top, l, r.0, r.1)
        }),
{
    if k == 0 {
        lemma_take_first(before, im, segs, top, l, a, b);
        (segs[0].1 + 1, b)
    } else {
        lemma_take_last(before, im, segs, top, l, a, b);
        (a, segs[segs.len() - 1].0 - 1)
    }
}

proof fn lemma_closing(
    before: Seq<u8>,
    im: Seq<u8>,
    segs: Seq<(i32, i32)>,
    top: int,
    l: StripLimits,
    a: int,
    b: int,
) -> (r: (int, int))
    requires
        l.wf(),
        outer_gone(before, im, segs, top, l, a, b),
    ensures
        ({
            let (im1, segs1) = strip::closed_up(im, segs, top, l);
            outer_gone(before, im1, segs1, top, l, r.0, r.1) && (segs.len() > 0 ==> segs1.len()
                > 0)
        }),
    decreases segs.len(),
{
    if segs.len() > 0 && exists|i: int|
        0 < i < segs.len() && #[trigger] strip::gap(segs, i) > l.btd_max {
        let k = strip::farthest(segs, l);
        let (im1, segs1) = strip::take_out(im, segs, top, l, k);
        let (a1, b1) = lemma_take_far(before, im, segs, top, l, a, b, k);
        lemma_closing(before, im1, segs1, top, l, a1, b1)
    } else {
        (a, b)
    }
}

proof fn lemma_trimming(
    before: Seq<u8>,
    im: Seq<u8>,
    segs: Seq<(i32, i32)>,
    top: int,
    l: StripLimits,
    a: int,
    b: int,
) -> (r: (int, int))
    requires
        l.wf(),
        segs.len() > 0,
        outer_gone(before, im, segs, top, l, a, b),
    ensures
        match strip::trimmed(im, segs, top, l) {
            (im1, None) => narrowed(before, im1, top, l, 1, 0),
            (im1, Some(segs1)) => segs1.len() > 0 && outer_gone(
                before,
                im1,
                segs1,
                top,
                l,
                r.0,
                r.1,
            ),
        },
    decreases segs.len(),
{
    if segs.len() <= 1 {
        lemma_blank_all(before, im, segs, top, l, a, b);
        (a, b)
    } else {
        let k = strip::outlier(segs, l);
        let (im1, segs1) = strip::take_out(im, segs, top, l, k);
        let (a1, b1) = lemma_take_far(before, im, segs, top, l, a, b, k);
        if segs1[0].0 >= l.centre() || segs1.last().1 <= l.centre() {
            lemma_blank_all(before, im1, segs1, top, l, a1, b1);
            (a1, b1)
        } else if strip::offset(segs1, l) <= l.to_max2 {
            (a1, b1)
        } else {
            lemma_trimming(before, im1, segs1, top, l, a1, b1)
        }
    }
}

proof fn lemma_thickening(
    before: Seq<u8>,
    im: Seq<u8>,
    segs: Seq<(i32, i32)>,
    top: int,
    l: StripLimits,
    a: int,
    b: int,
) -> (r: (int, int))
    requires
        l.wf(),
        outer_gone(before, im, segs, top, l, a, b),
    ensures
        ({
            let (im1, segs1) = strip::thickened(im, segs, top, l);
            outer_gone(before, im1, segs1, top, l, r.0, r.1)
        }),
    decreases segs.len(),
{
    if segs.len() > 1 && l.mpd.above(
        strip::total_width(segs) as nat,
        (segs.last().1 - segs[0].0 + 1) as nat,
    ) {
        let k = strip::farthest(segs, l);
        let (im1, segs1) = strip::take_out(im, segs, top, l, k);
        let (a1, b1) = lemma_take_far(before, im, segs, top, l, a, b, k);
        lemma_thickening(before, im1, segs1, top, l, a1, b1)
    } else {
        (a, b)
    }
}

proof fn lemma_sharpening(
    before: Seq<u8>,
    im: Seq<u8>,
    ne: Seq<u8>,
    segs: Seq<(i32, i32)>,
    top: int,
    l: StripLimits,
    a: int,
    b: int,
) -> (r: (int, int))
    requires
        l.wf(),
        outer_gone(before, im, segs, top, l, a, b),
    ensures
        match strip::sharpened(im, ne, segs, top, l) {
            (im1, None) => narrowed(before, im1, top, l, 1, 0),
            (im1, Some(segs1)) => outer_gone(before, im1, segs1, top, l, r.0, r.1),
        },
    decreases segs.len(),
{
    if segs.len() == 0 {
        assert forall|i: int|
            0 <= i < im.len() && in_strip(top, l, i) && !(1 <= i % (l.w as int)
                <= 0) implies #[trigger] im[i] != 255 by {
            if im[i] == 255 {
                assert(stretches::within(segs, i % (l.w as int)));
            }
        }
        (a, b)
    } else {
        let points = strip::edge_points(ne, segs, top, l.w as int, l.segh as nat);
        if points < l.mpn {
            lemma_blank_all(before, im, segs, top, l, a, b);
            (a, b)
        } else if l.mpned.above(points, (strip::total_width(segs) * l.segh) as nat) {
            let k = strip::farthest(segs, l);
            let (im1, segs1) = strip::take_out(im, segs, top, l, k);
            let (a1, b1) = lemma_take_far(before, im, segs, top, l, a, b, k);
            lemma_sharpening(before, im1, ne, segs1, top, l, a1, b1)
        } else {
            (a, b)
        }
    }
}

proof fn lemma_begin(im: Seq<u8>, top: int, l: StripLimits)
    requires
        l.wf(),
        l.fits(im, top),
    ensures
        outer_gone(im, im, strip::strip_segments(im, top, l), top, l, 0, l.w - 1),
{
    let w = l.w as int;
    let segs = strip::strip_segments(im, top, l);
    lemma_columns(im, im, top, l);
    assert forall|i: int|
        0 <= i < im.len() && in_strip(top, l, i) && #[trigger] im[i] == 255 implies stretches::within(
        segs,
        i % w,
    ) by {
        let y = i / w;
        let x = i % w;
        assert(i == y * w + x && 0 <= x < w) by (nonlinear_arith)
            requires
                y == i / w,
                x == i % w,
                w > 0,
        ;
        assert(im[y * l.w + x] == 255);
        assert(lit_column(im, top, l, x));
    }
    assert forall|i: int| 0 <= i < im.len() implies 0 <= #[trigger] (i % w) <= w - 1 by {}
    if segs.len() > 0 {
        assert(0 <= segs[0].0);
        assert(segs[segs.len() - 1].1 < w);
    }
}

/// What is left of a strip whose segments have been brought near one another.
spec fn brought_near(
    im: Seq<u8>,
    ne: Seq<u8>,
    segs: Seq<(i32, i32)>,
    top: int,
    l: StripLimits,
) -> (Seq<u8>, Option<Seq<(i32, i32)>>) {
    match strip::centred(im, segs, top, l) {
        (im1, None) => (im1, None),
        (im1, Some(segs1)) => strip::settled(im1, ne, segs1, top, l),
    }
}

proof fn lemma_settling(
    before: Seq<u8>,
    im: Seq<u8>,
    ne: Seq<u8>,
    segs: Seq<(i32, i32)>,
    top: int,
    l: StripLimits,
    a: int,
    b: int,
) -> (r: (int, int))
    requires
        l.wf(),
        segs.len() > 0,
        outer_gone(before, im, segs, top, l, a, b),
    ensures
        match strip::settled(im, ne, segs, top, l) {
            (im1, None) => narrowed(before, im1, top, l, 1, 0),
            (im1, Some(segs1)) => narrowed(before, im1, top, l, r.0, r.1),
        },
{
    if strip::torn(segs) {
        lemma_blank_all(before, im, segs, top, l, a, b);
        (a, b)
    } else {
        let (im1, segs1) = strip::thickened(im, segs, top, l);
        let (a1, b1) = lemma_thickening(before, im, segs, top, l, a, b);
        lemma_sharpening(before, im1, ne, segs1, top, l, a1, b1)
    }
}

proof fn lemma_brought_near(
    before: Seq<u8>,
    im: Seq<u8>,
    ne: Seq<u8>,
    segs: Seq<(i32, i32)>,
    top: int,
    l: StripLimits,
    a: int,
    b: int,
) -> (r: (int, int))
    requires
        l.wf(),
        segs.len() > 0,
        outer_gone(before, im, segs, top, l, a, b),
    ensures
        match brought_near(im, ne, segs, top, l) {
            (im1, None) => narrowed(before, im1, top, l, 1, 0),
            (im1, Some(segs1)) => narrowed(before, im1, top, l, r.0, r.1),
        },
{
    let (a1, b1) = if strip::offset(segs, l) <= l.to_max2 {
        (a, b)
    } else {
        lemma_trimming(before, im, segs, top, l, a, b)
    };
    let c = strip::centred(im, segs, top, l);
    if c.1 is Some {
        lemma_settling(before, c.0, ne, c.1->0, top, l, a1, b1)
    } else {
        (a1, b1)
    }
}

proof fn lemma_round(im: Seq<u8>, ne: Seq<u8>, top: int, l: StripLimits) -> (r: (int, int))
    requires
        l.wf(),
        l.fits(im, top),
    ensures
        match strip::round(im, ne, top, l) {
            (im1, None) => narrowed(im, im1, top, l, 1, 0),
            (im1, Some(segs1)) => narrowed(im, im1, top, l, r.0, r.1),
        },
{
    let segs = strip::strip_segments(im, top, l);
    lemma_begin(im, top, l);
    if segs.len() == 0 {
        lemma_sharpening(im, im, ne, segs, top, l, 0, l.w - 1)
    } else {
        let (im1, segs1) = strip::closed_up(im, segs, top, l);
        let (a1, b1) = lemma_closing(im, im, segs, top, l, 0, l.w - 1);
        lemma_brought_near(im, im1, ne, segs1, top, l, a1, b1)
    }
}

#[verifier::spinoff_prover]
#[verifier::rlimit(60)]
proof fn lemma_rounds(im: Seq<u8>, ne: Seq<u8>, top: int, l: StripLimits) -> (r: (int, int))
    requires
        l.wf(),
        l.fits(im, top),
    ensures
        narrowed(im, strip::strip_filtered(im, ne, top, l).0, top, l, r.0, r.1),
        !strip::strip_filtered(im, ne, top, l).1 ==> narrowed(
            im,
            strip::strip_filtered(im, ne, top, l).0,
            top,
            l,
            1,
            0,
        ),
    decreases grid::whites(im),
{
    strip::lemma_round(im, ne, top, l);
    let (a, b) = lemma_round(im, ne, top, l);
    match strip::round(im, ne, top, l) {
        (im1, None) => (1, 0),
        (im1, Some(segs1)) => if segs1.len() == strip::strip_segments(im, top, l).len() {
            (a, b)
        } else {
            let (c, d) = lemma_rounds(im1, ne, top, l);
            let r = strip::strip_filtered(im, ne, top, l).0;
            lemma_compose(im, im1, r, top, l, a, b, c, d);
            if !strip::strip_filtered(im, ne, top, l).1 {
                lemma_compose(im, im1, r, top, l, a, b, 1, 0);
            }
            (if a < c {
                c
            } else {
                a
            }, if b < d {
                b
            } else {
                d
            })
        },
    }
}

proof fn lemma_compose(
    x: Seq<u8>,
    y: Seq<u8>,
    z: Seq<u8>,
    top: int,
    l: StripLimits,
    a: int,
    b: int,
    c: int,
    d: int,
)
    requires
        narrowed(x, y, top, l, a, b),
        narrowed(y, z, top, l, c, d),
    ensures
        narrowed(
            x,
            z,
            top,
            l,
            if a < c {
                c
            } else {
                a
            },
            if b < d {
                b
            } else {
                d
            },
        ),
        c == 1 && d == 0 ==> narrowed(x, z, top, l, 1, 0),
{
    let w = l.w as int;
    let e = if a < c {
        c
    } else {
        a
    };
    let f = if b < d {
        b
    } else {
        d
    };
    assert forall|i: int| 0 <= i < z.len() && !in_strip(top, l, i) implies #[trigger] z[i]
        == x[i] by {
        assert(y[i] == x[i]);
    }
    assert forall|i: int|
        0 <= i < z.len() && in_strip(top, l, i) && e <= i % w <= f implies #[trigger] z[i]
        == x[i] by {
        assert(y[i] == x[i]);
    }
    assert forall|i: int|
        0 <= i < z.len() && in_strip(top, l, i) && !(e <= i % w <= f) implies #[trigger] z[i]
        != 255 by {
        if c <= i % w <= d {
            assert(z[i] == y[i]);
            assert(y[i] != 255);
        }
    }
}

/// Only outer columns go from a strip: some columns in succession keep all their
/// pixels, and no white one is left beside them. Nothing goes from the other rows,
/// and from a strip that does not hold text all white pixels do.
pub proof fn strips_lose_outer_columns(im: Seq<u8>, ne: Seq<u8>, top: int, l: StripLimits)
    requires
        l.wf(),
        l.fits(im, top),
    ensures
        exists|a: int, b: int| #[trigger]
            narrowed(im, strip::strip_filtered(im, ne, top, l).0, top, l, a, b),
        !strip::strip_filtered(im, ne, top, l).1 ==> narrowed(
            im,
            strip::strip_filtered(im, ne, top, l).0,
            top,
            l,
            1,
            0,
        ),
{
    let (a, b) = lemma_rounds(im, ne, top, l);
    assert(narrowed(im, strip::strip_filtered(im, ne, top, l).0, top, l, a, b));
}

// ---------------------------------------------------------------------------
// Which end goes first
// ---------------------------------------------------------------------------
/// Whether no pixel of some columns of a strip is white.
pub open spec fn none_white(im: Seq<u8>, top: int, l: StripLimits, s: (i32, i32)) -> bool {
    forall|i: int|
        0 <= i < im.len() && in_strip(top, l, i) && s.0 <= i % (l.w as int) <= s.1
            ==> #[trigger] im[i] != 255
}

/// The distance of a number from zero.
pub open spec fn size(a: int) -> int {
    if a < 0 {
        -a
    } else {
        a
    }
}

/// Whether the last of some stretches goes before the first one: it begins right
/// of the middle or its middle lies too far to the right, or the first one stands
/// well and is wider, or it stands further from the middle.
pub open spec fn last_goes(first: (i32, i32), last: (i32, i32), l: StripLimits) -> bool {
    let middle = (l.w - 1) / 2;
    let off_first = size(first.0 + first.1 - (l.w - 1));
    let off_last = size(last.0 + last.1 - (l.w - 1));
    ||| last.0 >= middle
    ||| 2 * (last.0 + last.1 - 2 * middle) >= l.to_max2
    ||| off_first <= l.to_max2 && last.1 - last.0 < first.1 - first.0
    ||| off_last > off_first
}

proof fn lemma_fresh(
    before: Seq<u8>,
    im: Seq<u8>,
    segs: Seq<(i32, i32)>,
    top: int,
    l: StripLimits,
    a: int,
    b: int,
)
    requires
        l.wf(),
        outer_gone(before, im, segs, top, l, a, b),
    ensures
        outer_gone(im, im, segs, top, l, 0, l.w - 1),
{
    let w = l.w as int;
    assert forall|i: int| 0 <= i < im.len() implies 0 <= #[trigger] (i % w) <= w - 1 by {}
    if segs.len() > 0 {
        assert(0 <= segs[0].0);
        assert(segs[segs.len() - 1].1 < w);
    }
}

/// What a round leaves, further rounds only make less.
proof fn lemma_less(
    im: Seq<u8>,
    ne: Seq<u8>,
    top: int,
    l: StripLimits,
    part: Seq<u8>,
    s: (i32, i32),
    a: int,
    b: int,
)
    requires
        l.wf(),
        l.fits(im, top),
        none_white(part, top, l, s),
        narrowed(part, strip::round(im, ne, top, l).0, top, l, a, b),
        part.len() == im.len(),
    ensures
        none_white(strip::strip_filtered(im, ne, top, l).0, top, l, s),
{
    let next = strip::round(im, ne, top, l).0;
    let r = strip::strip_filtered(im, ne, top, l).0;
    strip::lemma_round(im, ne, top, l);
    assert forall|i: int|
        0 <= i < next.len() && in_strip(top, l, i) && s.0 <= i % (l.w as int)
            <= s.1 implies #[trigger] next[i] != 255 by {
        assert(part[i] != 255);
    }
    if r != next {
        let (c, d) = lemma_rounds(next, ne, top, l);
        assert(narrowed(next, r, top, l, c, d));
        assert forall|i: int|
            0 <= i < r.len() && in_strip(top, l, i) && s.0 <= i % (l.w as int)
                <= s.1 implies #[trigger] r[i] != 255 by {
            assert(next[i] != 255);
        }
    }
}

/// Where two neighbouring stretches of a strip stand too far apart, an outer one
/// goes: the last one, or the first one where the last one does not go before it.
#[verifier::spinoff_prover]
#[verifier::rlimit(60)]
pub proof fn an_end_goes_from_stretches_apart(
    im: Seq<u8>,
    ne: Seq<u8>,
    top: int,
    l: StripLimits,
    s: Seq<(i32, i32)>,
    i: int,
)
    requires
        l.wf(),
        l.fits(im, top),
        columns(s, im, top, l),
        0 < i < s.len(),
        s[i].0 - s[i - 1].1 > l.btd_max,
    ensures
        ({
            let last = s[s.len() - 1];
            none_white(
                strip::strip_filtered(im, ne, top, l).0,
                top,
                l,
                if last_goes(s[0], last, l) {
                    last
                } else {
                    s[0]
                },
            )
        }),
{
    lemma_columns(im, ne, top, l);
    stretches::stretches_are_unique(
        s,
        strip::strip_segments(im, top, l),
        |x: int| lit_column(im, top, l, x),
        l.w as int,
    );
    assert(strip::gap(s, i) > l.btd_max);
    let k = strip::farthest(s, l);
    let last = s[s.len() - 1];
    assert(k == if last_goes(s[0], last, l) {
        s.len() - 1
    } else {
        0
    });
    let (im1, segs1) = strip::take_out(im, s, top, l, k);
    lemma_begin(im, top, l);
    let (a, b) = lemma_take_far(im, im, s, top, l, 0, l.w - 1, k);
    lemma_fresh(im, im1, segs1, top, l, a, b);
    let (im2, segs2) = strip::closed_up(im1, segs1, top, l);
    let (a2, b2) = lemma_closing(im1, im1, segs1, top, l, 0, l.w - 1);
    let (a3, b3) = lemma_brought_near(im1, im2, ne, segs2, top, l, a2, b2);
    assert(strip::closed_up(im, s, top, l) == (im2, segs2));
    assert(strip::round(im, ne, top, l) == brought_near(im2, ne, segs2, top, l));
    assert(none_white(im1, top, l, s[k]));
    if strip::round(im, ne, top, l).1 is None {
        lemma_less(im, ne, top, l, im1, s[k], 1, 0);
    } else {
        lemma_less(im, ne, top, l, im1, s[k], a3, b3);
    }
}

/// Where stretches that are near one another do not stand in the middle, the outer
/// one goes without which the others stand nearer to it, and a single one goes.
#[verifier::spinoff_prover]
#[verifier::rlimit(60)]
pub proof fn an_end_goes_from_stretches_aside(
    im: Seq<u8>,
    ne: Seq<u8>,
    top: int,
    l: StripLimits,
    s: Seq<(i32, i32)>,
)
    requires
        l.wf(),
        l.fits(im, top),
        columns(s, im, top, l),
        s.len() > 0,
        forall|i: int, j: int|
            0 <= i < s.len() && j == i + 1 && j < s.len() ==> (#[trigger] s[j]).0 - (
            #[trigger] s[i]).1 <= l.btd_max,
        size(s[0].0 + s[s.len() - 1].1 - (l.w - 1)) > l.to_max2,
    ensures
        ({
            let n = s.len() - 1;
            let r = strip::strip_filtered(im, ne, top, l);
            if n == 0 {
                !r.1 && none_white(r.0, top, l, s[0])
            } else if size(s[n - 1].1 + s[0].0 - (l.w - 1)) > size(s[n].1 + s[1].0 - (l.w - 1)) {
                none_white(r.0, top, l, s[0])
            } else {
                none_white(r.0, top, l, s[n])
            }
        }),
{
    lemma_columns(im, ne, top, l);
    stretches::stretches_are_unique(
        s,
        strip::strip_segments(im, top, l),
        |x: int| lit_column(im, top, l, x),
        l.w as int,
    );
    let n = s.len() - 1;
    assert forall|i: int| 0 < i < s.len() implies #[trigger] strip::gap(s, i) <= l.btd_max by {
        assert(s[i].0 - s[i - 1].1 <= l.btd_max);
    }
    assert(strip::closed_up(im, s, top, l) == (im, s));
    lemma_begin(im, top, l);
    assert(strip::offset(s, l) > l.to_max2);
    let r = strip::round(im, ne, top, l);
    assert(r == brought_near(im, ne, s, top, l));
    if n == 0 {
        lemma_blank_all(im, im, s, top, l, 0, l.w - 1);
        assert(r == (strip::blank_all(im, s, top, l), None::<Seq<(i32, i32)>>));
        assert(none_white(r.0, top, l, s[0]));
    } else {
        let k = strip::outlier(s, l);
        let (im1, segs1) = strip::take_out(im, s, top, l, k);
        let (a, b) = lemma_take_far(im, im, s, top, l, 0, l.w - 1, k);
        lemma_fresh(im, im1, segs1, top, l, a, b);
        assert(none_white(im1, top, l, s[k]));
        if segs1[0].0 >= l.centre() || segs1.last().1 <= l.centre() {
            lemma_blank_all(im1, im1, segs1, top, l, 0, l.w - 1);
            lemma_less(im, ne, top, l, im1, s[k], 1, 0);
        } else {
            let (a1, b1) = lemma_brought_near(im1, im1, ne, segs1, top, l, 0, l.w - 1);
            assert(r == brought_near(im1, ne, segs1, top, l));
            if r.1 is None {
                lemma_less(im, ne, top, l, im1, s[k], 1, 0);
            } else {
                lemma_less(im, ne, top, l, im1, s[k], a1, b1);
            }
        }
    }
}

} // verus!
