//! The stretches of marked places in a row of places.
use super::compare;
use super::runs;
use vstd::prelude::*;

verus! {

/// Whether a place lies in one of the stretches.
pub open spec fn within(s: Seq<(i32, i32)>, x: int) -> bool {
    exists|i: int| 0 <= i < s.len() && (#[trigger] s[i]).0 <= x <= s[i].1
}

/// Whether these are the stretches of places with a property among `n` of them:
/// apart from one another, with all places that have it and no others.
pub open spec fn are_stretches(s: Seq<(i32, i32)>, f: spec_fn(int) -> bool, n: int) -> bool {
    &&& runs::separated(s, n)
    &&& forall|x: int| 0 <= x < n && f(x) ==> #[trigger] within(s, x)
    &&& forall|i: int, x: int|
        #![trigger s[i], f(x)]
        0 <= i < s.len() && s[i].0 <= x <= s[i].1 ==> f(x)
}

proof fn lemma_part_of_one(
    a: Seq<(i32, i32)>,
    b: Seq<(i32, i32)>,
    f: spec_fn(int) -> bool,
    n: int,
    i: int,
    j: int,
    y: int,
)
    requires
        are_stretches(a, f, n),
        are_stretches(b, f, n),
        0 <= i < a.len(),
        0 <= j < b.len(),
        a[i].0 <= y <= a[i].1,
        b[j].0 <= y <= b[j].1,
    ensures
        b[j].0 <= a[i].0,
        a[i].1 <= b[j].1,
{
    assert(0 <= b[j].0 <= b[j].1 < n);
    assert(0 <= a[i].0 <= a[i].1 < n);
    if a[i].0 < b[j].0 {
        let z = b[j].0 - 1;
        assert(f(z));
        assert(within(b, z));
        let k = choose|k: int| 0 <= k < b.len() && (#[trigger] b[k]).0 <= z <= b[k].1;
        assert(k != j);
        if k < j {
            assert(b[k].1 + 1 < b[j].0);
        } else {
            assert(b[j].1 + 1 < b[k].0);
        }
    }
    if b[j].1 < a[i].1 {
        let z = b[j].1 + 1;
        assert(f(z));
        assert(within(b, z));
        let k = choose|k: int| 0 <= k < b.len() && (#[trigger] b[k]).0 <= z <= b[k].1;
        assert(k != j);
        if k < j {
            assert(b[k].1 + 1 < b[j].0);
        } else {
            assert(b[j].1 + 1 < b[k].0);
        }
    }
}

proof fn lemma_same_start(
    a: Seq<(i32, i32)>,
    b: Seq<(i32, i32)>,
    f: spec_fn(int) -> bool,
    n: int,
    m: int,
)
    requires
        are_stretches(a, f, n),
        are_stretches(b, f, n),
        0 <= m <= a.len(),
    ensures
        m <= b.len(),
        forall|i: int| 0 <= i < m ==> #[trigger] a[i] == b[i],
    decreases m,
{
    if m > 0 {
        lemma_same_start(a, b, f, n, m - 1);
        let i = m - 1;
        let y = a[i].0 as int;
        assert(0 <= a[i].0 <= a[i].1 < n);
        assert(f(y));
        assert(within(b, y));
        let j = choose|j: int| 0 <= j < b.len() && (#[trigger] b[j]).0 <= y <= b[j].1;
        lemma_part_of_one(a, b, f, n, i, j, y);
        lemma_part_of_one(b, a, f, n, j, i, y);
        assert(a[i] == b[j]);
        if j < i {
            assert(a[j] == b[j]);
            assert(a[j].1 + 1 < a[i].0);
        }
        if j > i {
            let z = b[i].0 as int;
            assert(0 <= b[i].0 <= b[i].1 < n);
            assert(f(z));
            assert(within(a, z));
            let k = choose|k: int| 0 <= k < a.len() && (#[trigger] a[k]).0 <= z <= a[k].1;
            lemma_part_of_one(a, b, f, n, k, i, z);
            lemma_part_of_one(b, a, f, n, i, k, z);
            assert(a[k] == b[i]);
            assert(b[i].1 + 1 < b[j].0);
            if k < i {
                assert(a[k] == b[k]);
                assert(b[k].1 + 1 < b[i].0);
            } else if k > i {
                assert(a[i].1 + 1 < a[k].0);
            }
        }
    }
}

/// A property has one list of stretches only.
pub proof fn stretches_are_unique(
    a: Seq<(i32, i32)>,
    b: Seq<(i32, i32)>,
    f: spec_fn(int) -> bool,
    n: int,
)
    requires
        are_stretches(a, f, n),
        are_stretches(b, f, n),
    ensures
        a == b,
{
    lemma_same_start(a, b, f, n, a.len() as int);
    lemma_same_start(b, a, f, n, b.len() as int);
    assert(a =~= b);
}

/// The runs of marks are their stretches.
pub proof fn runs_are_stretches(marks: Seq<bool>, f: spec_fn(int) -> bool)
    requires
        marks.len() <= 0x7fff_ffff,
        forall|x: int| 0 <= x < marks.len() ==> #[trigger] marks[x] == f(x),
    ensures
        are_stretches(runs::runs(marks), f, marks.len() as int),
{
    let s = runs::runs(marks);
    runs::runs_cover(marks);
    assert forall|x: int| 0 <= x < marks.len() && f(x) implies #[trigger] within(s, x) by {
        assert(marks[x]);
        let i = choose|i: int|
            #![trigger s[i]]
            0 <= i < s.len() && runs::in_run(s[i], x);
        assert(s[i].0 <= x <= s[i].1);
    }
    assert forall|i: int, x: int|
        #![trigger s[i], f(x)]
        0 <= i < s.len() && s[i].0 <= x <= s[i].1 implies f(x) by {
        assert(runs::in_run(s[i], x));
        assert(0 <= s[i].0 <= s[i].1 < marks.len());
        assert(marks[x]);
    }
}

/// Counting goes part by part.
pub proof fn lemma_count_split(f: spec_fn(int) -> bool, a: int, b: int, c: int)
    requires
        a <= b <= c,
    ensures
        compare::count_if(f, a, c) == compare::count_if(f, a, b) + compare::count_if(f, b, c),
    decreases c - b,
{
    if b < c {
        lemma_count_split(f, a, b, c - 1);
    }
}

/// Counting does not depend on where the places begin.
pub proof fn lemma_count_shift(
    f: spec_fn(int) -> bool,
    g: spec_fn(int) -> bool,
    a: int,
    b: int,
    d: int,
)
    requires
        forall|x: int| a <= x < b ==> #[trigger] f(x) == g(x + d),
    ensures
        compare::count_if(f, a, b) == compare::count_if(g, a + d, b + d),
    decreases b - a,
{
    if a < b {
        lemma_count_shift(f, g, a, b - 1, d);
        assert(f(b - 1) == g(b - 1 + d));
    }
}

} // verus!
