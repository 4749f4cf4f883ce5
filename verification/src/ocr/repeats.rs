//! What joining the showings of one text does: each maximal run of them becomes
//! one segment.
use super::laws;
use super::passes;
use super::types;
use vstd::prelude::*;

verus! {

/// Whether a run of showings of one text begins with segment `i`.
pub open spec fn begins(s: Seq<types::SegmentView>, i: int) -> bool {
    i == 0 || !passes::shown_again(s[i - 1], s[i])
}

/// The first segments of the runs.
pub open spec fn run_starts(s: Seq<types::SegmentView>) -> Seq<int>
    decreases s.len(),
{
    if s.len() == 0 {
        Seq::empty()
    } else if begins(s, s.len() - 1) {
        run_starts(s.drop_last()).push(s.len() - 1)
    } else {
        run_starts(s.drop_last())
    }
}

/// The first segment after run `j`.
pub open spec fn run_end(s: Seq<types::SegmentView>, j: int) -> int {
    if j + 1 < run_starts(s).len() {
        run_starts(s)[j + 1]
    } else {
        s.len() as int
    }
}

/// The segments of run `j`.
pub open spec fn run(s: Seq<types::SegmentView>, j: int) -> Seq<types::SegmentView> {
    s.subrange(run_starts(s)[j], run_end(s, j))
}

/// A run as one segment, joined from its end on.
pub open spec fn as_one(run: Seq<types::SegmentView>) -> types::SegmentView
    decreases run.len(),
{
    if run.len() <= 1 {
        run[0]
    } else {
        passes::prolonged(run[0], as_one(run.skip(1)))
    }
}

/// The first segments of the runs are segments, in order, the first of them first.
proof fn lemma_starts(s: Seq<types::SegmentView>)
    ensures
        s.len() > 0 ==> run_starts(s).len() > 0 && run_starts(s)[0] == 0,
        forall|j: int|
            0 <= j < run_starts(s).len() ==> 0 <= #[trigger] run_starts(s)[j] < s.len(),
        forall|j: int, k: int|
            0 <= j < k < run_starts(s).len() ==> #[trigger] run_starts(s)[j]
                < #[trigger] run_starts(s)[k],
        forall|j: int|
            0 <= j < run_starts(s).len() ==> begins(s, #[trigger] run_starts(s)[j]),
        forall|i: int|
            0 <= i < s.len() && #[trigger] begins(s, i) ==> run_starts(s).contains(i),
    decreases s.len(),
{
    if s.len() > 0 {
        let t = s.drop_last();
        let a = run_starts(t);
        let b = run_starts(s);
        lemma_starts(t);
        assert forall|j: int| 0 <= j < b.len() implies begins(s, #[trigger] b[j]) by {
            if j < a.len() {
                assert(b[j] == a[j]);
                assert(begins(t, a[j]));
            }
        }
        assert forall|i: int| 0 <= i < s.len() && #[trigger] begins(s, i) implies b.contains(i) by {
            if i < t.len() {
                assert(begins(t, i));
                let j = choose|j: int| 0 <= j < a.len() && a[j] == i;
                assert(b[j] == i);
            } else {
                assert(b[b.len() - 1] == i);
            }
        }
    }
}

/// Joining the last two segments of a run first makes no difference.
proof fn lemma_as_one(
    run: Seq<types::SegmentView>,
    x: types::SegmentView,
    y: types::SegmentView,
)
    ensures
        as_one(run.push(x).push(y)) == as_one(run.push(passes::prolonged(x, y))),
    decreases run.len(),
{
    let a = run.push(x).push(y);
    let b = run.push(passes::prolonged(x, y));
    if run.len() == 0 {
        assert(a.skip(1) =~= seq![y]);
        assert(as_one(seq![y]) == y);
        assert(as_one(a) == passes::prolonged(x, y));
    } else {
        let rest = run.skip(1);
        lemma_as_one(rest, x, y);
        assert(a.skip(1) =~= rest.push(x).push(y));
        assert(b.skip(1) =~= rest.push(passes::prolonged(x, y)));
    }
}

proof fn lemma_joined(s: Seq<types::SegmentView>)
    ensures
        passes::repeats_joined(s).len() == run_starts(s).len(),
        forall|j: int|
            0 <= j < run_starts(s).len() ==> #[trigger] passes::repeats_joined(s)[j] == as_one(
                run(s, j),
            ),
    decreases s.len(),
{
    let r = passes::repeats_joined(s);
    let n = s.len() as int;
    lemma_starts(s);
    if n == 1 {
        assert(run_starts(s.drop_last()).len() == 0);
        assert(run(s, 0) =~= s);
    } else if n >= 2 {
        let prev = s[n - 2];
        let cur = s.last();
        let rest = s.drop_last();
        lemma_starts(rest);
        if passes::shown_again(prev, cur) {
            let head = rest.drop_last();
            let one = passes::prolonged(prev, cur);
            let t = head.push(one);
            lemma_joined(t);
            assert(t.drop_last() =~= head);
            assert(rest.last() == prev);
            assert(begins(t, n - 2) == begins(rest, n - 2));
            assert(run_starts(t) == run_starts(rest));
            assert(run_starts(s) == run_starts(rest));
            let starts = run_starts(s);
            assert forall|j: int| 0 <= j < starts.len() implies #[trigger] r[j] == as_one(
                run(s, j),
            ) by {
                if j + 1 < starts.len() {
                    assert(starts[j + 1] <= n - 2);
                    assert(run(t, j) =~= run(s, j));
                } else {
                    let first = starts[j];
                    let part = s.subrange(first, n - 2);
                    assert(run(s, j) =~= part.push(prev).push(cur));
                    assert(run(t, j) =~= part.push(one));
                    lemma_as_one(part, prev, cur);
                }
            }
        } else {
            lemma_joined(rest);
            let starts = run_starts(s);
            let before = run_starts(rest);
            assert(starts == before.push(n - 1));
            assert forall|j: int| 0 <= j < starts.len() implies #[trigger] r[j] == as_one(
                run(s, j),
            ) by {
                if j < before.len() {
                    assert(r[j] == passes::repeats_joined(rest)[j]);
                    assert(run(rest, j) =~= run(s, j));
                } else {
                    assert(run(s, j) =~= seq![cur]);
                    assert(as_one(seq![cur]) == cur);
                }
            }
        }
    }
}

/// A run as one segment has the text, the start and the place of its first
/// segment, the end of its last one, and the frames of all of them.
proof fn lemma_one(run: Seq<types::SegmentView>)
    requires
        run.len() > 0,
    ensures
        as_one(run).text == run[0].text,
        as_one(run).start_ms == run[0].start_ms,
        as_one(run).y_range == run[0].y_range,
        as_one(run).end_ms == run.last().end_ms,
        as_one(run).count() == passes::total_count(run),
        run.len() > 1 ==> as_one(run).frame_count == Some(passes::total_count(run))
            && as_one(run).frames is None,
    decreases run.len(),
{
    passes::lemma_count_concat(seq![run[0]], run.skip(1));
    assert(seq![run[0]] + run.skip(1) =~= run);
    assert(seq![run[0]].drop_last() =~= Seq::<types::SegmentView>::empty());
    assert(passes::total_count(seq![run[0]].drop_last()) == 0);
    if run.len() > 1 {
        lemma_one(run.skip(1));
        assert(run.skip(1).last() == run.last());
    } else {
        assert(run.skip(1).len() == 0);
    }
}

/// Joining gives one segment for each maximal run of showings of one text: with
/// the text, the start and the place of the first, the end of the last, and the
/// frames of all of them. A run of one segment stays as it is.
pub proof fn each_run_becomes_one_segment(s: Seq<types::SegmentView>, j: int)
    requires
        0 <= j < passes::repeats_joined(s).len(),
    ensures
        ({
            let r = passes::repeats_joined(s)[j];
            let first = run_starts(s)[j];
            let end = run_end(s, j);
            let run = run(s, j);
            &&& 0 <= first < end <= s.len()
            &&& j == 0 ==> first == 0
            &&& j + 1 < passes::repeats_joined(s).len() ==> end == run_starts(s)[j + 1]
            &&& j + 1 == passes::repeats_joined(s).len() ==> end == s.len()
            &&& forall|i: int| first < i < end ==> #[trigger] passes::shown_again(s[i - 1], s[i])
            &&& first > 0 ==> !passes::shown_again(s[first - 1], s[first])
            &&& end < s.len() ==> !passes::shown_again(s[end - 1], s[end])
            &&& r == as_one(run)
            &&& end == first + 1 ==> r == s[first]
            &&& end > first + 1 ==> {
                &&& r.text == s[first].text
                &&& r.start_ms == s[first].start_ms
                &&& r.y_range == s[first].y_range
                &&& r.end_ms == s[end - 1].end_ms
                &&& r.frame_count == Some(passes::total_count(run))
                &&& r.frames is None
            }
        }),
{
    lemma_starts(s);
    lemma_joined(s);
    let starts = run_starts(s);
    let first = starts[j];
    let end = run_end(s, j);
    assert(begins(s, first));
    if j + 1 < starts.len() {
        assert(begins(s, starts[j + 1]));
        assert(starts[j] < starts[j + 1]);
    }
    if first > 0 {
        assert(starts[0] == 0);
    }
    assert forall|i: int| first < i < end implies #[trigger] passes::shown_again(
        s[i - 1],
        s[i],
    ) by {
        if begins(s, i) {
            let k = choose|k: int| 0 <= k < starts.len() && starts[k] == i;
            if k <= j {
                assert(starts[k] <= starts[j]);
            } else if j + 1 < starts.len() {
                assert(starts[j + 1] <= starts[k]);
            }
        }
    }
    lemma_one(run(s, j));
    assert(run(s, j)[0] == s[first]);
    assert(run(s, j).last() == s[end - 1]);
}

/// Where nothing is shown again, nothing is joined.
proof fn lemma_nothing_to_join(s: Seq<types::SegmentView>)
    requires
        forall|i: int| 0 <= i < s.len() - 1 ==> !passes::shown_again(#[trigger] s[i], s[i + 1]),
    ensures
        passes::repeats_joined(s) == s,
    decreases s.len(),
{
    if s.len() >= 2 {
        let rest = s.drop_last();
        assert(!passes::shown_again(s[s.len() - 2], s[s.len() - 1]));
        assert forall|i: int| 0 <= i < rest.len() - 1 implies !passes::shown_again(
            #[trigger] rest[i],
            rest[i + 1],
        ) by {
            assert(rest[i] == s[i] && rest[i + 1] == s[i + 1]);
        }
        lemma_nothing_to_join(rest);
        assert(rest.push(s.last()) =~= s);
    }
}

/// Joining a second time changes nothing.
pub proof fn joining_again_changes_nothing(s: Seq<types::SegmentView>)
    ensures
        passes::repeats_joined(passes::repeats_joined(s)) == passes::repeats_joined(s),
{
    let r = passes::repeats_joined(s);
    assert forall|i: int| 0 <= i < r.len() - 1 implies !passes::shown_again(
        #[trigger] r[i],
        r[i + 1],
    ) by {
        laws::no_repeats_are_left(s, i);
    }
    lemma_nothing_to_join(r);
}

} // verus!
