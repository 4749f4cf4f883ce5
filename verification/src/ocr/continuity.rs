//! Which frames one timed line lasts for.
use super::fixed;
use super::timeline;
use super::timeline::{LineView, MergeArgs, MomentView};
use super::types::Span;
use crate::text::distance;
use crate::text::strings;
use vstd::prelude::*;

verus! {

/// Whether a text stands in another one, in one piece.
pub open spec fn stands_in(a: Seq<char>, b: Seq<char>) -> bool {
    exists|k: int| 0 <= k <= b.len() - a.len() && #[trigger] b.subrange(k, k + a.len()) == a
}

/// Whether one frame goes on with the line of the frame before it: no more than
/// the allowed pause later, and with the same text, a part of it where that is
/// allowed, or a text that few edits tell from it.
pub open spec fn goes_on(a: MomentView, b: MomentView, args: MergeArgs) -> bool {
    &&& b.time - a.time <= args.merge_gap_ms
    &&& (a.text == b.text || distance::edits(a.text, b.text) <= args.merge_levenshtein || (
    args.allow_substring && (stands_in(a.text, b.text) || stands_in(b.text, a.text))))
}

/// Whether each frame goes on with the line of the one before it.
pub open spec fn is_one_line(s: Seq<MomentView>, args: MergeArgs) -> bool {
    forall|i: int, j: int|
        0 <= i < s.len() && j == i + 1 && j < s.len() ==> goes_on(
            #[trigger] s[i],
            #[trigger] s[j],
            args,
        )
}

/// Whether a span is the smallest that holds two others.
pub open spec fn holds_both(r: Span, a: Span, b: Span) -> bool {
    &&& r.low <= a.low && r.low <= b.low && (r.low == a.low || r.low == b.low)
    &&& r.high >= a.high && r.high >= b.high && (r.high == a.high || r.high == b.high)
}

/// What some numbers come to.
pub open spec fn sum(s: Seq<int>) -> int {
    s.fold_left(0, |a: int, b: int| a + b)
}

pub proof fn lemma_sum(s: Seq<int>)
    ensures
        fixed::total(s) == sum(s),
    decreases s.len(),
{
    if s.len() > 0 {
        lemma_sum(s.drop_last());
    }
}

/// The mean of some numbers is their sum shared out evenly, without the part of
/// a billionth that is left.
pub proof fn means_share_sums_out(s: Seq<int>)
    requires
        s.len() > 0,
    ensures
        s.len() * fixed::mean(s) <= sum(s) < s.len() * (fixed::mean(s) + 1),
{
    lemma_sum(s);
    let t = sum(s);
    let n = s.len() as int;
    let m = t / n;
    assert(n * m <= t < n * (m + 1)) by (nonlinear_arith)
        requires
            n > 0,
            m == t / n,
    ;
}

proof fn lemma_stands_in(a: Seq<char>, b: Seq<char>)
    ensures
        strings::contains(b, a) == stands_in(a, b),
{
    if strings::contains(b, a) {
        let k = choose|k: int| #[trigger] strings::stands_at(b, a, k);
        assert(b.subrange(k, k + a.len()) == a);
    }
    if stands_in(a, b) {
        let k = choose|k: int|
            0 <= k <= b.len() - a.len() && #[trigger] b.subrange(k, k + a.len()) == a;
        assert(strings::stands_at(b, a, k));
    }
}

proof fn lemma_open(frames: Seq<MomentView>, args: MergeArgs)
    requires
        frames.len() > 0,
    ensures
        ({
            let t = timeline::timeline(frames, args);
            &&& t.open is Some
            &&& t.open->0.end == frames.last().time
            &&& t.open->0.last_text == frames.last().text
        }),
{
}

proof fn lemma_joins(frames: Seq<MomentView>, f: MomentView, args: MergeArgs)
    requires
        frames.len() > 0,
    ensures
        timeline::timeline(frames, args).open is Some,
        timeline::joins(timeline::timeline(frames, args).open->0, f, args) == goes_on(
            frames.last(),
            f,
            args,
        ),
{
    lemma_open(frames, args);
    lemma_stands_in(frames.last().text, f.text);
    lemma_stands_in(f.text, frames.last().text);
}

/// One more frame either makes the last line longer, where it goes on with the
/// frame before it, or starts a line of its own. The earlier lines stay. The
/// longer line keeps its start, ends with the frame, has the longer text and
/// holds the frame in its spans.
pub proof fn a_frame_goes_on_or_starts_anew(
    frames: Seq<MomentView>,
    f: MomentView,
    args: MergeArgs,
)
    requires
        frames.len() > 0,
    ensures
        ({
            let before = timeline::merged(frames, args);
            let after = timeline::merged(frames.push(f), args);
            let prev = before[before.len() - 1];
            let cur = after[after.len() - 1];
            &&& before.len() > 0
            &&& goes_on(frames[frames.len() - 1], f, args) ==> {
                &&& after.len() == before.len()
                &&& forall|i: int| 0 <= i < before.len() - 1 ==> #[trigger] after[i] == before[i]
                &&& cur.start == prev.start
                &&& cur.end == f.time
                &&& cur.text == if f.text.len() > prev.text.len() {
                    f.text
                } else {
                    prev.text
                }
                &&& holds_both(cur.x_range, prev.x_range, f.x_range)
                &&& holds_both(cur.y_range, prev.y_range, f.y_range)
            }
            &&& !goes_on(frames[frames.len() - 1], f, args) ==> {
                &&& after.len() == before.len() + 1
                &&& forall|i: int| 0 <= i < before.len() ==> #[trigger] after[i] == before[i]
                &&& cur == (LineView {
                    text: f.text,
                    start: f.time,
                    end: f.time,
                    confidence: f.confidence,
                    x_range: f.x_range,
                    y_range: f.y_range,
                })
            }
        }),
{
    let all = frames.push(f);
    assert(all.drop_last() =~= frames);
    assert(all.last() == f);
    lemma_joins(frames, f, args);
    lemma_open(all, args);
    lemma_alone(f.confidence);
}

proof fn lemma_alone(c: int)
    ensures
        fixed::mean(seq![c]) == c,
{
    assert(seq![c].drop_last() =~= Seq::<int>::empty());
    assert(fixed::total(Seq::<int>::empty()) == 0);
    assert(fixed::total(seq![c]) == c);
}

/// What the frames of one line tell of how sure it is.
pub open spec fn confidences(s: Seq<MomentView>) -> Seq<int> {
    s.map_values(|f: MomentView| f.confidence)
}

proof fn lemma_one_line(s: Seq<MomentView>, args: MergeArgs)
    requires
        s.len() > 0,
        is_one_line(s, args),
    ensures
        ({
            let t = timeline::timeline(s, args);
            &&& t.done.len() == 0
            &&& t.open is Some
            &&& t.open->0.start == s[0].time
            &&& t.open->0.end == s[s.len() - 1].time
            &&& t.open->0.confidences == confidences(s)
        }),
    decreases s.len(),
{
    let before = s.drop_last();
    lemma_open(s, args);
    if s.len() == 1 {
        assert(before =~= Seq::<MomentView>::empty());
        assert(timeline::timeline(before, args).open is None);
        assert(seq![s[0].confidence] =~= confidences(s));
    } else {
        assert forall|i: int, j: int|
            0 <= i < before.len() && j == i + 1 && j < before.len() implies goes_on(
            #[trigger] before[i],
            #[trigger] before[j],
            args,
        ) by {
            assert(before[i] == s[i] && before[j] == s[j]);
        }
        lemma_one_line(before, args);
        lemma_joins(before, s.last(), args);
        assert(goes_on(s[s.len() - 2], s[s.len() - 1], args));
        assert(before.last() == s[s.len() - 2]);
        assert(confidences(before).push(s.last().confidence) =~= confidences(s));
    }
}

/// Frames that go on with one another are one line, from the first moment to the
/// last one, as sure as they are on the average.
pub proof fn lasting_texts_become_one_line(s: Seq<MomentView>, args: MergeArgs)
    requires
        s.len() > 0,
        is_one_line(s, args),
    ensures
        ({
            let r = timeline::merged(s, args);
            &&& r.len() == 1
            &&& r[0].start == s[0].time
            &&& r[0].end == s[s.len() - 1].time
            &&& s.len() * r[0].confidence <= sum(confidences(s)) < s.len() * (r[0].confidence + 1)
        }),
{
    lemma_one_line(s, args);
    means_share_sums_out(confidences(s));
}

/// Where a frame does not go on with the one before it, the frames before and
/// those from it on are merged by themselves.
pub proof fn lines_end_where_the_text_does(
    s: Seq<MomentView>,
    t: Seq<MomentView>,
    args: MergeArgs,
)
    requires
        s.len() > 0,
        t.len() > 0,
        !goes_on(s[s.len() - 1], t[0], args),
    ensures
        timeline::merged(s + t, args) == timeline::merged(s, args) + timeline::merged(t, args),
{
    lemma_apart(s, t, args);
    let a = timeline::timeline(t, args);
    lemma_open(s, args);
    lemma_open(t, args);
    assert(timeline::merged(s + t, args) =~= timeline::merged(s, args) + timeline::merged(t, args));
}

proof fn lemma_apart(s: Seq<MomentView>, t: Seq<MomentView>, args: MergeArgs)
    requires
        s.len() > 0,
        t.len() > 0,
        !goes_on(s[s.len() - 1], t[0], args),
    ensures
        timeline::timeline(s + t, args).open == timeline::timeline(t, args).open,
        timeline::timeline(s + t, args).done == timeline::merged(s, args) + timeline::timeline(
            t,
            args,
        ).done,
    decreases t.len(),
{
    let u = t.drop_last();
    assert((s + t).drop_last() =~= s + u);
    assert((s + t).last() == t.last());
    lemma_open(s, args);
    if u.len() == 0 {
        assert(s + u =~= s);
        lemma_joins(s, t[0], args);
        assert(u =~= Seq::<MomentView>::empty());
        assert(timeline::timeline(u, args).open is None);
        assert(timeline::timeline(s + t, args).done =~= timeline::merged(s, args)
            + timeline::timeline(t, args).done);
    } else {
        assert(u[0] == t[0]);
        lemma_apart(s, u, args);
        lemma_open(u, args);
        assert(timeline::timeline(s + t, args).done =~= timeline::merged(s, args)
            + timeline::timeline(t, args).done);
    }
}

/// A frame is shown after its number of periods, in whole milliseconds; at a rate
/// of thirty frames a second the thirtieth one is shown after one second.
pub proof fn frames_are_shown_after_their_periods(index: int, fps: int)
    requires
        index >= 0,
    ensures
        fps <= 0 ==> timeline::moment(index, fps) == 0,
        fps > 0 && index * 1_000_000_000_000 < fps * 0x1_0000_0000_0000_0000 ==> timeline::moment(
            index,
            fps,
        ) * fps <= index * 1_000_000_000_000 < (timeline::moment(index, fps) + 1) * fps,
{
    if fps > 0 {
        let n = index * 1_000_000_000_000;
        assert(fixed::ONE == 1_000_000_000);
        assert(index * 1000 * 1_000_000_000 == n) by (nonlinear_arith)
            requires
                n == index * 1_000_000_000_000,
        ;
        let q = n / fps;
        assert(q * fps <= n < (q + 1) * fps) by (nonlinear_arith)
            requires
                fps > 0,
                q == n / fps,
        ;
        if n < fps * 0x1_0000_0000_0000_0000 {
            assert(q < 0x1_0000_0000_0000_0000) by (nonlinear_arith)
                requires
                    fps > 0,
                    q * fps <= n,
                    n < fps * 0x1_0000_0000_0000_0000,
            ;
        }
    }
}

/// The best of some confidences is one of them and none is better; it is never
/// below zero.
pub proof fn the_best_is_the_best(s: Seq<int>)
    ensures
        timeline::best(s) >= 0,
        timeline::best(s) == 0 || s.contains(timeline::best(s)),
        forall|i: int| 0 <= i < s.len() ==> #[trigger] s[i] <= timeline::best(s),
    decreases s.len(),
{
    if s.len() > 0 {
        let t = s.drop_last();
        the_best_is_the_best(t);
        assert forall|i: int| 0 <= i < s.len() implies #[trigger] s[i] <= timeline::best(s) by {
            if i < t.len() {
                assert(t[i] == s[i]);
            }
        }
        if t.contains(timeline::best(t)) {
            let i = choose|i: int| 0 <= i < t.len() && t[i] == timeline::best(t);
            assert(s[i] == timeline::best(t));
        }
        assert(s[s.len() - 1] == s.last());
    }
}

} // verus!
