//! Which neighbouring segments become one, and which do not.
use super::backward;
use super::fixed;
use super::passes;
use super::segments;
use super::segments::MergeFramesArgs;
use super::types;
use crate::text::distance;
use crate::text::strings;
use vstd::prelude::*;

verus! {

/// Whether `a` stands in `b`, in one piece, with more before or after it.
pub open spec fn part_of(a: Seq<char>, b: Seq<char>) -> bool {
    &&& 0 < a.len() < b.len()
    &&& exists|k: int|
        0 <= k <= b.len() - a.len() && #[trigger] b.subrange(k, k + a.len()) == a
}

proof fn lemma_part(a: Seq<char>, b: Seq<char>)
    ensures
        strings::one_in_other(a, b) <==> part_of(a, b) || part_of(b, a),
        part_of(a, b) ==> strings::contains(b, a),
        part_of(b, a) ==> !strings::contains(b, a),
{
    if strings::one_in_other(a, b) {
        if strings::contains(b, a) {
            let k = choose|k: int| strings::stands_at(b, a, k);
            assert(strings::stands_at(b, a, k));
            if a.len() == b.len() {
                assert(b.subrange(k, k + a.len()) =~= b);
            }
            assert(part_of(a, b));
        } else {
            let k = choose|k: int| strings::stands_at(a, b, k);
            assert(strings::stands_at(a, b, k));
            if a.len() == b.len() {
                assert(a.subrange(k, k + b.len()) =~= a);
            }
            assert(part_of(b, a));
        }
    }
    if part_of(a, b) {
        let k = choose|k: int|
            0 <= k <= b.len() - a.len() && #[trigger] b.subrange(k, k + a.len()) == a;
        assert(strings::stands_at(b, a, k));
    }
    if part_of(b, a) {
        let k = choose|k: int|
            0 <= k <= a.len() - b.len() && #[trigger] a.subrange(k, k + b.len()) == b;
        assert(strings::stands_at(a, b, k));
    }
}

/// Whether two segments stand at the same height: both heights are known and have
/// more than a border in common.
pub open spec fn level(a: types::SegmentView, b: types::SegmentView) -> bool {
    &&& a.y_range is Some
    &&& b.y_range is Some
    &&& a.y_range->0.low < b.y_range->0.high
    &&& b.y_range->0.low < a.y_range->0.high
}

/// Segments that do not end before they start.
pub open spec fn timed(s: Seq<types::SegmentView>) -> bool {
    forall|i: int| 0 <= i < s.len() ==> (#[trigger] s[i]).start_ms <= s[i].end_ms
}

/// The frames that a segment stands for: one where none are counted.
pub open spec fn frames_of(a: types::SegmentView) -> int {
    match a.frame_count {
        Some(n) => n,
        None => 1,
    }
}

/// The notes of a segment: none where none are kept.
pub open spec fn notes_of(a: types::SegmentView) -> Seq<types::NoteView> {
    match a.frames {
        Some(notes) => notes,
        None => Seq::empty(),
    }
}

// ---------------------------------------------------------------------------
// Near duplicates
// ---------------------------------------------------------------------------
/// Whether two segments show nearly the same at nearly the same time: with a pause
/// of half a second at most, at most `reach` edits apart, and not two short words of
/// which none is a part of the other.
pub open spec fn twins(a: types::SegmentView, b: types::SegmentView, reach: int) -> bool {
    &&& b.start_ms <= a.end_ms + 500
    &&& a.start_ms <= b.end_ms + 500
    &&& distance::edits(a.text, b.text) <= reach
    &&& a.text.len() > 2 || b.text.len() > 2 || a.text == b.text || part_of(a.text, b.text)
        || part_of(b.text, a.text)
}

proof fn lemma_twins(a: types::SegmentView, b: types::SegmentView, reach: int)
    requires
        a.start_ms <= a.end_ms,
        b.start_ms <= b.end_ms,
    ensures
        passes::duplicates(a, b, reach) <==> twins(a, b, reach),
{
    lemma_part(a.text, b.text);
}

/// Spans stay spans.
proof fn lemma_dedup_timed(s: Seq<types::SegmentView>, reach: int)
    requires
        timed(s),
    ensures
        timed(passes::deduplicated(s, reach)),
    decreases s.len(),
{
    if s.len() > 0 {
        let t = s.drop_last();
        assert forall|i: int| 0 <= i < t.len() implies (#[trigger] t[i]).start_ms <= t[i].end_ms by {
            assert(t[i] == s[i]);
        }
        lemma_dedup_timed(t, reach);
        let out = passes::deduplicated(t, reach);
        let r = passes::deduplicated(s, reach);
        assert(s[s.len() - 1].start_ms <= s[s.len() - 1].end_ms);
        if out.len() > 0 {
            assert(out[out.len() - 1].start_ms <= out[out.len() - 1].end_ms);
        }
        assert forall|i: int| 0 <= i < r.len() implies (#[trigger] r[i]).start_ms <= r[i].end_ms by {
            if i < r.len() - 1 {
                assert(r[i] == out[i]);
            }
        }
    }
}

/// What one more segment does to near duplicates: it becomes one with the last
/// segment so far just when the two are twins. Together they have the longer text,
/// start with the earlier and end with the later of them, stand where the first
/// stands, are as sure as both in the mean, and have the frames of both.
pub proof fn twins_become_one(
    s: Seq<types::SegmentView>,
    cur: types::SegmentView,
    reach: int,
)
    requires
        timed(s),
        cur.start_ms <= cur.end_ms,
    ensures
        ({
            let before = passes::deduplicated(s, reach);
            let after = passes::deduplicated(s.push(cur), reach);
            if s.len() == 0 {
                after == seq![cur]
            } else {
                let prev = before[before.len() - 1];
                let one = after[after.len() - 1];
                &&& before.len() > 0
                &&& !twins(prev, cur, reach) ==> after == before.push(cur)
                &&& twins(prev, cur, reach) ==> {
                    &&& after.len() == before.len()
                    &&& forall|i: int| 0 <= i < before.len() - 1 ==> #[trigger] after[i]
                        == before[i]
                    &&& one.text == if cur.text.len() > prev.text.len() {
                        cur.text
                    } else {
                        prev.text
                    }
                    &&& one.start_ms <= prev.start_ms && one.start_ms <= cur.start_ms
                    &&& one.start_ms == prev.start_ms || one.start_ms == cur.start_ms
                    &&& one.end_ms >= prev.end_ms && one.end_ms >= cur.end_ms
                    &&& one.end_ms == prev.end_ms || one.end_ms == cur.end_ms
                    &&& one.y_range == prev.y_range
                    &&& 0 <= prev.text_confidence + cur.text_confidence - 2 * one.text_confidence
                        <= 1
                    &&& one.frame_count == Some(frames_of(prev) + frames_of(cur))
                    &&& one.frames == Some(notes_of(prev) + notes_of(cur))
                }
            }
        }),
{
    let before = passes::deduplicated(s, reach);
    assert(s.push(cur).drop_last() =~= s);
    lemma_dedup_timed(s, reach);
    lemma_dedup_some(s, reach);
    if s.len() == 0 {
        assert(before =~= Seq::<types::SegmentView>::empty());
        assert(before.push(cur) =~= seq![cur]);
    } else {
        let prev = before[before.len() - 1];
        assert(before.last() == prev);
        assert(prev.start_ms <= prev.end_ms);
        lemma_twins(prev, cur, reach);
    }
}

proof fn lemma_dedup_some(s: Seq<types::SegmentView>, reach: int)
    ensures
        s.len() > 0 ==> passes::deduplicated(s, reach).len() > 0,
{
}

/// Near duplicates are never joined over a longer pause: where some segments end more
/// than half a second before all others start, the two parts do not touch one
/// another.
pub proof fn a_pause_keeps_duplicates_apart(
    s: Seq<types::SegmentView>,
    t: Seq<types::SegmentView>,
    reach: int,
)
    requires
        timed(s),
        timed(t),
        forall|i: int, j: int|
            0 <= i < s.len() && 0 <= j < t.len() ==> (#[trigger] s[i]).end_ms + 500 < (
            #[trigger] t[j]).start_ms,
    ensures
        passes::deduplicated(s + t, reach) == passes::deduplicated(s, reach)
            + passes::deduplicated(t, reach),
    decreases t.len(),
{
    let a = passes::deduplicated(s, reach);
    if t.len() == 0 {
        assert(s + t =~= s);
        assert(a + passes::deduplicated(t, reach) =~= a);
    } else {
        let u = t.drop_last();
        let cur = t.last();
        assert(cur == t[t.len() - 1]);
        assert forall|i: int| 0 <= i < u.len() implies (#[trigger] u[i]).start_ms <= u[i].end_ms by {
            assert(u[i] == t[i]);
        }
        assert forall|i: int, j: int| 0 <= i < s.len() && 0 <= j < u.len() implies (
        #[trigger] s[i]).end_ms + 500 < (#[trigger] u[j]).start_ms by {
            assert(u[j] == t[j]);
        }
        a_pause_keeps_duplicates_apart(s, u, reach);
        let b = passes::deduplicated(u, reach);
        assert((s + t).drop_last() =~= s + u);
        assert((s + t).last() == cur);
        lemma_dedup_timed(s, reach);
        lemma_dedup_some(u, reach);
        if u.len() > 0 {
            assert((a + b).last() == b.last());
            assert((a + b).drop_last() =~= a + b.drop_last());
            assert((a + b).push(cur) =~= a + b.push(cur));
            let one = passes::two_as_one(b.last(), cur);
            assert((a + b.drop_last()).push(one) =~= a + b.drop_last().push(one));
        } else {
            assert(b =~= Seq::<types::SegmentView>::empty());
            assert(a + b =~= a);
            assert(a.push(cur) =~= a + b.push(cur));
            if a.len() > 0 {
                let prev = a[a.len() - 1];
                assert(a.last() == prev);
                assert(prev.start_ms <= prev.end_ms);
                lemma_dedup_ends(s, reach);
                let i = choose|i: int| 0 <= i < s.len() && (#[trigger] s[i]).end_ms == prev.end_ms;
                assert(s[i].end_ms + 500 < t[t.len() - 1].start_ms);
                assert(!passes::duplicates(prev, cur, reach));
            }
        }
    }
}

/// Every joined segment starts with one of the segments and ends with one.
proof fn lemma_dedup_ends(s: Seq<types::SegmentView>, reach: int)
    ensures
        forall|j: int|
            0 <= j < passes::deduplicated(s, reach).len() ==> {
                &&& exists|i: int|
                    0 <= i < s.len() && (#[trigger] s[i]).start_ms == (
                    #[trigger] passes::deduplicated(s, reach)[j]).start_ms
                &&& exists|i: int|
                    0 <= i < s.len() && (#[trigger] s[i]).end_ms == passes::deduplicated(
                        s,
                        reach,
                    )[j].end_ms
            },
    decreases s.len(),
{
    if s.len() > 0 {
        let t = s.drop_last();
        lemma_dedup_ends(t, reach);
        let out = passes::deduplicated(t, reach);
        let r = passes::deduplicated(s, reach);
        let cur = s[s.len() - 1];
        assert(s.last() == cur);
        assert forall|j: int| 0 <= j < r.len() implies {
            &&& exists|i: int| 0 <= i < s.len() && (#[trigger] s[i]).start_ms == (
            #[trigger] r[j]).start_ms
            &&& exists|i: int| 0 <= i < s.len() && (#[trigger] s[i]).end_ms == r[j].end_ms
        } by {
            if j < out.len() {
                let p = out[j];
                let i = choose|i: int| 0 <= i < t.len() && (#[trigger] t[i]).start_ms == p.start_ms;
                assert(s[i].start_ms == p.start_ms);
                let k = choose|k: int| 0 <= k < t.len() && (#[trigger] t[k]).end_ms == p.end_ms;
                assert(s[k].end_ms == p.end_ms);
                assert(s[s.len() - 1] == cur);
                if j < r.len() - 1 {
                    assert(r[j] == p);
                } else {
                    assert(out.last() == p);
                }
            } else {
                assert(r[j] == cur);
            }
        }
    }
}

/// Whether a stretch of time touches one of some segments.
pub open spec fn touched(s: Seq<types::SegmentView>, from: int, to: int) -> bool {
    exists|i: int| 0 <= i < s.len() && (#[trigger] s[i]).start_ms <= to && from <= s[i].end_ms
}

/// Joining near duplicates closes no pause of more than half a second: every such
/// stretch of a joined segment touches a segment that it was made of.
pub proof fn joined_duplicates_span_no_long_pause(
    s: Seq<types::SegmentView>,
    reach: int,
    j: int,
    from: int,
    to: int,
)
    requires
        timed(s),
        0 <= j < passes::deduplicated(s, reach).len(),
        passes::deduplicated(s, reach)[j].start_ms <= from,
        to <= passes::deduplicated(s, reach)[j].end_ms,
        from + 500 < to,
    ensures
        touched(s, from, to),
    decreases s.len(),
{
    let t = s.drop_last();
    let n = s.len() - 1;
    let cur = s[n];
    assert(s.last() == cur);
    assert forall|i: int| 0 <= i < t.len() implies (#[trigger] t[i]).start_ms <= t[i].end_ms by {
        assert(t[i] == s[i]);
    }
    let out = passes::deduplicated(t, reach);
    let r = passes::deduplicated(s, reach);
    if cur.start_ms <= to && from <= cur.end_ms {
        assert(s[n].start_ms <= to);
    } else if j < out.len() {
        let p = out[j];
        if p.start_ms <= from && to <= p.end_ms {
            joined_duplicates_span_no_long_pause(t, reach, j, from, to);
            let i = choose|i: int|
                0 <= i < t.len() && (#[trigger] t[i]).start_ms <= to && from <= t[i].end_ms;
            assert(s[i] == t[i]);
        } else {
            // The last segment so far and the new one, with a short pause between.
            assert(j == r.len() - 1 && out.last() == p);
            lemma_dedup_timed(t, reach);
            assert(p.start_ms <= p.end_ms);
            lemma_twins(p, cur, reach);
            lemma_dedup_ends(t, reach);
            let i = choose|i: int| 0 <= i < t.len() && (#[trigger] t[i]).start_ms == p.start_ms;
            let k = choose|k: int| 0 <= k < t.len() && (#[trigger] t[k]).end_ms == p.end_ms;
            assert(s[i] == t[i] && s[k] == t[k]);
            assert(t[i].start_ms <= t[i].end_ms && t[k].start_ms <= t[k].end_ms);
        }
    } else {
        assert(r[j] == cur);
    }
}

// ---------------------------------------------------------------------------
// Texts that contain one another
// ---------------------------------------------------------------------------
/// What one more segment does when texts that contain one another are joined: it
/// becomes one with the last segment so far just when the two stand at the same
/// height and one text is a part of the other. Together they last from the start of
/// the first to the end of the second, with the containing text at its height.
pub proof fn contained_texts_become_one(s: Seq<types::SegmentView>, cur: types::SegmentView)
    ensures
        ({
            let before = passes::substrings_joined(s);
            let after = passes::substrings_joined(s.push(cur));
            if s.len() == 0 {
                after == seq![cur]
            } else {
                let prev = before[before.len() - 1];
                let one = after[after.len() - 1];
                let joins = level(prev, cur) && (part_of(prev.text, cur.text) || part_of(
                    cur.text,
                    prev.text,
                ));
                &&& before.len() > 0
                &&& !joins ==> after == before.push(cur)
                &&& joins ==> {
                    &&& after.len() == before.len()
                    &&& forall|i: int| 0 <= i < before.len() - 1 ==> #[trigger] after[i]
                        == before[i]
                    &&& one.start_ms == prev.start_ms
                    &&& one.end_ms == cur.end_ms
                    &&& part_of(prev.text, cur.text) ==> one.text == cur.text && one.y_range
                        == cur.y_range
                    &&& part_of(cur.text, prev.text) ==> one.text == prev.text && one.y_range
                        == prev.y_range
                    &&& 0 <= prev.text_confidence + cur.text_confidence - 2 * one.text_confidence
                        <= 1
                    &&& one.frame_count == Some(frames_of(prev) + frames_of(cur))
                    &&& one.frames is None
                }
            }
        }),
{
    let before = passes::substrings_joined(s);
    assert(s.push(cur).drop_last() =~= s);
    if s.len() == 0 {
        assert(before =~= Seq::<types::SegmentView>::empty());
        assert(before.push(cur) =~= seq![cur]);
    } else {
        let prev = before[before.len() - 1];
        assert(before.last() == prev);
        lemma_part(prev.text, cur.text);
    }
}

/// Whether a segment is two neighbours in one, the text of one of which contains
/// that of the other: from the start of the first to the end of the second, with the
/// containing text at its height.
pub open spec fn is_both(
    one: types::SegmentView,
    prev: types::SegmentView,
    cur: types::SegmentView,
) -> bool {
    &&& one.start_ms == prev.start_ms
    &&& one.end_ms == cur.end_ms
    &&& part_of(prev.text, cur.text) ==> one.text == cur.text && one.y_range == cur.y_range
    &&& part_of(cur.text, prev.text) ==> one.text == prev.text && one.y_range == prev.y_range
    &&& 0 <= prev.text_confidence + cur.text_confidence - 2 * one.text_confidence <= 1
    &&& one.frame_count == Some(frames_of(prev) + frames_of(cur))
    &&& one.frames is None
}

/// What happens to the last two segments when texts that contain one another are
/// joined from the end on: they become one, which the segments before may join in
/// turn, just when they stand at the same height and one text is a part of the
/// other; else the last one stays as it is.
pub proof fn contained_texts_become_one_from_the_end(
    s: Seq<types::SegmentView>,
    prev: types::SegmentView,
    cur: types::SegmentView,
)
    ensures
        ({
            let all = s.push(prev).push(cur);
            let joins = level(prev, cur) && (part_of(prev.text, cur.text) || part_of(
                cur.text,
                prev.text,
            ));
            &&& !joins ==> backward::substrings_joined_back(all)
                == backward::substrings_joined_back(s.push(prev)).push(cur)
            &&& joins ==> exists|one: types::SegmentView| #[trigger]
                is_both(one, prev, cur) && backward::substrings_joined_back(all)
                    == backward::substrings_joined_back(s.push(one))
        }),
        backward::substrings_joined_back(seq![cur]) == seq![cur],
        backward::substrings_joined_back(Seq::empty()) == Seq::<types::SegmentView>::empty(),
{
    let all = s.push(prev).push(cur);
    lemma_part(prev.text, cur.text);
    assert(all.drop_last() =~= s.push(prev));
    assert(all.drop_last().drop_last() =~= s);
    assert(all[all.len() - 2] == prev);
    assert(all.last() == cur);
    let one = passes::absorbed(prev, cur);
    if passes::overlaps_in_text(prev, cur) {
        assert(is_both(one, prev, cur));
    }
}

// ---------------------------------------------------------------------------
// Flickers
// ---------------------------------------------------------------------------
/// A confidence in billionths, no less than zero and no more than one.
pub open spec fn sure(c: int) -> int {
    if c < 0 {
        0
    } else if c > 1_000_000_000 {
        1_000_000_000
    } else {
        c
    }
}

/// Whether a text is close to another one: three edits for a confidence of zero, none
/// for one of one, and two characters longer or shorter at most.
pub open spec fn resembles(b: types::SegmentView, x: types::SegmentView) -> bool {
    &&& distance::edits(b.text, x.text) * 1_000_000_000 <= 3 * (1_000_000_000 - sure(
        b.text_confidence,
    ))
    &&& b.text.len() <= x.text.len() + 2
    &&& x.text.len() <= b.text.len() + 2
}

/// Whether the second of three neighbours is a flicker between two showings of one
/// text: the first and the third are alike (two edits for a confidence of zero, none
/// for one of one), all stand at the same height, the second is less sure than eight
/// tenths, and it is short (half a second, and up to a second more the less sure it
/// is) or close to one of the others.
pub open spec fn flickers(
    a: types::SegmentView,
    b: types::SegmentView,
    c: types::SegmentView,
) -> bool {
    &&& distance::edits(a.text, c.text) * 1_000_000_000 <= 2 * (1_000_000_000 - sure(
        a.text_confidence,
    ))
    &&& level(a, b)
    &&& level(b, c)
    &&& sure(b.text_confidence) < 800_000_000
    &&& {
        ||| (b.end_ms - b.start_ms) * 1_000_000 <= 500_000_000 + (1_000_000_000 - sure(
            b.text_confidence,
        ))
        ||| resembles(b, a)
        ||| resembles(b, c)
    }
}

proof fn lemma_flicker(a: types::SegmentView, b: types::SegmentView, c: types::SegmentView)
    ensures
        passes::encloses(a, b, c) && passes::is_flicker(a, b, c) <==> flickers(a, b, c),
{
    assert(fixed::ONE == 1_000_000_000);
}

proof fn lemma_from(s: Seq<types::SegmentView>, i: int)
    requires
        0 <= i <= s.len(),
    ensures
        passes::flickers_removed(s, i) == s.take(i) + passes::flickers_removed(s.skip(i), 0),
    decreases s.len() - i,
{
    let t = s.skip(i);
    if i + 2 >= s.len() {
        assert(s =~= s.take(i) + t);
    } else {
        assert(t[0] == s[i] && t[1] == s[i + 1] && t[2] == s[i + 2]);
        if passes::is_noise_triplet(s, i) {
            let u = passes::folded_at(s, i);
            lemma_from(u, i);
            assert(u.take(i) =~= s.take(i));
            assert(u.skip(i) =~= passes::folded_at(t, 0));
        } else {
            lemma_from(s, i + 1);
            lemma_from(t, 1);
            assert(t.skip(1) =~= s.skip(i + 1));
            assert(s.take(i + 1) =~= s.take(i) + t.take(1));
            let rest = passes::flickers_removed(s.skip(i + 1), 0);
            assert((s.take(i) + t.take(1)) + rest =~= s.take(i) + (t.take(1) + rest));
        }
    }
}

/// What removing flickers does, from the first segment on: three of which the second
/// is a flicker become one, and the result is looked at again with what follows;
/// otherwise the first stays, and the others are looked at. Three become one with the
/// text and the height of the first, from its start to the end of the third, as sure
/// as all three in the mean, and with the frames of all of them.
pub proof fn flickers_are_folded(s: Seq<types::SegmentView>, one: types::SegmentView)
    requires
        s.len() >= 3,
        one.text == s[0].text,
        one.start_ms == s[0].start_ms,
        one.end_ms == s[2].end_ms,
        one.y_range == s[0].y_range,
        0 <= s[0].text_confidence + s[1].text_confidence + s[2].text_confidence - 3
            * one.text_confidence <= 2,
        one.frame_count == Some(frames_of(s[0]) + frames_of(s[1]) + frames_of(s[2])),
        one.frames == Some(notes_of(s[0]) + notes_of(s[1]) + notes_of(s[2])),
    ensures
        flickers(s[0], s[1], s[2]) ==> passes::flickers_removed(s, 0) == passes::flickers_removed(
            seq![one] + s.skip(3),
            0,
        ),
        !flickers(s[0], s[1], s[2]) ==> passes::flickers_removed(s, 0) == seq![s[0]]
            + passes::flickers_removed(s.skip(1), 0),
{
    lemma_flicker(s[0], s[1], s[2]);
    if flickers(s[0], s[1], s[2]) {
        let c = seq![s[0].text_confidence, s[1].text_confidence, s[2].text_confidence];
        reveal_with_fuel(fixed::total, 4);
        assert(c.drop_last().drop_last().drop_last() =~= Seq::<int>::empty());
        assert(fixed::total(c) == c[0] + c[1] + c[2]);
        assert(one.text_confidence == fixed::mean(c));
        assert(one =~= passes::three_as_one(s[0], s[1], s[2]));
        assert(passes::folded_at(s, 0) =~= seq![one] + s.skip(3));
    } else {
        lemma_from(s, 1);
        assert(s.take(1) =~= seq![s[0]]);
    }
}

/// One or two segments hold no flicker.
pub proof fn a_flicker_needs_three_segments(s: Seq<types::SegmentView>)
    requires
        s.len() < 3,
    ensures
        passes::flickers_removed(s, 0) == s,
{
}

// ---------------------------------------------------------------------------
// The same text again
// ---------------------------------------------------------------------------
/// Whether the second of two neighbours shows the text of the first again, white
/// space aside, after it and no more than two seconds later.
pub open spec fn again(a: types::SegmentView, b: types::SegmentView) -> bool {
    &&& strings::normalized(a.text) == strings::normalized(b.text)
    &&& a.end_ms <= b.start_ms
    &&& b.start_ms <= a.end_ms + 2000
}

/// What joining the showings of one text does, from the last segment back: the last
/// two become one just when the second shows the text of the first again. Together
/// they have the text, the start and the height of the first and the end of the
/// second, are as sure as both in the mean and have the frames of both.
pub proof fn repeated_texts_become_one(
    s: Seq<types::SegmentView>,
    a: types::SegmentView,
    b: types::SegmentView,
    one: types::SegmentView,
)
    requires
        one.text == a.text,
        one.start_ms == a.start_ms,
        one.end_ms == b.end_ms,
        one.y_range == a.y_range,
        0 <= a.text_confidence + b.text_confidence - 2 * one.text_confidence <= 1,
        one.frame_count == Some(frames_of(a) + frames_of(b)),
        one.frames is None,
    ensures
        again(a, b) ==> passes::repeats_joined(s.push(a).push(b)) == passes::repeats_joined(
            s.push(one),
        ),
        !again(a, b) ==> passes::repeats_joined(s.push(a).push(b)) == passes::repeats_joined(
            s.push(a),
        ).push(b),
{
    let t = s.push(a).push(b);
    assert(t.drop_last() =~= s.push(a));
    assert(s.push(a).drop_last() =~= s);
    assert(t[t.len() - 2] == a);
    let c = seq![a.text_confidence, b.text_confidence];
    reveal_with_fuel(fixed::total, 3);
    assert(c.drop_last().drop_last() =~= Seq::<int>::empty());
    assert(fixed::total(c) == c[0] + c[1]);
    assert(one.text_confidence == fixed::mean(c));
    assert(one =~= passes::prolonged(a, b));
}

/// One segment has nothing to be joined with.
pub proof fn a_repeat_needs_two_segments(s: Seq<types::SegmentView>)
    requires
        s.len() < 2,
    ensures
        passes::repeats_joined(s) == s,
{
}

// ---------------------------------------------------------------------------
// Frames
// ---------------------------------------------------------------------------
/// What one more frame does to the segments of some frames.
///
/// A frame without text adds no segment: it is the moment at which the last segment
/// ends, if the text was still shown. A frame with text joins the last segment if it
/// shows the same text, white space aside; after a frame without text also if one
/// text is a part of the other, but no later than a second and a half after the text
/// went away. Any other frame with text starts a segment of its own.
pub proof fn frames_join_segments_of_the_same_text(
    frames: Seq<types::FrameView>,
    f: types::FrameView,
)
    requires
        forall|i: int| 0 <= i < frames.len() ==> (#[trigger] frames[i]).timestamp > 0,
        f.timestamp > 0,
    ensures
        ({
            let before = segments::base_segments(frames);
            let after = segments::base_segments(frames.push(f));
            let last = before[before.len() - 1];
            let new = after[after.len() - 1];
            let blank = frames.len() > 0 && frames[frames.len() - 1].text.len() == 0;
            let alike = strings::normalized(f.text) == strings::normalized(last.text);
            let joins = before.len() > 0 && (if blank {
                (alike || part_of(f.text, last.text) || part_of(last.text, f.text)) && f.timestamp
                    <= last.end_ms + 1500
            } else {
                alike
            });
            &&& f.text.len() == 0 && (before.len() == 0 || blank) ==> after == before
            &&& f.text.len() == 0 && before.len() > 0 && !blank ==> after == before.drop_last().push(
                types::SegmentView { end_ms: f.timestamp, ..last },
            )
            &&& f.text.len() > 0 && !joins ==> {
                &&& after.len() == before.len() + 1
                &&& after.drop_last() == before
                &&& new.text == f.text
                &&& new.start_ms == f.timestamp
                &&& new.end_ms == f.timestamp
                &&& new.y_range == Some(f.y_range)
                &&& new.text_confidence == f.text_confidence
                &&& new.frame_count == Some(1int)
            }
            &&& f.text.len() > 0 && joins ==> {
                &&& after.len() == before.len()
                &&& after.drop_last() == before.drop_last()
                &&& new.text == last.text
                &&& new.start_ms == last.start_ms
                &&& new.end_ms == f.timestamp
                &&& new.y_range == last.y_range
                &&& new.frame_count == Some(frames_of(last) + 1)
                &&& new.frames == Some(notes_of(last).push(segments::note_of(f)))
            }
        }),
{
    let s = segments::joining(frames);
    let t = segments::joining(frames.push(f));
    assert(frames.push(f).drop_last() =~= frames);
    let before = segments::base_segments(frames);
    let after = segments::base_segments(frames.push(f));
    lemma_open(frames);
    match s.open {
        None => {
            if f.text.len() > 0 {
                assert(after.drop_last() =~= before);
                lemma_single(f);
            }
        },
        Some(o) => {
            let last = segments::closed_at(o, segments::last_moment(o));
            assert(before.last() == last);
            assert(before.drop_last() =~= s.done);
            lemma_part(f.text, o.text);
            if t.open is Some {
                assert(after.drop_last() =~= t.done);
            }
            lemma_single(f);
        },
    }
}

proof fn lemma_single(f: types::FrameView)
    ensures
        fixed::mean(seq![f.text_confidence]) == f.text_confidence,
{
    let c = seq![f.text_confidence];
    reveal_with_fuel(fixed::total, 2);
    assert(c.drop_last() =~= Seq::<int>::empty());
    assert(fixed::total(c) == c[0]);
}

/// The text of the open segment is away just when the last frame shows none.
proof fn lemma_open(frames: Seq<types::FrameView>)
    requires
        forall|i: int| 0 <= i < frames.len() ==> (#[trigger] frames[i]).timestamp > 0,
    ensures
        match segments::joining(frames).open {
            None => segments::joining(frames).done.len() == 0,
            Some(o) => {
                &&& frames.len() > 0
                &&& o.away >= 0
                &&& o.away > 0 <==> frames[frames.len() - 1].text.len() == 0
            },
        },
    decreases frames.len(),
{
    if frames.len() > 0 {
        let t = frames.drop_last();
        assert forall|i: int| 0 <= i < t.len() implies (#[trigger] t[i]).timestamp > 0 by {
            assert(t[i] == frames[i]);
        }
        lemma_open(t);
        assert(frames[frames.len() - 1].timestamp > 0);
        assert(frames.last() == frames[frames.len() - 1]);
    }
}

/// All passes run over the segments of the frames, in this order: texts that contain
/// one another, if they are to be joined, flickers, near duplicates, repeats.
pub proof fn all_passes_are_run(frames: Seq<types::FrameView>, args: MergeFramesArgs)
    ensures
        ({
            let joins = args.is_merge_substring == Some(true);
            let reach: int = match args.dedup_edit_distance {
                Some(n) => n as int,
                None => 1,
            };
            let base = segments::base_segments(frames);
            let contained = if joins {
                passes::substrings_joined(base)
            } else {
                base
            };
            let calm = passes::flickers_removed(contained, 0);
            passes::merged(frames, args) == passes::repeats_joined(
                passes::deduplicated(calm, reach),
            )
        }),
{
}

} // verus!
