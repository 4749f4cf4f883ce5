//! What holds of the segments as a whole.
use super::fixed;
use super::passes;
use super::segments;
use super::types;
use crate::text::strings;
use vstd::prelude::*;

verus! {

/// Frames in the order of time.
pub open spec fn in_time(frames: Seq<types::FrameView>) -> bool {
    forall|i: int, j: int|
        0 <= i <= j < frames.len() ==> 0 <= (#[trigger] frames[i]).timestamp <= (
        #[trigger] frames[j]).timestamp
}

/// Segments that follow one another in time: each ends no earlier than it
/// starts, and no later than the next one starts.
pub open spec fn in_sequence(s: Seq<types::SegmentView>) -> bool {
    &&& forall|i: int| 0 <= i < s.len() ==> (#[trigger] s[i]).start_ms <= s[i].end_ms
    &&& forall|i: int, j: int|
        0 <= i < j < s.len() ==> (#[trigger] s[i]).end_ms <= (#[trigger] s[j]).start_ms
}

/// Every segment shows a text.
pub open spec fn all_have_text(s: Seq<types::SegmentView>) -> bool {
    forall|i: int| 0 <= i < s.len() ==> (#[trigger] s[i]).text.len() > 0
}

proof fn lemma_joining(frames: Seq<types::FrameView>)
    requires
        in_time(frames),
    ensures
        ({
            let s = segments::joining(frames);
            &&& in_sequence(s.done)
            &&& frames.len() > 0 ==> forall|i: int|
                0 <= i < s.done.len() ==> (#[trigger] s.done[i]).end_ms <= frames.last().timestamp
            &&& frames.len() == 0 ==> s.done.len() == 0 && s.open is None
            &&& match s.open {
                Some(o) => {
                    &&& o.start <= o.end <= frames.last().timestamp
                    &&& o.away > 0 ==> o.end <= o.away <= frames.last().timestamp
                    &&& o.away >= 0
                    &&& forall|i: int|
                        0 <= i < s.done.len() ==> (#[trigger] s.done[i]).end_ms <= o.start
                },
                None => true,
            }
        }),
    decreases frames.len(),
{
    if frames.len() > 0 {
        let before = frames.drop_last();
        assert(in_time(before)) by {
            assert forall|i: int, j: int| 0 <= i <= j < before.len() implies 0 <= (
            #[trigger] before[i]).timestamp <= (#[trigger] before[j]).timestamp by {
                assert(before[i] == frames[i] && before[j] == frames[j]);
            }
        }
        lemma_joining(before);
        let f = frames.last();
        assert(f == frames[frames.len() - 1]);
        if before.len() > 0 {
            assert(before.last() == frames[frames.len() - 2]);
        }
        let s = segments::joining(before);
        let t = segments::joining(frames);
        match s.open {
            Some(o) => {
                assert forall|i: int, j: int| 0 <= i < j < t.done.len() implies (
                #[trigger] t.done[i]).end_ms <= (#[trigger] t.done[j]).start_ms by {
                    if j < s.done.len() {
                        assert(t.done[i] == s.done[i] && t.done[j] == s.done[j]);
                    } else {
                        assert(t.done[i] == s.done[i]);
                    }
                }
                assert forall|i: int| 0 <= i < t.done.len() implies (#[trigger] t.done[i]).start_ms
                    <= t.done[i].end_ms && t.done[i].end_ms <= f.timestamp by {
                    if i < s.done.len() {
                        assert(t.done[i] == s.done[i]);
                    }
                }
            },
            None => {},
        }
    }
}

/// The segments of frames in the order of time follow one another: none ends
/// before it starts, and none starts before the one before it has ended.
pub proof fn base_segments_follow_one_another(frames: Seq<types::FrameView>)
    requires
        in_time(frames),
    ensures
        in_sequence(segments::base_segments(frames)),
{
    lemma_joining(frames);
    let s = segments::joining(frames);
    let r = segments::base_segments(frames);
    match s.open {
        Some(o) => {
            assert forall|i: int, j: int| 0 <= i < j < r.len() implies (#[trigger] r[i]).end_ms
                <= (#[trigger] r[j]).start_ms by {
                assert(r[i] == s.done[i]);
                if j < s.done.len() {
                    assert(r[j] == s.done[j]);
                }
            }
            assert forall|i: int| 0 <= i < r.len() implies (#[trigger] r[i]).start_ms
                <= r[i].end_ms by {
                if i < s.done.len() {
                    assert(r[i] == s.done[i]);
                }
            }
        },
        None => {},
    }
}

proof fn lemma_joining_text(frames: Seq<types::FrameView>)
    ensures
        all_have_text(segments::joining(frames).done),
        segments::joining(frames).open matches Some(o) ==> o.text.len() > 0,
    decreases frames.len(),
{
    if frames.len() > 0 {
        lemma_joining_text(frames.drop_last());
    }
}

proof fn lemma_absorbed_text(s: Seq<types::SegmentView>)
    requires
        all_have_text(s),
    ensures
        all_have_text(passes::substrings_joined(s)),
    decreases s.len(),
{
    if s.len() > 0 {
        let t = s.drop_last();
        assert forall|i: int| 0 <= i < t.len() implies (#[trigger] t[i]).text.len() > 0 by {
            assert(t[i] == s[i]);
        }
        lemma_absorbed_text(t);
        let out = passes::substrings_joined(t);
        let r = passes::substrings_joined(s);
        assert(s[s.len() - 1].text.len() > 0);
        assert forall|i: int| 0 <= i < r.len() implies (#[trigger] r[i]).text.len() > 0 by {
            if i < out.len() {
                assert(out[i].text.len() > 0);
            }
        }
    }
}

proof fn lemma_calm_text(s: Seq<types::SegmentView>, i: int)
    requires
        all_have_text(s),
        0 <= i,
    ensures
        all_have_text(passes::flickers_removed(s, i)),
    decreases s.len() - i,
{
    if i + 2 < s.len() {
        if passes::is_noise_triplet(s, i) {
            let t = passes::folded_at(s, i);
            assert forall|k: int| 0 <= k < t.len() implies (#[trigger] t[k]).text.len() > 0 by {
                if k <= i {
                    assert(s[k].text.len() > 0);
                } else {
                    assert(t[k] == s[k + 2]);
                }
            }
            lemma_calm_text(t, i);
        } else {
            lemma_calm_text(s, i + 1);
        }
    }
}

proof fn lemma_deduplicated_text(s: Seq<types::SegmentView>, reach: int)
    requires
        all_have_text(s),
    ensures
        all_have_text(passes::deduplicated(s, reach)),
    decreases s.len(),
{
    if s.len() > 0 {
        let t = s.drop_last();
        assert forall|i: int| 0 <= i < t.len() implies (#[trigger] t[i]).text.len() > 0 by {
            assert(t[i] == s[i]);
        }
        lemma_deduplicated_text(t, reach);
        let out = passes::deduplicated(t, reach);
        let r = passes::deduplicated(s, reach);
        assert(s[s.len() - 1].text.len() > 0);
        assert forall|i: int| 0 <= i < r.len() implies (#[trigger] r[i]).text.len() > 0 by {
            if i < out.len() {
                assert(out[i].text.len() > 0);
            }
        }
    }
}

proof fn lemma_repeats_text(s: Seq<types::SegmentView>)
    requires
        all_have_text(s),
    ensures
        all_have_text(passes::repeats_joined(s)),
    decreases s.len(),
{
    if s.len() >= 2 {
        let prev = s[s.len() - 2];
        let cur = s.last();
        let rest = s.drop_last();
        assert(prev.text.len() > 0);
        assert(cur.text.len() > 0);
        assert forall|i: int| 0 <= i < rest.len() implies (#[trigger] rest[i]).text.len() > 0 by {
            assert(rest[i] == s[i]);
        }
        if passes::shown_again(prev, cur) {
            let t = rest.drop_last().push(passes::prolonged(prev, cur));
            assert forall|i: int| 0 <= i < t.len() implies (#[trigger] t[i]).text.len() > 0 by {
                if i < rest.len() - 1 {
                    assert(t[i] == rest[i]);
                }
            }
            lemma_repeats_text(t);
        } else {
            lemma_repeats_text(rest);
            let out = passes::repeats_joined(rest);
            let r = out.push(cur);
            assert forall|i: int| 0 <= i < r.len() implies (#[trigger] r[i]).text.len() > 0 by {
                if i < out.len() {
                    assert(out[i].text.len() > 0);
                }
            }
        }
    }
}

/// Frames without text make no segment, and no pass makes one: every segment of
/// the result has a text.
pub proof fn every_segment_has_text(
    frames: Seq<types::FrameView>,
    args: segments::MergeFramesArgs,
)
    ensures
        all_have_text(passes::merged(frames, args)),
{
    lemma_joining_text(frames);
    let base = segments::base_segments(frames);
    assert(all_have_text(base)) by {
        let s = segments::joining(frames);
        assert forall|i: int| 0 <= i < base.len() implies (#[trigger] base[i]).text.len() > 0 by {
            if i < s.done.len() {
                assert(base[i] == s.done[i]);
            }
        }
    }
    let contained = if args.joins_substrings() {
        passes::substrings_joined(base)
    } else {
        base
    };
    if args.joins_substrings() {
        lemma_absorbed_text(base);
    }
    lemma_calm_text(contained, 0);
    let calm = passes::flickers_removed(contained, 0);
    lemma_deduplicated_text(calm, args.reach());
    lemma_repeats_text(passes::deduplicated(calm, args.reach()));
}

/// The last segment after the pass ends with the last one before it and shows
/// the same text, and no neighbours are left to join.
proof fn lemma_repeats_end(s: Seq<types::SegmentView>)
    ensures
        s.len() > 0 ==> {
            let r = passes::repeats_joined(s);
            &&& r.len() > 0
            &&& r.last().end_ms == s.last().end_ms
            &&& strings::normalized(r.last().text) == strings::normalized(s.last().text)
        },
        forall|i: int|
            0 <= i < passes::repeats_joined(s).len() - 1 ==> !passes::shown_again(
                #[trigger] passes::repeats_joined(s)[i],
                passes::repeats_joined(s)[i + 1],
            ),
    decreases s.len(),
{
    if s.len() >= 2 {
        let prev = s[s.len() - 2];
        let cur = s.last();
        let rest = s.drop_last();
        if passes::shown_again(prev, cur) {
            lemma_repeats_end(rest.drop_last().push(passes::prolonged(prev, cur)));
        } else {
            lemma_repeats_end(rest);
            assert(rest.last() == prev);
            let out = passes::repeats_joined(rest);
            let r = out.push(cur);
            assert forall|i: int| 0 <= i < r.len() - 1 implies !passes::shown_again(
                #[trigger] r[i],
                r[i + 1],
            ) by {
                if i < out.len() - 1 {
                    assert(r[i] == out[i] && r[i + 1] == out[i + 1]);
                } else {
                    assert(r[i] == out.last());
                }
            }
        }
    }
}

/// In the result no two neighbours show the same text with a short pause between
/// them.
pub proof fn no_repeats_are_left(s: Seq<types::SegmentView>, i: int)
    requires
        0 <= i < passes::repeats_joined(s).len() - 1,
    ensures
        !passes::shown_again(passes::repeats_joined(s)[i], passes::repeats_joined(s)[i + 1]),
{
    lemma_repeats_end(s);
    let _ = passes::repeats_joined(s)[i];
}

/// A segment that takes the place of the last one, or comes after it.
proof fn lemma_sequence_push(s: Seq<types::SegmentView>, x: types::SegmentView)
    requires
        in_sequence(s),
        x.start_ms <= x.end_ms,
        s.len() > 0 ==> s.last().end_ms <= x.start_ms,
    ensures
        in_sequence(s.push(x)),
{
    let r = s.push(x);
    assert forall|i: int, j: int| 0 <= i < j < r.len() implies (#[trigger] r[i]).end_ms <= (
    #[trigger] r[j]).start_ms by {
        assert(r[i] == s[i]);
        if j < s.len() {
            assert(r[j] == s[j]);
        } else if i < s.len() - 1 {
            assert(s[i].end_ms <= s[s.len() - 1].start_ms);
            assert(s[s.len() - 1].start_ms <= s[s.len() - 1].end_ms);
        }
    }
    assert forall|i: int| 0 <= i < r.len() implies (#[trigger] r[i]).start_ms <= r[i].end_ms by {
        if i < s.len() {
            assert(r[i] == s[i]);
        }
    }
}

proof fn lemma_sequence_take(s: Seq<types::SegmentView>)
    requires
        in_sequence(s),
        s.len() > 0,
    ensures
        in_sequence(s.drop_last()),
        s.last().start_ms <= s.last().end_ms,
        s.len() > 1 ==> s.drop_last().last().end_ms <= s.last().start_ms,
{
    let t = s.drop_last();
    assert(s.last() == s[s.len() - 1]);
    assert forall|i: int, j: int| 0 <= i < j < t.len() implies (#[trigger] t[i]).end_ms <= (
    #[trigger] t[j]).start_ms by {
        assert(t[i] == s[i] && t[j] == s[j]);
    }
    assert forall|i: int| 0 <= i < t.len() implies (#[trigger] t[i]).start_ms <= t[i].end_ms by {
        assert(t[i] == s[i]);
    }
    if s.len() > 1 {
        assert(t.last() == s[s.len() - 2]);
    }
}

proof fn lemma_substrings_sequence(s: Seq<types::SegmentView>)
    requires
        in_sequence(s),
    ensures
        in_sequence(passes::substrings_joined(s)),
        s.len() > 0 ==> {
            &&& passes::substrings_joined(s).len() > 0
            &&& passes::substrings_joined(s).last().end_ms == s.last().end_ms
        },
    decreases s.len(),
{
    if s.len() > 0 {
        lemma_sequence_take(s);
        lemma_substrings_sequence(s.drop_last());
        let out = passes::substrings_joined(s.drop_last());
        let cur = s.last();
        if out.len() > 0 && passes::overlaps_in_text(out.last(), cur) {
            lemma_sequence_take(out);
            lemma_sequence_push(out.drop_last(), passes::absorbed(out.last(), cur));
        } else {
            lemma_sequence_push(out, cur);
        }
    }
}

proof fn lemma_calm_sequence(s: Seq<types::SegmentView>, i: int)
    requires
        in_sequence(s),
        0 <= i,
    ensures
        in_sequence(passes::flickers_removed(s, i)),
    decreases s.len() - i,
{
    if i + 2 < s.len() {
        if passes::is_noise_triplet(s, i) {
            let t = passes::folded_at(s, i);
            assert forall|k: int| 0 <= k < t.len() implies (#[trigger] t[k]).start_ms
                <= t[k].end_ms by {
                if k < i {
                    assert(t[k] == s[k]);
                } else if k > i {
                    assert(t[k] == s[k + 2]);
                } else {
                    assert(s[i].start_ms <= s[i].end_ms);
                    assert(s[i].end_ms <= s[i + 2].start_ms);
                    assert(s[i + 2].start_ms <= s[i + 2].end_ms);
                }
            }
            assert forall|k: int, j: int| 0 <= k < j < t.len() implies (#[trigger] t[k]).end_ms
                <= (#[trigger] t[j]).start_ms by {
                let a = if k < i {
                    k
                } else {
                    k + 2
                };
                let b = if j <= i {
                    j
                } else {
                    j + 2
                };
                assert(t[k].end_ms == s[a].end_ms);
                assert(t[j].start_ms == s[b].start_ms);
                assert(a < b);
            }
            lemma_calm_sequence(t, i);
        } else {
            lemma_calm_sequence(s, i + 1);
        }
    }
}

proof fn lemma_deduplicated_sequence(s: Seq<types::SegmentView>, reach: int)
    requires
        in_sequence(s),
    ensures
        in_sequence(passes::deduplicated(s, reach)),
        s.len() > 0 ==> {
            &&& passes::deduplicated(s, reach).len() > 0
            &&& passes::deduplicated(s, reach).last().end_ms == s.last().end_ms
        },
    decreases s.len(),
{
    if s.len() > 0 {
        lemma_sequence_take(s);
        lemma_deduplicated_sequence(s.drop_last(), reach);
        let out = passes::deduplicated(s.drop_last(), reach);
        let cur = s.last();
        if out.len() > 0 && passes::duplicates(out.last(), cur, reach) {
            lemma_sequence_take(out);
            lemma_sequence_push(out.drop_last(), passes::two_as_one(out.last(), cur));
        } else {
            lemma_sequence_push(out, cur);
        }
    }
}

proof fn lemma_repeats_sequence(s: Seq<types::SegmentView>)
    requires
        in_sequence(s),
    ensures
        in_sequence(passes::repeats_joined(s)),
    decreases s.len(),
{
    if s.len() >= 2 {
        let prev = s[s.len() - 2];
        let cur = s.last();
        let rest = s.drop_last();
        lemma_sequence_take(s);
        assert(rest.last() == prev);
        if passes::shown_again(prev, cur) {
            lemma_sequence_take(rest);
            lemma_sequence_push(rest.drop_last(), passes::prolonged(prev, cur));
            lemma_repeats_sequence(rest.drop_last().push(passes::prolonged(prev, cur)));
        } else {
            lemma_repeats_sequence(rest);
            lemma_repeats_end(rest);
            lemma_sequence_push(passes::repeats_joined(rest), cur);
        }
    }
}

/// The segments that frames in the order of time are merged into follow one
/// another in time.
pub proof fn merged_segments_follow_one_another(
    frames: Seq<types::FrameView>,
    args: segments::MergeFramesArgs,
)
    requires
        in_time(frames),
    ensures
        in_sequence(passes::merged(frames, args)),
{
    base_segments_follow_one_another(frames);
    let base = segments::base_segments(frames);
    lemma_substrings_sequence(base);
    let contained = if args.joins_substrings() {
        passes::substrings_joined(base)
    } else {
        base
    };
    lemma_calm_sequence(contained, 0);
    let calm = passes::flickers_removed(contained, 0);
    lemma_deduplicated_sequence(calm, args.reach());
    lemma_repeats_sequence(passes::deduplicated(calm, args.reach()));
}

/// A surely recognised segment is never taken for a flicker.
pub proof fn sure_segments_are_no_flickers(
    a: types::SegmentView,
    b: types::SegmentView,
    c: types::SegmentView,
)
    requires
        b.text_confidence >= passes::HIGH_CONFIDENCE,
    ensures
        !passes::is_flicker(a, b, c),
{
}

/// Two different words of one or two characters of which none contains the other
/// are never joined as duplicates.
pub proof fn short_words_stay_apart(prev: types::SegmentView, cur: types::SegmentView, reach: int)
    requires
        prev.text.len() <= 2,
        cur.text.len() <= 2,
        prev.text != cur.text,
        !strings::one_in_other(prev.text, cur.text),
    ensures
        !passes::duplicates(prev, cur, reach),
{
}

/// The notes on the frames with text, in order.
pub open spec fn shown_notes(frames: Seq<types::FrameView>) -> Seq<types::NoteView>
    decreases frames.len(),
{
    if frames.len() == 0 {
        Seq::empty()
    } else if frames.last().text.len() == 0 {
        shown_notes(frames.drop_last())
    } else {
        shown_notes(frames.drop_last()).push(segments::note_of(frames.last()))
    }
}

/// The notes of all segments, in order.
pub open spec fn listed(s: Seq<types::SegmentView>) -> Seq<types::NoteView>
    decreases s.len(),
{
    if s.len() == 0 {
        Seq::empty()
    } else {
        match s.last().frames {
            Some(notes) => listed(s.drop_last()) + notes,
            None => listed(s.drop_last()),
        }
    }
}

/// The confidences that are noted.
pub open spec fn noted_confidences(notes: Seq<types::NoteView>) -> Seq<int> {
    notes.map_values(|n: types::NoteView| n.text_confidence)
}

/// Whether a segment lists as many frames as it counts, and is as sure as they are
/// in the mean.
pub open spec fn lists_all(x: types::SegmentView) -> bool {
    x.frames matches Some(notes) && x.frame_count == Some(notes.len() as int)
        && x.text_confidence == fixed::mean(noted_confidences(notes))
}

proof fn lemma_listed(s: Seq<types::SegmentView>, o: segments::OpenView, end: int)
    requires
        o.confidences == noted_confidences(o.notes),
        forall|i: int| 0 <= i < s.len() ==> lists_all(#[trigger] s[i]),
    ensures
        ({
            let r = s.push(segments::closed_at(o, end));
            &&& listed(r) == listed(s) + o.notes
            &&& forall|i: int| 0 <= i < r.len() ==> lists_all(#[trigger] r[i])
        }),
{
    let r = s.push(segments::closed_at(o, end));
    assert(r.drop_last() =~= s);
    assert forall|i: int| 0 <= i < r.len() implies lists_all(#[trigger] r[i]) by {
        if i < s.len() {
            assert(r[i] == s[i]);
        }
    }
}

proof fn lemma_joining_lists(frames: Seq<types::FrameView>)
    ensures
        ({
            let s = segments::joining(frames);
            &&& forall|i: int| 0 <= i < s.done.len() ==> lists_all(#[trigger] s.done[i])
            &&& match s.open {
                None => listed(s.done) == shown_notes(frames),
                Some(o) => {
                    &&& listed(s.done) + o.notes == shown_notes(frames)
                    &&& o.confidences == noted_confidences(o.notes)
                },
            }
        }),
    decreases frames.len(),
{
    if frames.len() > 0 {
        let before = frames.drop_last();
        let f = frames.last();
        lemma_joining_lists(before);
        let s = segments::joining(before);
        let t = segments::joining(frames);
        let n = segments::note_of(f);
        assert(noted_confidences(seq![n]) =~= seq![f.text_confidence]);
        match s.open {
            None => {
                assert(listed(s.done) + seq![n] =~= listed(s.done).push(n));
            },
            Some(o) => {
                assert(noted_confidences(o.notes.push(n)) =~= o.confidences.push(
                    f.text_confidence,
                ));
                assert(listed(s.done) + o.notes.push(n) =~= (listed(s.done) + o.notes).push(n));
                lemma_listed(s.done, o, o.away);
                lemma_listed(s.done, o, o.end);
                assert((listed(s.done) + o.notes) + seq![n] =~= (listed(s.done) + o.notes).push(
                    n,
                ));
            },
        }
    }
}

/// The segments of some frames list every frame with text once, in order. Each
/// lists as many frames as it counts, and is as sure as they are in the mean.
pub proof fn base_segments_list_their_frames(frames: Seq<types::FrameView>)
    ensures
        listed(segments::base_segments(frames)) == shown_notes(frames),
        forall|i: int|
            0 <= i < segments::base_segments(frames).len() ==> lists_all(
                #[trigger] segments::base_segments(frames)[i],
            ),
{
    lemma_joining_lists(frames);
    let s = segments::joining(frames);
    if let Some(o) = s.open {
        lemma_listed(s.done, o, segments::last_moment(o));
    }
}

} // verus!
