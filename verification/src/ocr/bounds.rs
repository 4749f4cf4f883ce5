//! Merging brings no new numbers: confidences and places stay between those of
//! the frames.
use super::fixed;
use super::passes;
use super::segments;
use super::types;
use super::types::Span;
use vstd::prelude::*;

verus! {

/// The least and the largest confidence, and the rows between which texts stand.
pub ghost struct Limits {
    pub least: int,
    pub most: int,
    pub top: int,
    pub bottom: int,
}

impl Limits {
    pub open spec fn spans(self, r: Span) -> bool {
        self.top <= r.low <= self.bottom && self.top <= r.high <= self.bottom
    }

    /// Whether a segment is as sure as allowed, and stands where allowed.
    pub open spec fn hold_of(self, x: types::SegmentView) -> bool {
        &&& self.least <= x.text_confidence <= self.most
        &&& x.y_range matches Some(r) ==> self.spans(r)
    }

    pub open spec fn hold_of_all(self, s: Seq<types::SegmentView>) -> bool {
        forall|i: int| 0 <= i < s.len() ==> self.hold_of(#[trigger] s[i])
    }

    /// Whether all frames with a text are as sure as allowed, and the text stands
    /// where allowed.
    pub open spec fn hold_of_frames(self, frames: Seq<types::FrameView>) -> bool {
        forall|i: int|
            0 <= i < frames.len() && (#[trigger] frames[i]).text.len() > 0 ==> self.least
                <= frames[i].text_confidence <= self.most && self.spans(frames[i].y_range)
    }

    spec fn hold_of_open(self, o: segments::OpenView) -> bool {
        &&& o.confidences.len() > 0
        &&& forall|i: int|
            0 <= i < o.confidences.len() ==> self.least <= #[trigger] o.confidences[i]
                <= self.most
        &&& o.y_range matches Some(r) ==> self.spans(r)
    }
}

proof fn lemma_last(s: Seq<types::SegmentView>, x: types::SegmentView, l: Limits)
    requires
        l.hold_of_all(s),
        l.hold_of(x),
    ensures
        l.hold_of_all(s.push(x)),
        s.len() > 0 ==> l.hold_of_all(s.drop_last()),
        s.len() > 0 ==> l.hold_of(s.last()),
        s.len() > 0 ==> l.hold_of_all(s.drop_last().push(x)),
{
    if s.len() > 0 {
        let t = s.drop_last();
        assert forall|i: int| 0 <= i < t.len() implies l.hold_of(#[trigger] t[i]) by {
            assert(t[i] == s[i]);
        }
        assert(s.last() == s[s.len() - 1]);
    }
}

proof fn lemma_closed(o: segments::OpenView, end: int, l: Limits)
    requires
        l.hold_of_open(o),
    ensures
        l.hold_of(segments::closed_at(o, end)),
{
    fixed::mean_lies_between(o.confidences, l.least, l.most);
}

proof fn lemma_joining(frames: Seq<types::FrameView>, l: Limits)
    requires
        l.hold_of_frames(frames),
    ensures
        l.hold_of_all(segments::joining(frames).done),
        segments::joining(frames).open matches Some(o) ==> l.hold_of_open(o),
    decreases frames.len(),
{
    if frames.len() > 0 {
        let t = frames.drop_last();
        let f = frames.last();
        assert forall|i: int| 0 <= i < t.len() && (#[trigger] t[i]).text.len() > 0 implies l.least
            <= t[i].text_confidence <= l.most && l.spans(t[i].y_range) by {
            assert(t[i] == frames[i]);
        }
        assert(f == frames[frames.len() - 1]);
        lemma_joining(t, l);
        let s = segments::joining(t);
        if let Some(o) = s.open {
            lemma_closed(o, o.away, l);
            lemma_closed(o, o.end, l);
            lemma_last(s.done, segments::closed_at(o, o.away), l);
            lemma_last(s.done, segments::closed_at(o, o.end), l);
            if f.text.len() > 0 {
                let more = o.confidences.push(f.text_confidence);
                assert forall|i: int| 0 <= i < more.len() implies l.least <= #[trigger] more[i]
                    <= l.most by {
                    if i < o.confidences.len() {
                        assert(more[i] == o.confidences[i]);
                    }
                }
            }
        }
    }
}

proof fn lemma_two(a: int, b: int, l: Limits)
    requires
        l.least <= a <= l.most,
        l.least <= b <= l.most,
    ensures
        l.least <= segments::merged_confidence(Some(a), Some(b)) <= l.most,
        l.least <= fixed::mean(seq![a, b]) <= l.most,
{
    fixed::mean_lies_between(seq![a, b], l.least, l.most);
}

proof fn lemma_substrings(s: Seq<types::SegmentView>, l: Limits)
    requires
        l.hold_of_all(s),
    ensures
        l.hold_of_all(passes::substrings_joined(s)),
    decreases s.len(),
{
    if s.len() > 0 {
        let cur = s.last();
        assert(l.hold_of(s[s.len() - 1]));
        lemma_last(s, cur, l);
        lemma_substrings(s.drop_last(), l);
        let out = passes::substrings_joined(s.drop_last());
        lemma_last(out, cur, l);
        if out.len() > 0 {
            lemma_two(out.last().text_confidence, cur.text_confidence, l);
            lemma_last(out, passes::absorbed(out.last(), cur), l);
        }
    }
}

proof fn lemma_flickers(s: Seq<types::SegmentView>, i: int, l: Limits)
    requires
        l.hold_of_all(s),
        0 <= i,
    ensures
        l.hold_of_all(passes::flickers_removed(s, i)),
    decreases s.len() - i,
{
    if i + 2 < s.len() {
        if passes::is_noise_triplet(s, i) {
            let three = seq![
                s[i].text_confidence,
                s[i + 1].text_confidence,
                s[i + 2].text_confidence,
            ];
            assert(l.hold_of(s[i]) && l.hold_of(s[i + 1]) && l.hold_of(s[i + 2]));
            fixed::mean_lies_between(three, l.least, l.most);
            let t = passes::folded_at(s, i);
            assert forall|k: int| 0 <= k < t.len() implies l.hold_of(#[trigger] t[k]) by {
                if k < i {
                    assert(t[k] == s[k]);
                } else if k > i {
                    assert(t[k] == s[k + 2]);
                }
            }
            lemma_flickers(t, i, l);
        } else {
            lemma_flickers(s, i + 1, l);
        }
    }
}

proof fn lemma_duplicates(s: Seq<types::SegmentView>, reach: int, l: Limits)
    requires
        l.hold_of_all(s),
    ensures
        l.hold_of_all(passes::deduplicated(s, reach)),
    decreases s.len(),
{
    if s.len() > 0 {
        let cur = s.last();
        assert(l.hold_of(s[s.len() - 1]));
        lemma_last(s, cur, l);
        lemma_duplicates(s.drop_last(), reach, l);
        let out = passes::deduplicated(s.drop_last(), reach);
        lemma_last(out, cur, l);
        if out.len() > 0 {
            lemma_two(out.last().text_confidence, cur.text_confidence, l);
            lemma_last(out, passes::two_as_one(out.last(), cur), l);
        }
    }
}

proof fn lemma_repeats(s: Seq<types::SegmentView>, l: Limits)
    requires
        l.hold_of_all(s),
    ensures
        l.hold_of_all(passes::repeats_joined(s)),
    decreases s.len(),
{
    if s.len() >= 2 {
        let prev = s[s.len() - 2];
        let cur = s.last();
        let rest = s.drop_last();
        assert(l.hold_of(s[s.len() - 1]));
        lemma_last(s, cur, l);
        lemma_two(prev.text_confidence, cur.text_confidence, l);
        if passes::shown_again(prev, cur) {
            lemma_last(rest, passes::prolonged(prev, cur), l);
            lemma_repeats(rest.drop_last().push(passes::prolonged(prev, cur)), l);
        } else {
            lemma_repeats(rest, l);
            lemma_last(passes::repeats_joined(rest), cur, l);
        }
    }
}

/// The segments that frames are merged into are no less and no more sure than the
/// frames, and stand where texts of the frames stand.
pub proof fn merged_segments_keep_limits(
    frames: Seq<types::FrameView>,
    args: segments::MergeFramesArgs,
    l: Limits,
)
    requires
        l.hold_of_frames(frames),
    ensures
        l.hold_of_all(passes::merged(frames, args)),
{
    lemma_joining(frames, l);
    let s = segments::joining(frames);
    if let Some(o) = s.open {
        lemma_closed(o, segments::last_moment(o), l);
        lemma_last(s.done, segments::closed_at(o, segments::last_moment(o)), l);
    }
    let base = segments::base_segments(frames);
    lemma_substrings(base, l);
    let contained = if args.joins_substrings() {
        passes::substrings_joined(base)
    } else {
        base
    };
    lemma_flickers(contained, 0, l);
    let calm = passes::flickers_removed(contained, 0);
    lemma_duplicates(calm, args.reach(), l);
    lemma_repeats(passes::deduplicated(calm, args.reach()), l);
}

} // verus!
