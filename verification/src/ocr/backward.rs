//! Joining texts that contain one another from the last segment to the first.
use super::passes;
use super::passes::absorb;
use super::segments::overlap;
use super::types;
use super::types::{duplicate_segments, OcrSegment};
use crate::text::strings::is_substring_of;
use vstd::prelude::*;

verus! {

/// The segments with neighbours joined, from the last to the first, that contain
/// one another.
pub open spec fn substrings_joined_back(s: Seq<types::SegmentView>) -> Seq<types::SegmentView>
    decreases s.len(),
{
    if s.len() < 2 {
        s
    } else {
        let prev = s[s.len() - 2];
        let cur = s.last();
        let rest = s.drop_last();
        if passes::overlaps_in_text(prev, cur) {
            substrings_joined_back(rest.drop_last().push(passes::absorbed(prev, cur)))
        } else {
            substrings_joined_back(rest).push(cur)
        }
    }
}

/// The segments stand for as many frames after the pass as before it.
pub proof fn backward_pass_keeps_frame_counts(s: Seq<types::SegmentView>)
    ensures
        passes::total_count(substrings_joined_back(s)) == passes::total_count(s),
    decreases s.len(),
{
    if s.len() >= 2 {
        let prev = s[s.len() - 2];
        let cur = s.last();
        let rest = s.drop_last();
        if passes::overlaps_in_text(prev, cur) {
            let one = passes::absorbed(prev, cur);
            assert(rest.last() == prev);
            assert(passes::total_count(rest) == passes::total_count(rest.drop_last())
                + prev.count());
            passes::lemma_count_push(rest.drop_last(), one);
            backward_pass_keeps_frame_counts(rest.drop_last().push(one));
        } else {
            backward_pass_keeps_frame_counts(rest);
            passes::lemma_count_push(substrings_joined_back(rest), cur);
        }
    }
}

/// Joins neighbours of which one text contains the other, at the same height,
/// from the last to the first.
pub fn merge_substring_segments(segments: &[OcrSegment]) -> (r: Vec<OcrSegment>)
    requires
        passes::total_count(types::segment_views(segments@)) <= u32::MAX,
    ensures
        types::segment_views(r@) == substrings_joined_back(types::segment_views(segments@)),
{
    let mut open: Vec<OcrSegment> = duplicate_segments(segments);
    let mut tail: Vec<OcrSegment> = Vec::new();
    let ghost goal = substrings_joined_back(types::segment_views(segments@));
    proof {
        assert(types::segment_views(tail@).reverse() =~= Seq::<types::SegmentView>::empty());
        assert(goal + Seq::<types::SegmentView>::empty() =~= goal);
    }
    while open.len() >= 2
        invariant
            passes::total_count(types::segment_views(open@)) <= u32::MAX,
            goal == substrings_joined_back(types::segment_views(open@)) + types::segment_views(
                tail@,
            ).reverse(),
        decreases open@.len(),
    {
        let ghost s = types::segment_views(open@);
        let ghost ended = types::segment_views(tail@);
        proof {
            reveal_with_fuel(passes::total_count, 3);
            assert(s.last() == open@.last()@);
            assert(s.drop_last().last() == s[s.len() - 2]);
            assert forall|i: int| 0 <= i < s.drop_last().drop_last().len() implies (
            #[trigger] s.drop_last().drop_last()[i]).count() >= 0 by {
                assert(s.drop_last().drop_last()[i] == open@[i]@);
            }
            passes::lemma_count_not_negative(s.drop_last().drop_last());
        }
        let cur = open.pop().unwrap();
        let prev = open.pop().unwrap();
        proof {
            assert(types::segment_views(open@) =~= s.drop_last().drop_last());
            assert(prev@ == s[s.len() - 2]);
            assert(cur@ == s.last());
        }
        if overlap(prev.y_range, cur.y_range) && is_substring_of(
            prev.base.text.as_str(),
            cur.base.text.as_str(),
        ) {
            let one = absorb(prev, &cur);
            proof {
                types::lemma_segment_views_push(open@, one);
                passes::lemma_count_push(s.drop_last().drop_last(), one@);
            }
            open.push(one);
        } else {
            proof {
                types::lemma_segment_views_push(open@, prev);
                assert(types::segment_views(open@).push(prev@) =~= s.drop_last());
                types::lemma_segment_views_push(tail@, cur);
                assert(ended.push(cur@).reverse() =~= seq![cur@] + ended.reverse());
                let head = substrings_joined_back(s.drop_last());
                assert(head.push(cur@) + ended.reverse() =~= head + (seq![cur@]
                    + ended.reverse()));
            }
            open.push(prev);
            tail.push(cur);
        }
    }
    while tail.len() > 0
        invariant
            goal == types::segment_views(open@) + types::segment_views(tail@).reverse(),
        decreases tail@.len(),
    {
        let ghost head = types::segment_views(open@);
        let ghost rest = types::segment_views(tail@);
        let next = tail.pop().unwrap();
        proof {
            assert(types::segment_views(tail@) =~= rest.drop_last());
            types::lemma_segment_views_push(open@, next);
            assert(rest.last() == next@);
            assert(head + rest.reverse() =~= head.push(next@) + rest.drop_last().reverse());
        }
        open.push(next);
    }
    proof {
        assert(types::segment_views(tail@).reverse() =~= Seq::<types::SegmentView>::empty());
        assert(types::segment_views(open@) + Seq::<types::SegmentView>::empty()
            =~= types::segment_views(open@));
    }
    open
}

} // verus!
