//! Dropping segments of low confidence.
use super::segment_adjust;
use super::segment_adjust::OcrSegmentWithAdjust;
use crate::text::strings;
use crate::text::strings::join;
use vstd::prelude::*;

verus! {

/// The confidence that counts: the lowered one where it is known.
pub open spec fn confidence(s: segment_adjust::AdjustedView) -> int {
    match s.adjusted {
        Some(x) => x,
        None => s.base.text_confidence,
    }
}

/// The segments that reach a threshold, in order. A threshold that is not
/// positive keeps all.
pub open spec fn kept(
    s: Seq<segment_adjust::AdjustedView>,
    threshold: int,
) -> Seq<segment_adjust::AdjustedView> {
    if threshold <= 0 {
        s
    } else {
        s.filter(|x: segment_adjust::AdjustedView| confidence(x) >= threshold)
    }
}

/// What is kept reaches the threshold, where there is one, and nothing is
/// invented: no more segments are kept than there were, and all of them where
/// all reach the threshold.
pub proof fn kept_segments_reach_threshold(
    s: Seq<segment_adjust::AdjustedView>,
    threshold: int,
)
    ensures
        kept(s, threshold).len() <= s.len(),
        threshold > 0 ==> forall|i: int|
            0 <= i < kept(s, threshold).len() ==> confidence(#[trigger] kept(s, threshold)[i])
                >= threshold,
        (forall|i: int| 0 <= i < s.len() ==> confidence(#[trigger] s[i]) >= threshold) ==> kept(
            s,
            threshold,
        ) == s,
    decreases s.len(),
{
    reveal(Seq::filter);
    if s.len() > 0 {
        let t = s.drop_last();
        kept_segments_reach_threshold(t, threshold);
        if threshold > 0 {
            let r = kept(s, threshold);
            let u = kept(t, threshold);
            assert forall|i: int| 0 <= i < r.len() implies confidence(#[trigger] r[i])
                >= threshold by {
                if i < u.len() {
                    assert(r[i] == u[i]);
                }
            }
            if forall|i: int| 0 <= i < s.len() ==> confidence(#[trigger] s[i]) >= threshold {
                assert forall|i: int| 0 <= i < t.len() implies confidence(#[trigger] t[i])
                    >= threshold by {
                    assert(t[i] == s[i]);
                }
                assert(confidence(s[s.len() - 1]) >= threshold);
                assert(t.push(s.last()) =~= s);
            }
        }
    } else {
        assert(kept(s, threshold) =~= s);
    }
}

/// Keeps the segments that reach a threshold.
pub fn ocr_segment_filter(
    segments: &[OcrSegmentWithAdjust],
    text_confidence_threshold: i64,
) -> (r: Vec<OcrSegmentWithAdjust>)
    ensures
        segment_adjust::adjusted_views(r@) == kept(
            segment_adjust::adjusted_views(segments@),
            text_confidence_threshold as int,
        ),
{
    let ghost all = segment_adjust::adjusted_views(segments@);
    let ghost t = text_confidence_threshold as int;
    let mut out: Vec<OcrSegmentWithAdjust> = Vec::new();
    let mut i: usize = 0;
    proof {
        reveal(Seq::filter);
        assert(all.take(0) =~= Seq::<segment_adjust::AdjustedView>::empty());
        assert(segment_adjust::adjusted_views(out@) =~= kept(all.take(0), t));
    }
    while i < segments.len()
        invariant
            i <= segments@.len(),
            t == text_confidence_threshold,
            all == segment_adjust::adjusted_views(segments@),
            segment_adjust::adjusted_views(out@) == kept(all.take(i as int), t),
        decreases segments@.len() - i,
    {
        let s = &segments[i];
        let ghost before = out@;
        proof {
            reveal(Seq::filter);
            assert(all.take(i + 1).drop_last() =~= all.take(i as int));
            assert(all.take(i + 1).last() == s@);
            assert(all.take(i as int).push(s@) =~= all.take(i + 1));
        }
        let conf: i64 = match s.adjusted_text_confidence {
            Some(x) => x,
            None => s.base.text_confidence,
        };
        if text_confidence_threshold <= 0 || conf >= text_confidence_threshold {
            out.push(s.duplicate());
            proof {
                assert(segment_adjust::adjusted_views(out@) =~= segment_adjust::adjusted_views(
                    before,
                ).push(s@));
            }
        }
        i = i + 1;
    }
    proof {
        assert(all.take(segments@.len() as int) =~= all);
    }
    out
}

/// What was kept, what was asked for and how much was dropped.
#[derive(Debug)]
pub struct OcrSegmentFilterMeta {
    pub segment_count: usize,
    pub text_confidence_threshold: i64,
    pub dropped: usize,
}

/// The kept segments and their text.
#[derive(Debug)]
pub struct OcrSegmentFilterData {
    pub text: String,
    pub segments: Vec<OcrSegmentWithAdjust>,
}

/// The outcome of dropping segments.
#[derive(Debug)]
pub struct OcrSegmentFilterResult {
    pub meta: OcrSegmentFilterMeta,
    pub result: OcrSegmentFilterData,
}

pub open spec fn kept_texts(s: Seq<segment_adjust::AdjustedView>) -> Seq<Seq<char>> {
    s.map_values(|x: segment_adjust::AdjustedView| x.base.text)
}

fn texts_of(segments: &[OcrSegmentWithAdjust]) -> (r: String)
    ensures
        r@ == strings::joined(
            kept_texts(segment_adjust::adjusted_views(segments@)),
            seq![' '],
        ),
{
    let mut parts: Vec<String> = Vec::new();
    let mut i: usize = 0;
    let ghost all = kept_texts(segment_adjust::adjusted_views(segments@));
    while i < segments.len()
        invariant
            i <= segments@.len(),
            all == kept_texts(segment_adjust::adjusted_views(segments@)),
            strings::views(parts@) == all.take(i as int),
        decreases segments@.len() - i,
    {
        let ghost before = parts@;
        let text: String = segments[i].base.base.text.clone();
        parts.push(text);
        proof {
            assert(all[i as int] == text@);
            assert(strings::views(parts@) =~= strings::views(before).push(text@));
            assert(all.take(i + 1) =~= all.take(i as int).push(text@));
        }
        i = i + 1;
    }
    proof {
        assert(all.take(segments@.len() as int) =~= all);
        reveal_strlit(" ");
        assert(" "@ =~= seq![' ']);
    }
    join(parts.as_slice(), " ")
}

/// Keeps the segments that reach a threshold and says how many were dropped.
pub fn ocr_segment_filter_with_meta(
    segments: &[OcrSegmentWithAdjust],
    text_confidence_threshold: i64,
) -> (r: OcrSegmentFilterResult)
    ensures
        ({
            let all = segment_adjust::adjusted_views(segments@);
            let left = segment_adjust::adjusted_views(r.result.segments@);
            &&& left == kept(all, text_confidence_threshold as int)
            &&& r.result.text@ == strings::joined(kept_texts(left), seq![' '])
            &&& r.meta.segment_count == left.len()
            &&& r.meta.text_confidence_threshold == text_confidence_threshold
            &&& r.meta.dropped == all.len() - left.len()
        }),
{
    let filtered = ocr_segment_filter(segments, text_confidence_threshold);
    proof {
        kept_segments_reach_threshold(
            segment_adjust::adjusted_views(segments@),
            text_confidence_threshold as int,
        );
        assert(segment_adjust::adjusted_views(filtered@).len() == filtered@.len());
        assert(segment_adjust::adjusted_views(segments@).len() == segments@.len());
    }
    let dropped: usize = segments.len() - filtered.len();
    let text = texts_of(filtered.as_slice());
    OcrSegmentFilterResult {
        meta: OcrSegmentFilterMeta {
            segment_count: filtered.len(),
            text_confidence_threshold,
            dropped,
        },
        result: OcrSegmentFilterData { text, segments: filtered },
    }
}

} // verus!
