//! Dropping segments of low confidence, with the number of dropped ones.
use super::segment_adjust;
use super::segment_adjust::OcrSegmentWithAdjust;
use super::segment_filter;
use vstd::prelude::*;

verus! {

/// The kept segments and the number of dropped ones.
#[derive(Debug)]
pub struct OcrSegmentFilterResult {
    pub segments: Vec<OcrSegmentWithAdjust>,
    pub dropped: usize,
}

/// Keeps the segments that reach a score, and counts the others.
pub fn ocr_segment_filter(segments: &[OcrSegmentWithAdjust], text_score: i64) -> (r:
    OcrSegmentFilterResult)
    ensures
        segment_adjust::adjusted_views(r.segments@) == segment_filter::kept(
            segment_adjust::adjusted_views(segments@),
            text_score as int,
        ),
        r.dropped == segments@.len() - r.segments@.len(),
{
    let kept = segment_filter::ocr_segment_filter(segments, text_score);
    proof {
        segment_filter::kept_segments_reach_threshold(
            segment_adjust::adjusted_views(segments@),
            text_score as int,
        );
        assert(segment_adjust::adjusted_views(kept@).len() == kept@.len());
        assert(segment_adjust::adjusted_views(segments@).len() == segments@.len());
    }
    let dropped: usize = segments.len() - kept.len();
    OcrSegmentFilterResult { segments: kept, dropped }
}

} // verus!
