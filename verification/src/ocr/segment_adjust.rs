//! Lowering the confidence of segments that stand away from the usual height or
//! far from any other text in time.
use super::fixed;
use super::fixed::floor_div;
use super::stats;
use super::stats::YStats;
use super::types;
use super::types::{FrameResult, OcrSegment};
use vstd::prelude::*;

verus! {

/// How confidences are lowered. What is left out has its default. Weights and
/// factors are in billionths.
#[derive(Clone, Copy, Debug)]
pub struct OcrSegmentAdjustArgs {
    /// The pause, in milliseconds, from which on a single frame is fully alone.
    pub iso_threshold_ms: Option<u64>,
    /// The weight of the distance from the usual height.
    pub adjust_y_weight: Option<i64>,
    /// The weight of being alone.
    pub adjust_iso_weight: Option<i64>,
    /// The part of the image height that counts as fully away.
    pub adjust_y_factor: Option<i64>,
}

impl Default for OcrSegmentAdjustArgs {
    fn default() -> (r: OcrSegmentAdjustArgs)
        ensures
            r.iso_threshold_ms is None,
            r.adjust_y_weight is None,
            r.adjust_iso_weight is None,
            r.adjust_y_factor is None,
    {
        OcrSegmentAdjustArgs {
            iso_threshold_ms: None,
            adjust_y_weight: None,
            adjust_iso_weight: None,
            adjust_y_factor: None,
        }
    }
}

/// The value of `iso_threshold_ms` in stored arguments that leave it out.
pub fn default_iso_threshold_ms() -> (r: Option<u64>)
    ensures
        r == Some(1500u64),
{
    Some(1500)
}

/// The value of `adjust_y_weight` in stored arguments that leave it out.
pub fn default_adjust_y_weight() -> (r: Option<i64>)
    ensures
        r == Some(800_000_000i64),
{
    Some(800_000_000)
}

/// The value of `adjust_iso_weight` in stored arguments that leave it out.
pub fn default_adjust_iso_weight() -> (r: Option<i64>)
    ensures
        r == Some(200_000_000i64),
{
    Some(200_000_000)
}

/// The value of `adjust_y_factor` in stored arguments that leave it out.
pub fn default_adjust_y_factor() -> (r: Option<i64>)
    ensures
        r == Some(80_000_000i64),
{
    Some(80_000_000)
}

/// A number, or its default where it is left out.
pub open spec fn or_default(a: Option<i64>, d: int) -> int {
    match a {
        Some(x) => x as int,
        None => d,
    }
}

impl OcrSegmentAdjustArgs {
    pub open spec fn threshold(self) -> int {
        match self.iso_threshold_ms {
            Some(x) => x as int,
            None => 1500,
        }
    }

    pub open spec fn y_weight(self) -> int {
        or_default(self.adjust_y_weight, 800_000_000)
    }

    pub open spec fn iso_weight(self) -> int {
        or_default(self.adjust_iso_weight, 200_000_000)
    }

    pub open spec fn y_factor(self) -> int {
        or_default(self.adjust_y_factor, 80_000_000)
    }

    pub fn iso_threshold_ms(&self) -> (r: u64)
        ensures
            r == self.threshold(),
    {
        match self.iso_threshold_ms {
            Some(x) => x,
            None => 1500,
        }
    }

    pub fn adjust_y_weight(&self) -> (r: i64)
        ensures
            r == self.y_weight(),
    {
        match self.adjust_y_weight {
            Some(x) => x,
            None => 800_000_000,
        }
    }

    pub fn adjust_iso_weight(&self) -> (r: i64)
        ensures
            r == self.iso_weight(),
    {
        match self.adjust_iso_weight {
            Some(x) => x,
            None => 200_000_000,
        }
    }

    pub fn adjust_y_factor(&self) -> (r: i64)
        ensures
            r == self.y_factor(),
    {
        match self.adjust_y_factor {
            Some(x) => x,
            None => 80_000_000,
        }
    }
}

/// A segment with its lowered confidence and what lowered it, in billionths.
#[derive(Debug)]
pub struct OcrSegmentWithAdjust {
    pub base: OcrSegment,
    pub adjusted_text_confidence: Option<i64>,
    pub y_penalty: Option<i64>,
    pub iso_penalty: Option<i64>,
}

/// Another name for a segment with its lowered confidence.
pub type OcrSegmentWithAdjusted = OcrSegmentWithAdjust;

#[verifier::ext_equal]
pub ghost struct AdjustedView {
    pub base: types::SegmentView,
    pub adjusted: Option<int>,
    pub y_penalty: Option<int>,
    pub iso_penalty: Option<int>,
}

pub open spec fn known(a: Option<i64>) -> Option<int> {
    match a {
        Some(x) => Some(x as int),
        None => None,
    }
}

impl View for OcrSegmentWithAdjust {
    type V = AdjustedView;

    open spec fn view(&self) -> AdjustedView {
        AdjustedView {
            base: self.base@,
            adjusted: known(self.adjusted_text_confidence),
            y_penalty: known(self.y_penalty),
            iso_penalty: known(self.iso_penalty),
        }
    }
}

pub open spec fn adjusted_views(s: Seq<OcrSegmentWithAdjust>) -> Seq<AdjustedView> {
    s.map_values(|x: OcrSegmentWithAdjust| x@)
}

impl OcrSegmentWithAdjust {
    /// A copy of the segment.
    pub fn duplicate(&self) -> (r: OcrSegmentWithAdjust)
        ensures
            r@ == self@,
    {
        OcrSegmentWithAdjust {
            base: self.base.duplicate(),
            adjusted_text_confidence: self.adjusted_text_confidence,
            y_penalty: self.y_penalty,
            iso_penalty: self.iso_penalty,
        }
    }
}

/// The distance of the middle of a segment from the usual middle, as a part of
/// `video_height` times `factor`, and at most one.
pub open spec fn height_penalty(
    seg: types::SegmentView,
    centroid: int,
    video_height: int,
    factor: int,
) -> int {
    match seg.y_range {
        None => 0,
        Some(r) => if video_height * factor > 0 {
            let offset = fixed::magnitude((r.low + r.high) / 2 - centroid);
            fixed::smaller(
                (offset * fixed::ONE * fixed::ONE) / (video_height * factor),
                fixed::ONE as int,
            )
        } else {
            0
        },
    }
}

/// The distance to the nearest other moment, if there is one.
pub open spec fn nearest(times: Seq<int>, mid: int) -> Option<int>
    decreases times.len(),
{
    if times.len() == 0 {
        None
    } else {
        let before = nearest(times.drop_last(), mid);
        let d = fixed::magnitude(times.last() - mid);
        if d == 0 {
            before
        } else {
            match before {
                None => Some(d),
                Some(x) => Some(fixed::smaller(x, d)),
            }
        }
    }
}

/// How far a segment of a single frame is from any other moment with text, as a
/// part of the threshold, and at most one; zero for segments of more frames.
pub open spec fn lonely_penalty(
    seg: types::SegmentView,
    times: Seq<int>,
    threshold: int,
) -> int {
    if seg.frame_count != Some(1int) {
        0
    } else {
        match nearest(times, (seg.start_ms + seg.end_ms) / 2) {
            None => fixed::ONE as int,
            Some(gap) => if threshold == 0 {
                fixed::ONE as int
            } else {
                fixed::smaller((gap * fixed::ONE) / threshold, fixed::ONE as int)
            },
        }
    }
}

/// Hundredths nearest to `n / d`, away from zero from one half on, in
/// billionths.
pub open spec fn hundredths(n: int, d: int) -> int {
    let q = (2 * fixed::magnitude(n) + d * 10_000_000) / (2 * d * 10_000_000);
    if n < 0 {
        -q * 10_000_000
    } else {
        q * 10_000_000
    }
}

/// The part of the confidence that the penalties leave, at least none; in
/// billionths of billionths.
pub open spec fn left_over(y: int, iso: int, args: OcrSegmentAdjustArgs) -> int {
    fixed::larger(
        fixed::ONE * fixed::ONE - (args.y_weight() * y + args.iso_weight() * iso),
        0,
    )
}

/// A segment with its confidence lowered.
pub open spec fn adjusted(
    seg: types::SegmentView,
    times: Seq<int>,
    centroid: int,
    video_height: int,
    args: OcrSegmentAdjustArgs,
) -> AdjustedView {
    if seg.frame_count is None {
        plain(seg)
    } else {
        let y = height_penalty(seg, centroid, video_height, args.y_factor());
        let iso = lonely_penalty(seg, times, args.threshold());
        AdjustedView {
            base: seg,
            adjusted: Some(
                hundredths(
                    seg.text_confidence * left_over(y, iso, args),
                    fixed::ONE * fixed::ONE,
                ),
            ),
            y_penalty: Some(hundredths(y, 1)),
            iso_penalty: Some(hundredths(iso, 1)),
        }
    }
}

/// A segment as it is.
pub open spec fn plain(seg: types::SegmentView) -> AdjustedView {
    AdjustedView { base: seg, adjusted: None, y_penalty: None, iso_penalty: None }
}

/// Whether a frame shows a text somewhere.
pub open spec fn shows_text(f: types::FrameView) -> bool {
    &&& f.text.len() > 0
    &&& !(f.x_range.low == 0 && f.x_range.high == 0)
    &&& !(f.y_range.low == 0 && f.y_range.high == 0)
}

/// The moments at which a text is shown.
pub open spec fn text_times(frames: Seq<types::FrameView>) -> Seq<int>
    decreases frames.len(),
{
    if frames.len() == 0 {
        Seq::empty()
    } else if shows_text(frames.last()) {
        text_times(frames.drop_last()).push(frames.last().timestamp)
    } else {
        text_times(frames.drop_last())
    }
}

/// All segments with their confidences lowered; as they are where no usual
/// height is known.
pub open spec fn all_adjusted(
    segments: Seq<types::SegmentView>,
    frames: Seq<types::FrameView>,
    y_stats: YStats,
    video_height: int,
    args: OcrSegmentAdjustArgs,
) -> Seq<AdjustedView> {
    if y_stats.avg.low == 0 && y_stats.avg.high == 0 {
        segments.map_values(|s: types::SegmentView| plain(s))
    } else {
        let centroid = (y_stats.avg.low + y_stats.avg.high) / 2;
        let times = text_times(frames);
        segments.map_values(
            |s: types::SegmentView| adjusted(s, times, centroid, video_height, args),
        )
    }
}

/// The largest confidence or weight, in billionths, that products can be taken
/// of.
pub const LARGE: i64 = 1_000_000_000_000;

pub open spec fn moderate(a: int) -> bool {
    -LARGE <= a <= LARGE
}

/// A segment of which the arithmetic stays within the machine.
pub open spec fn fits(seg: types::SegmentView) -> bool {
    &&& moderate(seg.text_confidence)
    &&& seg.y_range matches Some(r) ==> -stats::LIMIT <= r.low <= stats::LIMIT && -stats::LIMIT
        <= r.high <= stats::LIMIT
}

/// The distance of the middle of a segment from the usual middle, as a part of
/// the image height times the factor, and at most one.
pub fn compute_y_penalty(
    seg: &OcrSegment,
    avg_centroid: i64,
    video_height: i64,
    adjust_y_factor: i64,
) -> (r: i64)
    requires
        fits(seg@),
        -stats::LIMIT <= avg_centroid <= stats::LIMIT,
    ensures
        r == height_penalty(
            seg@,
            avg_centroid as int,
            video_height as int,
            adjust_y_factor as int,
        ),
        0 <= r <= fixed::ONE,
{
    match seg.y_range {
        None => 0,
        Some(span) => {
            proof {
                let a = video_height as int;
                let b = adjust_y_factor as int;
                assert(-0x4000_0000_0000_0000_0000_0000_0000_0000 <= a * b
                    <= 0x4000_0000_0000_0000_0000_0000_0000_0000) by (nonlinear_arith)
                    requires
                        -0x8000_0000_0000_0000 <= a <= 0x7fff_ffff_ffff_ffff,
                        -0x8000_0000_0000_0000 <= b <= 0x7fff_ffff_ffff_ffff,
                ;
            }
            let denom: i128 = (video_height as i128) * (adjust_y_factor as i128);
            if denom > 0 {
                let sum: i128 = span.low as i128 + span.high as i128;
                let middle: i128 = floor_div(sum, 2);
                let diff: i128 = middle - avg_centroid as i128;
                let offset: i128 = if diff < 0 {
                    -diff
                } else {
                    diff
                };
                let part: i128 = (offset * (fixed::ONE as i128) * (fixed::ONE as i128)) / denom;
                proof {
                    assert(part >= 0) by (nonlinear_arith)
                        requires
                            offset >= 0,
                            denom > 0,
                            part == (offset * 1_000_000_000 * 1_000_000_000) / (denom as int),
                    ;
                }
                if part > fixed::ONE as i128 {
                    fixed::ONE
                } else {
                    part as i64
                }
            } else {
                0
            }
        },
    }
}

/// How far a segment of a single frame is from any other moment with text, as a
/// part of the threshold, and at most one.
pub fn compute_iso_penalty(seg: &OcrSegment, non_empty_ts: &[u64], iso_threshold_ms: u64) -> (r:
    i64)
    ensures
        r == lonely_penalty(
            seg@,
            non_empty_ts@.map_values(|t: u64| t as int),
            iso_threshold_ms as int,
        ),
        0 <= r <= fixed::ONE,
{
    let single = match seg.frame_count {
        Some(n) => n == 1,
        None => false,
    };
    if !single {
        return 0;
    }
    let mid: u64 = ((seg.base.start_ms as u128 + seg.base.end_ms as u128) / 2) as u64;
    let ghost times = non_empty_ts@.map_values(|t: u64| t as int);
    let mut best: Option<u64> = None;
    let mut i: usize = 0;
    proof {
        assert(times.take(0) =~= Seq::<int>::empty());
    }
    while i < non_empty_ts.len()
        invariant
            i <= non_empty_ts@.len(),
            times == non_empty_ts@.map_values(|t: u64| t as int),
            nearest(times.take(i as int), mid as int) == match best {
                Some(x) => Some(x as int),
                None => None,
            },
            best matches Some(x) ==> x > 0,
        decreases non_empty_ts@.len() - i,
    {
        proof {
            assert(times.take(i + 1).drop_last() =~= times.take(i as int));
            assert(times.take(i + 1).last() == non_empty_ts@[i as int]);
        }
        let t: u64 = non_empty_ts[i];
        let d: u64 = if t < mid {
            mid - t
        } else {
            t - mid
        };
        if d != 0 {
            best = match best {
                None => Some(d),
                Some(x) => if x < d {
                    Some(x)
                } else {
                    Some(d)
                },
            };
        }
        i = i + 1;
    }
    proof {
        assert(times.take(non_empty_ts@.len() as int) =~= times);
    }
    match best {
        None => fixed::ONE,
        Some(gap) => {
            if iso_threshold_ms == 0 {
                fixed::ONE
            } else {
                let part: u128 = ((gap as u128) * (fixed::ONE as u128)) / (
                iso_threshold_ms as u128);
                if part > fixed::ONE as u128 {
                    fixed::ONE
                } else {
                    part as i64
                }
            }
        },
    }
}

/// Rounds `n / d`, in billionths, to hundredths.
fn to_hundredths(n: i128, d: i128) -> (r: i64)
    requires
        1 <= d <= 1_000_000_000_000_000_000,
        -10_000_000_000_000_000_000_000_000_000_000_000 <= n
            <= 10_000_000_000_000_000_000_000_000_000_000_000,
        -1_000_000_000_000_000_000 * d <= n <= 1_000_000_000_000_000_000 * d,
    ensures
        r == hundredths(n as int, d as int),
{
    let m: i128 = if n < 0 {
        -n
    } else {
        n
    };
    let q: i128 = (2 * m + d * 10_000_000) / (2 * d * 10_000_000);
    proof {
        let a = 2 * m + d * 10_000_000;
        let b = 2 * d * 10_000_000;
        fixed::lemma_quotient(a as int, b as int, 0, 100_000_000_001);
        assert(q == a / b);
    }
    if n < 0 {
        (-q * 10_000_000) as i64
    } else {
        (q * 10_000_000) as i64
    }
}

/// One segment with its confidence lowered.
fn adjust_one(
    seg: &OcrSegment,
    times: &[u64],
    centroid: i64,
    video_height: i64,
    args: &OcrSegmentAdjustArgs,
) -> (r: OcrSegmentWithAdjust)
    requires
        fits(seg@),
        -stats::LIMIT <= centroid <= stats::LIMIT,
        moderate(args.y_weight()),
        moderate(args.iso_weight()),
    ensures
        r@ == adjusted(
            seg@,
            times@.map_values(|t: u64| t as int),
            centroid as int,
            video_height as int,
            *args,
        ),
{
    if seg.frame_count.is_none() {
        return OcrSegmentWithAdjust {
            base: seg.duplicate(),
            adjusted_text_confidence: None,
            y_penalty: None,
            iso_penalty: None,
        };
    }
    let y: i64 = compute_y_penalty(seg, centroid, video_height, args.adjust_y_factor());
    let iso: i64 = compute_iso_penalty(seg, times, args.iso_threshold_ms());
    let yw: i64 = args.adjust_y_weight();
    let iw: i64 = args.adjust_iso_weight();
    let one: i128 = fixed::ONE as i128;
    proof {
        lemma_weighted(yw as int, y as int);
        lemma_weighted(iw as int, iso as int);
    }
    let rest: i128 = one * one - ((yw as i128) * (y as i128) + (iw as i128) * (iso as i128));
    let left: i128 = if rest > 0 {
        rest
    } else {
        0
    };
    proof {
        lemma_left(seg.text_confidence as int, left as int);
    }
    let product: i128 = (seg.text_confidence as i128) * left;
    OcrSegmentWithAdjust {
        base: seg.duplicate(),
        adjusted_text_confidence: Some(to_hundredths(product, one * one)),
        y_penalty: Some(to_hundredths(y as i128, 1)),
        iso_penalty: Some(to_hundredths(iso as i128, 1)),
    }
}

proof fn lemma_weighted(w: int, p: int)
    requires
        moderate(w),
        0 <= p <= fixed::ONE,
    ensures
        -1_000_000_000_000_000_000_000 <= w * p <= 1_000_000_000_000_000_000_000,
{
    assert(-1_000_000_000_000_000_000_000 <= w * p <= 1_000_000_000_000_000_000_000)
        by (nonlinear_arith)
        requires
            -1_000_000_000_000 <= w <= 1_000_000_000_000,
            0 <= p <= 1_000_000_000,
    ;
}

proof fn lemma_left(c: int, left: int)
    requires
        moderate(c),
        0 <= left <= 2_001_000_000_000_000_000_000,
    ensures
        -2_001_000_000_000_000_000_000_000_000_000_000 <= c * left
            <= 2_001_000_000_000_000_000_000_000_000_000_000,
{
    assert(-2_001_000_000_000_000_000_000_000_000_000_000 <= c * left
        <= 2_001_000_000_000_000_000_000_000_000_000_000) by (nonlinear_arith)
        requires
            -1_000_000_000_000 <= c <= 1_000_000_000_000,
            0 <= left <= 2_001_000_000_000_000_000_000,
    ;
}

fn find_text_times(frames: &[FrameResult]) -> (r: Vec<u64>)
    ensures
        r@.map_values(|t: u64| t as int) == text_times(types::frame_views(frames@)),
{
    let mut out: Vec<u64> = Vec::new();
    let ghost all = types::frame_views(frames@);
    let mut i: usize = 0;
    proof {
        assert(all.take(0) =~= Seq::<types::FrameView>::empty());
        assert(out@.map_values(|t: u64| t as int) =~= Seq::<int>::empty());
    }
    while i < frames.len()
        invariant
            i <= frames@.len(),
            all == types::frame_views(frames@),
            out@.map_values(|t: u64| t as int) == text_times(all.take(i as int)),
        decreases frames@.len() - i,
    {
        let f = &frames[i];
        proof {
            assert(all.take(i + 1).drop_last() =~= all.take(i as int));
            assert(all.take(i + 1).last() == f@);
        }
        let no_x = f.x_range.low == 0 && f.x_range.high == 0;
        let no_y = f.y_range.low == 0 && f.y_range.high == 0;
        if !f.text.as_str().is_empty() && !no_x && !no_y {
            let ghost before = out@;
            out.push(f.timestamp);
            proof {
                assert(out@.map_values(|t: u64| t as int) =~= before.map_values(
                    |t: u64| t as int,
                ).push(f.timestamp as int));
            }
        }
        i = i + 1;
    }
    proof {
        assert(all.take(frames@.len() as int) =~= all);
    }
    out
}

/// Lowers the confidences of segments that stand away from the usual height, or
/// that show a single frame far from any other text.
pub fn ocr_segment_adjust(
    segments: &[OcrSegment],
    frame_results: &[FrameResult],
    y_stats: &YStats,
    video_height: i64,
    args: &OcrSegmentAdjustArgs,
) -> (r: Vec<OcrSegmentWithAdjust>)
    requires
        forall|i: int| 0 <= i < segments@.len() ==> fits((#[trigger] segments@[i])@),
        -stats::LIMIT <= y_stats.avg.low <= stats::LIMIT,
        -stats::LIMIT <= y_stats.avg.high <= stats::LIMIT,
        moderate(args.y_weight()),
        moderate(args.iso_weight()),
    ensures
        adjusted_views(r@) == all_adjusted(
            types::segment_views(segments@),
            types::frame_views(frame_results@),
            *y_stats,
            video_height as int,
            *args,
        ),
{
    let ghost goal = all_adjusted(
        types::segment_views(segments@),
        types::frame_views(frame_results@),
        *y_stats,
        video_height as int,
        *args,
    );
    let mut out: Vec<OcrSegmentWithAdjust> = Vec::new();
    let mut i: usize = 0;
    if y_stats.avg.low == 0 && y_stats.avg.high == 0 {
        while i < segments.len()
            invariant
                i <= segments@.len(),
                out@.len() == i,
                forall|k: int| 0 <= k < i ==> (#[trigger] out@[k])@ == plain(segments@[k]@),
            decreases segments@.len() - i,
        {
            out.push(
                OcrSegmentWithAdjust {
                    base: segments[i].duplicate(),
                    adjusted_text_confidence: None,
                    y_penalty: None,
                    iso_penalty: None,
                },
            );
            i = i + 1;
        }
        proof {
            assert(adjusted_views(out@) =~= goal);
        }
        return out;
    }
    let sum: i128 = y_stats.avg.low as i128 + y_stats.avg.high as i128;
    let centroid: i64 = floor_div(sum, 2) as i64;
    let times = find_text_times(frame_results);
    let ghost ints = times@.map_values(|t: u64| t as int);
    while i < segments.len()
        invariant
            i <= segments@.len(),
            out@.len() == i,
            ints == times@.map_values(|t: u64| t as int),
            forall|k: int| 0 <= k < segments@.len() ==> fits((#[trigger] segments@[k])@),
            -stats::LIMIT <= centroid <= stats::LIMIT,
            moderate(args.y_weight()),
            moderate(args.iso_weight()),
            forall|k: int|
                0 <= k < i ==> (#[trigger] out@[k])@ == adjusted(
                    segments@[k]@,
                    ints,
                    centroid as int,
                    video_height as int,
                    *args,
                ),
        decreases segments@.len() - i,
    {
        out.push(adjust_one(&segments[i], times.as_slice(), centroid, video_height, args));
        i = i + 1;
    }
    proof {
        assert(adjusted_views(out@) =~= goal);
    }
    out
}

/// The penalties lie between zero and one, so that confidences are lowered and
/// never raised where the weights are not negative.
pub proof fn penalties_lie_between_zero_and_one(
    seg: types::SegmentView,
    times: Seq<int>,
    centroid: int,
    video_height: int,
    factor: int,
    threshold: int,
)
    requires
        threshold >= 0,
    ensures
        0 <= height_penalty(seg, centroid, video_height, factor) <= fixed::ONE,
        0 <= lonely_penalty(seg, times, threshold) <= fixed::ONE,
{
    if let Some(r) = seg.y_range {
        let d = video_height * factor;
        let offset = fixed::magnitude((r.low + r.high) / 2 - centroid);
        if d > 0 {
            assert((offset * fixed::ONE * fixed::ONE) / d >= 0) by (nonlinear_arith)
                requires
                    offset >= 0,
                    d > 0,
                    fixed::ONE == 1_000_000_000,
            ;
        }
    }
    lemma_nearest(times, (seg.start_ms + seg.end_ms) / 2);
    if let Some(gap) = nearest(times, (seg.start_ms + seg.end_ms) / 2) {
        if threshold > 0 {
            assert((gap * fixed::ONE) / threshold >= 0) by (nonlinear_arith)
                requires
                    gap >= 0,
                    threshold > 0,
                    fixed::ONE == 1_000_000_000,
            ;
        }
    }
}

proof fn lemma_nearest(times: Seq<int>, mid: int)
    ensures
        nearest(times, mid) matches Some(d) ==> d > 0,
    decreases times.len(),
{
    if times.len() > 0 {
        lemma_nearest(times.drop_last(), mid);
    }
}

} // verus!
