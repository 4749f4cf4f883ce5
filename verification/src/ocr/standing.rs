//! What lowering the confidence of a segment comes to, in terms of where it stands
//! and of the frames around it.
use super::fixed;
use super::offsets::distance;
use super::segment_adjust;
use super::segment_adjust::OcrSegmentAdjustArgs;
use super::stats::YStats;
use super::types;
use vstd::prelude::*;

verus! {

proof fn lemma_floor(n: int, d: int)
    requires
        d > 0,
    ensures
        (n / d) * d <= n,
        n < (n / d) * d + d,
{
    vstd::arithmetic::div_mod::lemma_fundamental_div_mod(n, d);
    assert(d * (n / d) == (n / d) * d) by (nonlinear_arith);
}

/// The penalty for the height at which a segment stands: the distance of its middle
/// from the usual one, as a part of the image height times the factor. It is one
/// from that height on, above and below alike.
pub proof fn height_penalty_is_a_distance(
    seg: types::SegmentView,
    centroid: int,
    video_height: int,
    factor: int,
)
    requires
        seg.y_range is Some,
        video_height * factor > 0,
    ensures
        ({
            let p = segment_adjust::height_penalty(seg, centroid, video_height, factor);
            let twice = distance(seg.y_range->0.low + seg.y_range->0.high, 2 * centroid);
            let full = video_height * factor;
            &&& 0 <= p <= 1_000_000_000
            &&& twice == 0 ==> p == 0
            &&& twice * 1_000_000_000 >= 2 * full + 1_000_000_000 ==> p == 1_000_000_000
            &&& p < 1_000_000_000 ==> distance(
                2 * p * full,
                twice * 1_000_000_000_000_000_000,
            ) <= 2 * full + 1_000_000_000_000_000_000
        }),
{
    let r = seg.y_range->0;
    let full = video_height * factor;
    let sum = r.low + r.high;
    let twice = distance(sum, 2 * centroid);
    let offset = fixed::magnitude(sum / 2 - centroid);
    let n = offset * 1_000_000_000 * 1_000_000_000;
    let q = n / full;
    assert(fixed::ONE == 1_000_000_000);
    lemma_floor(n, full);
    assert(distance(2 * offset, twice) <= 1);
    assert(q >= 0) by (nonlinear_arith)
        requires
            n < q * full + full,
            n >= 0,
            full > 0,
    ;
    if twice * 1_000_000_000 >= 2 * full + 1_000_000_000 {
        assert(offset * 1_000_000_000 >= full);
        assert(q >= 1_000_000_000) by (nonlinear_arith)
            requires
                n < q * full + full,
                n == offset * 1_000_000_000 * 1_000_000_000,
                offset * 1_000_000_000 >= full,
                full > 0,
        ;
    }
    assert(2 * q * full == 2 * (q * full)) by (nonlinear_arith);
    if twice == 0 {
        assert(offset == 0);
        assert(q <= 0) by (nonlinear_arith)
            requires
                q * full <= n,
                n == 0,
                full > 0,
        ;
    }
}

/// Of two segments the one whose middle stands farther from the usual one, above or
/// below it, has no smaller penalty. Equally far on either side, it is the same.
pub proof fn segments_far_away_lose_more(
    a: types::SegmentView,
    b: types::SegmentView,
    centroid: int,
    video_height: int,
    factor: int,
)
    requires
        a.y_range is Some,
        b.y_range is Some,
        video_height * factor > 0,
        (a.y_range->0.low + a.y_range->0.high) % 2 == 0,
        (b.y_range->0.low + b.y_range->0.high) % 2 == 0,
    ensures
        ({
            let p = segment_adjust::height_penalty(a, centroid, video_height, factor);
            let q = segment_adjust::height_penalty(b, centroid, video_height, factor);
            let da = distance(a.y_range->0.low + a.y_range->0.high, 2 * centroid);
            let db = distance(b.y_range->0.low + b.y_range->0.high, 2 * centroid);
            &&& da <= db ==> p <= q
            &&& da == db ==> p == q
        }),
{
    let full = video_height * factor;
    let m = fixed::magnitude((a.y_range->0.low + a.y_range->0.high) / 2 - centroid);
    let n = fixed::magnitude((b.y_range->0.low + b.y_range->0.high) / 2 - centroid);
    if m <= n {
        vstd::arithmetic::div_mod::lemma_div_is_ordered(
            m * 1_000_000_000 * 1_000_000_000,
            n * 1_000_000_000 * 1_000_000_000,
            full,
        );
    }
}

/// Whether a frame shows a text at a known place.
pub open spec fn shown(f: types::FrameView) -> bool {
    &&& f.text.len() > 0
    &&& f.x_range.low != 0 || f.x_range.high != 0
    &&& f.y_range.low != 0 || f.y_range.high != 0
}

proof fn lemma_times(frames: Seq<types::FrameView>)
    ensures
        forall|k: int|
            0 <= k < frames.len() && shown(#[trigger] frames[k])
                ==> segment_adjust::text_times(frames).contains(frames[k].timestamp),
        forall|j: int|
            0 <= j < segment_adjust::text_times(frames).len() ==> exists|k: int|
                0 <= k < frames.len() && shown(#[trigger] frames[k]) && frames[k].timestamp
                    == #[trigger] segment_adjust::text_times(frames)[j],
    decreases frames.len(),
{
    if frames.len() > 0 {
        let t = frames.drop_last();
        lemma_times(t);
        let a = segment_adjust::text_times(t);
        let b = segment_adjust::text_times(frames);
        assert forall|k: int| 0 <= k < frames.len() && shown(#[trigger] frames[k]) implies b.contains(
            frames[k].timestamp,
        ) by {
            if k < t.len() {
                assert(t[k] == frames[k]);
                let j = choose|j: int| 0 <= j < a.len() && a[j] == frames[k].timestamp;
                assert(b[j] == a[j]);
            } else {
                assert(b[b.len() - 1] == frames[k].timestamp);
            }
        }
        assert forall|j: int| 0 <= j < b.len() implies exists|k: int|
            0 <= k < frames.len() && shown(#[trigger] frames[k]) && frames[k].timestamp
                == #[trigger] b[j] by {
            if j < a.len() {
                assert(b[j] == a[j]);
                let k = choose|k: int|
                    0 <= k < t.len() && shown(#[trigger] t[k]) && t[k].timestamp == a[j];
                assert(frames[k] == t[k]);
            } else {
                assert(shown(frames[frames.len() - 1]));
            }
        }
    }
}

/// The distance to the nearest other moment is that of one of them, and no other
/// one is nearer.
proof fn lemma_nearest(times: Seq<int>, mid: int)
    ensures
        match segment_adjust::nearest(times, mid) {
            None => forall|j: int| 0 <= j < times.len() ==> #[trigger] times[j] == mid,
            Some(d) => {
                &&& d > 0
                &&& exists|j: int| 0 <= j < times.len() && distance(#[trigger] times[j], mid) == d
                &&& forall|j: int|
                    0 <= j < times.len() && #[trigger] times[j] != mid ==> distance(times[j], mid)
                        >= d
            },
        },
    decreases times.len(),
{
    if times.len() > 0 {
        let t = times.drop_last();
        lemma_nearest(t, mid);
        let last = times[times.len() - 1];
        assert(times.last() == last);
        match segment_adjust::nearest(t, mid) {
            None => {
                assert forall|j: int| 0 <= j < t.len() implies #[trigger] times[j] == mid by {
                    assert(t[j] == times[j]);
                }
            },
            Some(d) => {
                let j = choose|j: int| 0 <= j < t.len() && distance(#[trigger] t[j], mid) == d;
                assert(distance(times[j], mid) == d);
                assert forall|j: int| 0 <= j < t.len() && #[trigger] times[j] != mid implies distance(
                    times[j],
                    mid,
                ) >= d by {
                    assert(t[j] == times[j]);
                }
            },
        }
        if last != mid {
            assert(distance(times[times.len() - 1], mid) == distance(last, mid));
        }
    }
}

/// A segment of a single frame loses confidence by how far the nearest other frame
/// with text is from its middle: as a part of the threshold, and all where there is
/// none. Segments of more frames lose nothing.
pub proof fn isolation_is_the_distance_to_the_nearest_text(
    seg: types::SegmentView,
    frames: Seq<types::FrameView>,
    threshold: int,
)
    requires
        threshold > 0,
    ensures
        ({
            let p = segment_adjust::lonely_penalty(
                seg,
                segment_adjust::text_times(frames),
                threshold,
            );
            let mid = (seg.start_ms + seg.end_ms) / 2;
            &&& 0 <= p <= 1_000_000_000
            &&& seg.frame_count != Some(1int) ==> p == 0
            &&& seg.frame_count == Some(1int) && (forall|k: int|
                0 <= k < frames.len() && shown(#[trigger] frames[k]) ==> frames[k].timestamp == mid)
                ==> p == 1_000_000_000
            &&& forall|k: int|
                0 <= k < frames.len() && shown(#[trigger] frames[k]) && frames[k].timestamp != mid
                    ==> p * threshold <= distance(frames[k].timestamp, mid) * 1_000_000_000
            &&& forall|g: int|
                seg.frame_count == Some(1int) && 0 <= g && (forall|k: int|
                    0 <= k < frames.len() && shown(#[trigger] frames[k]) && frames[k].timestamp
                        != mid ==> distance(frames[k].timestamp, mid) >= g) ==> p == 1_000_000_000
                    || (p + 1) * threshold > #[trigger] (g * 1_000_000_000)
        }),
{
    let times = segment_adjust::text_times(frames);
    let mid = (seg.start_ms + seg.end_ms) / 2;
    let p = segment_adjust::lonely_penalty(seg, times, threshold);
    assert(fixed::ONE == 1_000_000_000);
    lemma_times(frames);
    lemma_nearest(times, mid);
    assert(0 * threshold == 0);
    if seg.frame_count == Some(1int) {
        match segment_adjust::nearest(times, mid) {
            None => {
                assert forall|k: int|
                    0 <= k < frames.len() && shown(#[trigger] frames[k]) implies frames[k].timestamp
                    == mid by {
                    let j = choose|j: int| 0 <= j < times.len() && times[j] == frames[k].timestamp;
                    assert(times[j] == mid);
                }
            },
            Some(d) => {
                let q = (d * 1_000_000_000) / threshold;
                lemma_floor(d * 1_000_000_000, threshold);
                assert(q >= 0) by (nonlinear_arith)
                    requires
                        d * 1_000_000_000 < q * threshold + threshold,
                        d > 0,
                        threshold > 0,
                ;
                assert(p * threshold <= q * threshold) by (nonlinear_arith)
                    requires
                        p <= q,
                        threshold > 0,
                ;
                let j = choose|j: int| 0 <= j < times.len() && distance(#[trigger] times[j], mid)
                    == d;
                let k0 = choose|k: int|
                    0 <= k < frames.len() && shown(#[trigger] frames[k]) && frames[k].timestamp
                        == times[j];
                assert(frames[k0].timestamp != mid);
                assert forall|k: int|
                    0 <= k < frames.len() && shown(#[trigger] frames[k]) && frames[k].timestamp
                        != mid implies p * threshold <= distance(frames[k].timestamp, mid)
                    * 1_000_000_000 by {
                    let j = choose|j: int| 0 <= j < times.len() && times[j] == frames[k].timestamp;
                    assert(distance(times[j], mid) >= d);
                }
                assert forall|g: int|
                    0 <= g && (forall|k: int|
                        0 <= k < frames.len() && shown(#[trigger] frames[k]) && frames[k].timestamp
                            != mid ==> distance(frames[k].timestamp, mid) >= g) implies p
                    == 1_000_000_000 || (p + 1) * threshold > #[trigger] (g * 1_000_000_000) by {
                    assert(distance(frames[k0].timestamp, mid) >= g);
                    assert((q + 1) * threshold == q * threshold + threshold) by (nonlinear_arith);
                }
            },
        }
    } else {
        assert forall|k: int|
            0 <= k < frames.len() && shown(#[trigger] frames[k]) && frames[k].timestamp
                != mid implies p * threshold <= distance(frames[k].timestamp, mid)
            * 1_000_000_000 by {
        }
    }
}

/// Rounding to hundredths moves by half a hundredth at most.
proof fn lemma_hundredths(n: int, d: int)
    requires
        d > 0,
    ensures
        distance(segment_adjust::hundredths(n, d) * d, n) <= 5_000_000 * d,
        segment_adjust::hundredths(n, d) % 10_000_000 == 0,
{
    let m = fixed::magnitude(n);
    let unit = 2 * d * 10_000_000;
    let top = 2 * m + d * 10_000_000;
    let q = top / unit;
    lemma_floor(top, unit);
    assert(q * unit == 2 * (q * 10_000_000 * d)) by (nonlinear_arith)
        requires
            unit == 2 * d * 10_000_000,
    ;
    assert(((-q) * 10_000_000) * d == -(q * 10_000_000 * d)) by (nonlinear_arith);
    assert((q * 10_000_000) % 10_000_000 == 0);
    assert(((-q) * 10_000_000) % 10_000_000 == 0);
}

/// A segment of known frames loses its confidence in proportion to its two
/// penalties, each with its weight. Nothing is left where they make up more than
/// all. Penalties and confidence are noted in hundredths.
pub proof fn segment_penalties_are_taken_off(
    seg: types::SegmentView,
    times: Seq<int>,
    centroid: int,
    video_height: int,
    args: OcrSegmentAdjustArgs,
)
    requires
        seg.frame_count is Some,
    ensures
        ({
            let r = segment_adjust::adjusted(seg, times, centroid, video_height, args);
            let y = segment_adjust::height_penalty(seg, centroid, video_height, args.y_factor());
            let iso = segment_adjust::lonely_penalty(seg, times, args.threshold());
            let lost = args.y_weight() * y + args.iso_weight() * iso;
            let one = 1_000_000_000_000_000_000int;
            &&& r.base == seg
            &&& r.y_penalty matches Some(p) && distance(p, y) <= 5_000_000 && p % 10_000_000 == 0
            &&& r.iso_penalty matches Some(p) && distance(p, iso) <= 5_000_000 && p % 10_000_000
                == 0
            &&& r.adjusted matches Some(p) && p % 10_000_000 == 0 && distance(
                p * one,
                seg.text_confidence * if lost < one {
                    one - lost
                } else {
                    0
                },
            ) <= 5_000_000 * one
        }),
{
    let y = segment_adjust::height_penalty(seg, centroid, video_height, args.y_factor());
    let iso = segment_adjust::lonely_penalty(seg, times, args.threshold());
    let one = 1_000_000_000_000_000_000int;
    assert(fixed::ONE * fixed::ONE == one);
    lemma_hundredths(y, 1);
    lemma_hundredths(iso, 1);
    lemma_hundredths(seg.text_confidence * segment_adjust::left_over(y, iso, args), one);
}

/// Each segment is judged on its own, by the usual middle and by the frames; where
/// no usual place is known all stay as they are.
pub proof fn each_segment_is_judged_on_its_own(
    segments: Seq<types::SegmentView>,
    frames: Seq<types::FrameView>,
    y: YStats,
    video_height: int,
    args: OcrSegmentAdjustArgs,
    i: int,
)
    requires
        0 <= i < segments.len(),
    ensures
        ({
            let r = segment_adjust::all_adjusted(segments, frames, y, video_height, args);
            let known = y.avg.low != 0 || y.avg.high != 0;
            &&& r.len() == segments.len()
            &&& r[i].base == segments[i]
            &&& !known || segments[i].frame_count is None ==> r[i].adjusted is None
                && r[i].y_penalty is None && r[i].iso_penalty is None
            &&& known && segments[i].frame_count is Some ==> r[i] == segment_adjust::adjusted(
                segments[i],
                segment_adjust::text_times(frames),
                (y.avg.low + y.avg.high) / 2,
                video_height,
                args,
            )
        }),
{
}

/// A segment that stands away from the usual rows by the image height times the
/// factor or more, above or below them, has the full penalty for it.
pub proof fn segments_off_the_usual_rows_have_the_full_penalty(
    segments: Seq<types::SegmentView>,
    frames: Seq<types::FrameView>,
    y: YStats,
    video_height: int,
    args: OcrSegmentAdjustArgs,
    i: int,
)
    requires
        0 <= i < segments.len(),
        y.avg.low != 0 || y.avg.high != 0,
        segments[i].frame_count is Some,
        segments[i].y_range is Some,
        video_height * args.y_factor() > 0,
        distance(
            segments[i].y_range->0.low + segments[i].y_range->0.high,
            y.avg.low + y.avg.high,
        ) * 1_000_000_000 >= 2 * (video_height * args.y_factor()) + 2_000_000_000,
    ensures
        segment_adjust::all_adjusted(segments, frames, y, video_height, args)[i].y_penalty == Some(
            1_000_000_000int,
        ),
{
    let c = (y.avg.low + y.avg.high) / 2;
    height_penalty_is_a_distance(segments[i], c, video_height, args.y_factor());
    segment_penalties_are_taken_off(
        segments[i],
        segment_adjust::text_times(frames),
        c,
        video_height,
        args,
    );
    each_segment_is_judged_on_its_own(segments, frames, y, video_height, args, i);
}

} // verus!
