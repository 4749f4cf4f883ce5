//! Lowering the confidence of regions by how far their borders are from the
//! usual ones and how unusual their height is.
use super::box_adjust;
use super::box_adjust::BoxAdjustedArgs;
use super::box_filter;
use super::box_filter::{filter_frames, OcrFramesBoxFilteredResult};
use super::fixed;
use super::stats;
use super::stats::YStats;
use super::types;
use super::types::{FrameResult, OcrBoxResult, Span};
use crate::text::strings::is_blank;
use vstd::prelude::*;

verus! {

/// A region with its lowered confidence and what lowered it. Ratios are in
/// billionths.
#[derive(Debug)]
pub struct OcrBoxResultWithAdjust {
    pub base: OcrBoxResult,
    /// The distance of the upper border from the usual one, in line heights.
    pub top_offset_ratio: i128,
    /// The distance of the lower border from the usual one, in line heights.
    pub bot_offset_ratio: i128,
    pub height: i64,
    /// The height in line heights.
    pub height_ratio: i128,
    pub is_outlier: bool,
    pub adjusted_text_confidence: i64,
}

/// Another name for a region with its lowered confidence.
pub type OcrFramesAdjustBox = OcrBoxResultWithAdjust;

#[verifier::ext_equal]
pub ghost struct PenalizedBox {
    pub base: types::BoxView,
    pub top_offset_ratio: int,
    pub bot_offset_ratio: int,
    pub height: int,
    pub height_ratio: int,
    pub is_outlier: bool,
    pub adjusted_text_confidence: int,
}

impl View for OcrBoxResultWithAdjust {
    type V = PenalizedBox;

    open spec fn view(&self) -> PenalizedBox {
        PenalizedBox {
            base: self.base@,
            top_offset_ratio: self.top_offset_ratio as int,
            bot_offset_ratio: self.bot_offset_ratio as int,
            height: self.height as int,
            height_ratio: self.height_ratio as int,
            is_outlier: self.is_outlier,
            adjusted_text_confidence: self.adjusted_text_confidence as int,
        }
    }
}

/// A frame whose regions have lowered confidences.
#[derive(Debug)]
pub struct FrameResultBoxWithAdjust {
    pub text: String,
    pub text_confidence: i64,
    pub x_range: Span,
    pub y_range: Span,
    pub timestamp: u64,
    pub boxes: Vec<OcrBoxResultWithAdjust>,
}

/// Another name for a frame whose regions have lowered confidences.
pub type OcrFramesBoxAdjustFrame = FrameResultBoxWithAdjust;

#[verifier::ext_equal]
pub ghost struct PenalizedFrame {
    pub text: Seq<char>,
    pub text_confidence: int,
    pub x_range: Span,
    pub y_range: Span,
    pub timestamp: int,
    pub boxes: Seq<PenalizedBox>,
}

pub open spec fn penalized_boxes(s: Seq<OcrBoxResultWithAdjust>) -> Seq<PenalizedBox> {
    s.map_values(|b: OcrBoxResultWithAdjust| b@)
}

impl View for FrameResultBoxWithAdjust {
    type V = PenalizedFrame;

    open spec fn view(&self) -> PenalizedFrame {
        PenalizedFrame {
            text: self.text@,
            text_confidence: self.text_confidence as int,
            x_range: self.x_range,
            y_range: self.y_range,
            timestamp: self.timestamp as int,
            boxes: penalized_boxes(self.boxes@),
        }
    }
}

pub open spec fn penalized_frames(s: Seq<FrameResultBoxWithAdjust>) -> Seq<PenalizedFrame> {
    s.map_values(|f: FrameResultBoxWithAdjust| f@)
}

/// The frames with lowered confidences, and what they were computed with.
#[derive(Debug)]
pub struct OcrBoxAdjustResult {
    pub frames: Vec<FrameResultBoxWithAdjust>,
    pub meta: OcrBoxAdjustResultMeta,
}

#[derive(Clone, Copy, Debug)]
pub struct OcrBoxAdjustResultMeta {
    pub y_stats: YStats,
    pub frame_count: usize,
    pub args: BoxAdjustedArgs,
}

/// What lowers the confidence: half of what the larger border distance exceeds
/// one line by, and three tenths of what the height differs from one line by; one
/// at most.
pub open spec fn noise(top: int, bottom: int, height_ratio: int) -> int {
    let away = fixed::larger(fixed::larger(top, bottom) - fixed::ONE, 0);
    let odd = fixed::magnitude(fixed::ONE - height_ratio);
    fixed::smaller((away * 5 + odd * 3) / 10, fixed::ONE as int)
}

/// A region with its confidence lowered.
pub open spec fn penalized(b: types::BoxView, y: YStats, threshold: int) -> PenalizedBox {
    if !stats::shows_text(b) {
        PenalizedBox {
            base: b,
            top_offset_ratio: 0,
            bot_offset_ratio: 0,
            height: 0,
            height_ratio: 0,
            is_outlier: false,
            adjusted_text_confidence: b.text_confidence,
        }
    } else {
        let line = y.median_height as int;
        let height = b.y_range.high - b.y_range.low;
        let top = box_adjust::in_lines(fixed::magnitude(b.y_range.low - y.mode.low), line);
        let bottom = box_adjust::in_lines(fixed::magnitude(b.y_range.high - y.mode.high), line);
        let height_ratio = box_adjust::in_lines(height, line);
        let confidence = fixed::scaled(
            b.text_confidence,
            fixed::ONE - noise(top, bottom, height_ratio),
        );
        PenalizedBox {
            base: b,
            top_offset_ratio: top,
            bot_offset_ratio: bottom,
            height,
            height_ratio,
            is_outlier: confidence < threshold,
            adjusted_text_confidence: confidence,
        }
    }
}

/// A frame with the confidences of its regions lowered.
pub open spec fn frame_penalized(f: types::FrameView, y: YStats, threshold: int) -> PenalizedFrame {
    PenalizedFrame {
        text: f.text,
        text_confidence: f.text_confidence,
        x_range: f.x_range,
        y_range: f.y_range,
        timestamp: f.timestamp,
        boxes: f.boxes.map_values(|b: types::BoxView| penalized(b, y, threshold)),
    }
}

fn distance(a: i64, b: i64) -> (d: i128)
    ensures
        d == fixed::magnitude(a - b),
{
    if a < b {
        b as i128 - a as i128
    } else {
        a as i128 - b as i128
    }
}

fn find_noise(top: i128, bottom: i128, height_ratio: i128) -> (r: i64)
    requires
        0 <= top <= box_adjust::WIDEST,
        0 <= bottom <= box_adjust::WIDEST,
        -box_adjust::WIDEST <= height_ratio <= box_adjust::WIDEST,
    ensures
        r == noise(top as int, bottom as int, height_ratio as int),
        0 <= r <= fixed::ONE,
{
    let one: i128 = fixed::ONE as i128;
    let far: i128 = if top < bottom {
        bottom
    } else {
        top
    };
    let away: i128 = if far > one {
        far - one
    } else {
        0
    };
    let odd: i128 = if height_ratio > one {
        height_ratio - one
    } else {
        one - height_ratio
    };
    let sum: i128 = (away * 5 + odd * 3) / 10;
    if sum < one {
        sum as i64
    } else {
        fixed::ONE
    }
}

/// Lowers the confidence of one region.
pub fn adjust_box(box_r: &OcrBoxResult, y_stats: &YStats, threshold: i64) -> (r:
    OcrBoxResultWithAdjust)
    requires
        box_filter::span_fits(box_r@.y_range),
        box_filter::span_fits(y_stats.mode),
    ensures
        r@ == penalized(box_r@, *y_stats, threshold as int),
{
    if is_blank(box_r.text.as_str()) {
        return OcrBoxResultWithAdjust {
            base: box_r.duplicate(),
            top_offset_ratio: 0,
            bot_offset_ratio: 0,
            height: 0,
            height_ratio: 0,
            is_outlier: false,
            adjusted_text_confidence: box_r.text_confidence,
        };
    }
    let line: i64 = y_stats.median_height;
    let height: i64 = box_r.y_range.high - box_r.y_range.low;
    let above: i128 = distance(box_r.y_range.low, y_stats.mode.low);
    let below: i128 = distance(box_r.y_range.high, y_stats.mode.high);
    proof {
        box_adjust::lemma_lines_sign(above as int, line as int);
        box_adjust::lemma_lines_sign(below as int, line as int);
    }
    let top: i128 = box_adjust::lines_of(above, line);
    let bottom: i128 = box_adjust::lines_of(below, line);
    let height_ratio: i128 = box_adjust::lines_of(height as i128, line);
    let penalty: i64 = find_noise(top, bottom, height_ratio);
    let adjusted: i64 = box_adjust::lower(box_r.text_confidence, penalty);
    OcrBoxResultWithAdjust {
        base: box_r.duplicate(),
        top_offset_ratio: top,
        bot_offset_ratio: bottom,
        height,
        height_ratio,
        is_outlier: adjusted < threshold,
        adjusted_text_confidence: adjusted,
    }
}

fn adjust_frame(f: &FrameResult, y_stats: &YStats, threshold: i64) -> (r: FrameResultBoxWithAdjust)
    requires
        box_filter::heights_fit(f@.boxes),
        box_filter::span_fits(y_stats.mode),
    ensures
        r@ == frame_penalized(f@, *y_stats, threshold as int),
{
    let mut boxes: Vec<OcrBoxResultWithAdjust> = Vec::new();
    let mut j: usize = 0;
    while j < f.boxes.len()
        invariant
            j <= f.boxes@.len(),
            boxes@.len() == j,
            box_filter::heights_fit(f@.boxes),
            box_filter::span_fits(y_stats.mode),
            forall|k: int|
                0 <= k < j ==> (#[trigger] boxes@[k])@ == penalized(
                    f.boxes@[k]@,
                    *y_stats,
                    threshold as int,
                ),
        decreases f.boxes@.len() - j,
    {
        proof {
            assert(f@.boxes[j as int] == f.boxes@[j as int]@);
        }
        boxes.push(adjust_box(&f.boxes[j], y_stats, threshold));
        j = j + 1;
    }
    proof {
        assert(penalized_boxes(boxes@) =~= frame_penalized(f@, *y_stats, threshold as int).boxes);
    }
    FrameResultBoxWithAdjust {
        text: f.text.clone(),
        text_confidence: f.text_confidence,
        x_range: f.x_range,
        y_range: f.y_range,
        timestamp: f.timestamp,
        boxes,
    }
}

/// Lowers the confidences of all regions.
pub fn build_ocr_frames_box_adjust(
    ocr_frames: &[FrameResult],
    y_stats: &YStats,
    args: &BoxAdjustedArgs,
) -> (r: OcrBoxAdjustResult)
    requires
        box_filter::all_heights_fit(types::frame_views(ocr_frames@)),
        box_filter::span_fits(y_stats.mode),
    ensures
        penalized_frames(r.frames@) == types::frame_views(ocr_frames@).map_values(
            |f: types::FrameView| frame_penalized(f, *y_stats, args.limit()),
        ),
        r.meta.y_stats == *y_stats,
        r.meta.frame_count == ocr_frames@.len(),
        r.meta.args == *args,
{
    let threshold: i64 = args.threshold();
    let mut frames: Vec<FrameResultBoxWithAdjust> = Vec::new();
    let ghost all = types::frame_views(ocr_frames@);
    let mut i: usize = 0;
    while i < ocr_frames.len()
        invariant
            i <= ocr_frames@.len(),
            frames@.len() == i,
            threshold == args.limit(),
            all == types::frame_views(ocr_frames@),
            box_filter::all_heights_fit(all),
            box_filter::span_fits(y_stats.mode),
            forall|k: int|
                0 <= k < i ==> (#[trigger] frames@[k])@ == frame_penalized(
                    ocr_frames@[k]@,
                    *y_stats,
                    args.limit(),
                ),
        decreases ocr_frames@.len() - i,
    {
        proof {
            assert(all[i as int] == ocr_frames@[i as int]@);
        }
        frames.push(adjust_frame(&ocr_frames[i], y_stats, threshold));
        i = i + 1;
    }
    proof {
        assert(penalized_frames(frames@) =~= all.map_values(
            |f: types::FrameView| frame_penalized(f, *y_stats, args.limit()),
        ));
    }
    OcrBoxAdjustResult {
        meta: OcrBoxAdjustResultMeta { y_stats: *y_stats, frame_count: frames.len(), args: *args },
        frames,
    }
}

/// The frame without what was computed for its regions.
pub open spec fn plain(f: PenalizedFrame) -> types::FrameView {
    types::FrameView {
        text: f.text,
        text_confidence: f.text_confidence,
        boxes: f.boxes.map_values(|b: PenalizedBox| b.base),
        x_range: f.x_range,
        y_range: f.y_range,
        timestamp: f.timestamp,
    }
}

impl FrameResultBoxWithAdjust {
    /// The frame without what was computed for its regions.
    pub fn to_frame(&self) -> (r: FrameResult)
        ensures
            r@ == plain(self@),
    {
        let mut boxes: Vec<OcrBoxResult> = Vec::new();
        let mut i: usize = 0;
        while i < self.boxes.len()
            invariant
                i <= self.boxes@.len(),
                boxes@.len() == i,
                forall|k: int| 0 <= k < i ==> (#[trigger] boxes@[k])@ == self.boxes@[k].base@,
            decreases self.boxes@.len() - i,
        {
            boxes.push(self.boxes[i].base.duplicate());
            i = i + 1;
        }
        proof {
            assert(types::box_views(boxes@) =~= plain(self@).boxes);
        }
        FrameResult {
            text: self.text.clone(),
            text_confidence: self.text_confidence,
            boxes,
            x_range: self.x_range,
            y_range: self.y_range,
            timestamp: self.timestamp,
        }
    }
}

pub open spec fn plain_frames(s: Seq<PenalizedFrame>) -> Seq<types::FrameView> {
    s.map_values(|f: PenalizedFrame| plain(f))
}

/// Which regions of a frame are outliers.
pub open spec fn outliers(f: PenalizedFrame) -> Seq<bool> {
    f.boxes.map_values(|b: PenalizedBox| b.is_outlier)
}

pub open spec fn all_outliers(s: Seq<PenalizedFrame>) -> Seq<Seq<bool>> {
    s.map_values(|f: PenalizedFrame| outliers(f))
}

/// Removes the outliers from all frames.
pub fn get_ocr_frames_box_filtered(frames: &[FrameResultBoxWithAdjust]) -> (r:
    OcrFramesBoxFilteredResult)
    requires
        box_filter::all_heights_fit(plain_frames(penalized_frames(frames@))),
    ensures
        ({
            let all = penalized_frames(frames@);
            &&& types::frame_views(r.frames@) == box_filter::all_cleaned(
                plain_frames(all),
                all_outliers(all),
            )
            &&& r.meta.frame_count == r.frames@.len()
            &&& stats::describes(
                r.meta.y_stats,
                stats::shown_spans(types::frame_views(r.frames@)),
            )
        }),
{
    let mut plain: Vec<FrameResult> = Vec::new();
    let mut marks: Vec<Vec<bool>> = Vec::new();
    let mut i: usize = 0;
    while i < frames.len()
        invariant
            i <= frames@.len(),
            plain@.len() == i,
            marks@.len() == i,
            forall|k: int| 0 <= k < i ==> (#[trigger] plain@[k])@ == self::plain(frames@[k]@),
            forall|k: int| 0 <= k < i ==> (#[trigger] marks@[k])@ == outliers(frames@[k]@),
        decreases frames@.len() - i,
    {
        let f = &frames[i];
        let mut flags: Vec<bool> = Vec::new();
        let mut j: usize = 0;
        while j < f.boxes.len()
            invariant
                j <= f.boxes@.len(),
                flags@.len() == j,
                forall|k: int| 0 <= k < j ==> #[trigger] flags@[k] == f.boxes@[k].is_outlier,
            decreases f.boxes@.len() - j,
        {
            flags.push(f.boxes[j].is_outlier);
            j = j + 1;
        }
        proof {
            assert(flags@ =~= outliers(f@));
        }
        plain.push(f.to_frame());
        marks.push(flags);
        i = i + 1;
    }
    proof {
        let all = penalized_frames(frames@);
        assert(types::frame_views(plain@) =~= plain_frames(all));
        assert(box_filter::mark_views(marks@) =~= all_outliers(all));
        assert forall|k: int| 0 <= k < plain@.len() implies (#[trigger] marks@[k])@.len()
            == plain@[k].boxes@.len() by {
            assert(plain@[k]@ == self::plain(frames@[k]@));
            assert(types::box_views(plain@[k].boxes@).len() == plain@[k].boxes@.len());
        }
    }
    filter_frames(plain, marks.as_slice())
}

} // verus!
