//! Lowering the confidence of regions that stand away from where subtitles
//! usually stand, or are unusually high or low, and marking the outliers.
use super::fixed;
use super::fixed::floor_div;
use super::stats;
use super::stats::{XStats, YStats};
use super::types;
use super::types::{FrameResult, OcrBoxResult, Span};
use crate::text::strings;
use crate::text::strings::is_blank;
use vstd::prelude::*;

verus! {

/// The confidence, in billionths, below which a region is an outlier.
#[derive(Clone, Copy, Debug)]
pub struct BoxAdjustedArgs {
    pub box_adjusted_threshold: Option<i64>,
}

impl Default for BoxAdjustedArgs {
    fn default() -> (r: BoxAdjustedArgs)
        ensures
            r.box_adjusted_threshold is None,
    {
        BoxAdjustedArgs { box_adjusted_threshold: None }
    }
}

/// The value of `box_adjusted_threshold` in stored arguments that leave it out.
pub fn default_box_adjusted_threshold() -> (r: Option<i64>)
    ensures
        r == Some(500_000_000i64),
{
    Some(500_000_000)
}

impl BoxAdjustedArgs {
    /// The threshold, or one half where none is given.
    pub open spec fn limit(self) -> int {
        match self.box_adjusted_threshold {
            Some(x) => x as int,
            None => 500_000_000,
        }
    }

    pub fn threshold(&self) -> (r: i64)
        ensures
            r == self.limit(),
    {
        match self.box_adjusted_threshold {
            Some(x) => x,
            None => 500_000_000,
        }
    }
}

/// A region with its lowered confidence and what lowered it. Ratios and
/// penalties are in billionths.
#[derive(Debug)]
pub struct OcrBoxResultWithAdjust {
    pub base: OcrBoxResult,
    /// The distance of the center from the usual one, down the image, in line
    /// heights.
    pub y_center_offset_ratio: i128,
    /// The distance of the center from the usual one, across the image, in line
    /// heights.
    pub x_center_offset_ratio: i128,
    pub height: i64,
    /// The height in line heights.
    pub height_ratio: i128,
    pub y_penalty: i64,
    pub x_penalty: i64,
    pub height_penalty: i64,
    pub total_penalty: i64,
    pub is_outlier: bool,
    pub adjusted_confidence: i64,
}

#[verifier::ext_equal]
pub ghost struct AdjustedBox {
    pub base: types::BoxView,
    pub y_center_offset_ratio: int,
    pub x_center_offset_ratio: int,
    pub height: int,
    pub height_ratio: int,
    pub y_penalty: int,
    pub x_penalty: int,
    pub height_penalty: int,
    pub total_penalty: int,
    pub is_outlier: bool,
    pub adjusted_confidence: int,
}

impl View for OcrBoxResultWithAdjust {
    type V = AdjustedBox;

    open spec fn view(&self) -> AdjustedBox {
        AdjustedBox {
            base: self.base@,
            y_center_offset_ratio: self.y_center_offset_ratio as int,
            x_center_offset_ratio: self.x_center_offset_ratio as int,
            height: self.height as int,
            height_ratio: self.height_ratio as int,
            y_penalty: self.y_penalty as int,
            x_penalty: self.x_penalty as int,
            height_penalty: self.height_penalty as int,
            total_penalty: self.total_penalty as int,
            is_outlier: self.is_outlier,
            adjusted_confidence: self.adjusted_confidence as int,
        }
    }
}

/// A frame whose regions have lowered confidences.
#[derive(Debug)]
pub struct FrameResultBoxWithAdjust {
    pub text: String,
    pub text_confidence: i64,
    pub x_range: Span,
    pub y_range: Span,
    pub timestamp: u64,
    pub boxes: Vec<OcrBoxResultWithAdjust>,
}

#[verifier::ext_equal]
pub ghost struct AdjustedFrame {
    pub text: Seq<char>,
    pub text_confidence: int,
    pub x_range: Span,
    pub y_range: Span,
    pub timestamp: int,
    pub boxes: Seq<AdjustedBox>,
}

pub open spec fn adjusted_boxes(s: Seq<OcrBoxResultWithAdjust>) -> Seq<AdjustedBox> {
    s.map_values(|b: OcrBoxResultWithAdjust| b@)
}

impl View for FrameResultBoxWithAdjust {
    type V = AdjustedFrame;

    open spec fn view(&self) -> AdjustedFrame {
        AdjustedFrame {
            text: self.text@,
            text_confidence: self.text_confidence as int,
            x_range: self.x_range,
            y_range: self.y_range,
            timestamp: self.timestamp as int,
            boxes: adjusted_boxes(self.boxes@),
        }
    }
}

pub open spec fn adjusted_frames(s: Seq<FrameResultBoxWithAdjust>) -> Seq<AdjustedFrame> {
    s.map_values(|f: FrameResultBoxWithAdjust| f@)
}

/// The frames with lowered confidences, and what they were computed with.
#[derive(Debug)]
pub struct OcrBoxAdjustResult {
    pub frames: Vec<FrameResultBoxWithAdjust>,
    pub meta: OcrBoxAdjustResultMeta,
}

#[derive(Clone, Copy, Debug)]
pub struct OcrBoxAdjustResultMeta {
    pub y_stats: YStats,
    pub x_stats: XStats,
    pub frame_count: usize,
    pub args: BoxAdjustedArgs,
}

/// The regions of a frame without what was computed for them.
pub open spec fn bases(s: Seq<AdjustedBox>) -> Seq<types::BoxView> {
    s.map_values(|b: AdjustedBox| b.base)
}

/// The frame without what was computed for its regions.
pub open spec fn plain(f: AdjustedFrame) -> types::FrameView {
    types::FrameView {
        text: f.text,
        text_confidence: f.text_confidence,
        boxes: bases(f.boxes),
        x_range: f.x_range,
        y_range: f.y_range,
        timestamp: f.timestamp,
    }
}

impl FrameResultBoxWithAdjust {
    /// The frame without what was computed for its regions.
    pub fn to_frame(&self) -> (r: FrameResult)
        ensures
            r@ == plain(self@),
    {
        let mut boxes: Vec<OcrBoxResult> = Vec::new();
        let mut i: usize = 0;
        while i < self.boxes.len()
            invariant
                i <= self.boxes@.len(),
                boxes@.len() == i,
                forall|k: int| 0 <= k < i ==> (#[trigger] boxes@[k])@ == self.boxes@[k].base@,
            decreases self.boxes@.len() - i,
        {
            boxes.push(self.boxes[i].base.duplicate());
            i = i + 1;
        }
        proof {
            assert(types::box_views(boxes@) =~= bases(adjusted_boxes(self.boxes@)));
        }
        FrameResult {
            text: self.text.clone(),
            text_confidence: self.text_confidence,
            boxes,
            x_range: self.x_range,
            y_range: self.y_range,
            timestamp: self.timestamp,
        }
    }
}

/// A length in line heights; zero where no line height is known.
pub open spec fn in_lines(a: int, line: int) -> int {
    if line > 0 {
        fixed::ratio(a, line)
    } else {
        0
    }
}

/// What a distance from the usual place adds: four fifths of what exceeds a
/// twentieth of a line.
pub open spec fn drift(offset: int) -> int {
    (fixed::larger(fixed::magnitude(offset) - 50_000_000, 0) * 8) / 10
}

/// What a region without a height adds.
pub const NO_HEIGHT: i64 = 99_000_000_000;

/// What an unusual height adds: three tenths of the doublings or halvings that
/// make it, and nearly all that can be lost where there is no height.
pub open spec fn stretch(height_ratio: int, height_log: int) -> int {
    if height_ratio > 0 {
        (height_log * 3) / 10
    } else {
        NO_HEIGHT as int
    }
}

/// A number from zero on, brought below one: one half stands for one.
pub open spec fn saturated(raw: int) -> int {
    (raw * fixed::ONE) / (raw + fixed::ONE)
}

/// A region with its confidence lowered, given the absolute value of the binary
/// logarithm of its height in line heights. It is an outlier if its confidence
/// falls below the threshold, or if it has no height.
pub open spec fn lowered(
    b: types::BoxView,
    y: YStats,
    x: XStats,
    threshold: int,
    height_log: int,
) -> AdjustedBox {
    if !stats::shows_text(b) {
        AdjustedBox {
            base: b,
            y_center_offset_ratio: 0,
            x_center_offset_ratio: 0,
            height: 0,
            height_ratio: 0,
            y_penalty: 0,
            x_penalty: 0,
            height_penalty: 0,
            total_penalty: 0,
            is_outlier: false,
            adjusted_confidence: b.box_confidence,
        }
    } else {
        let line = y.median_height as int;
        let height = b.y_range.high - b.y_range.low;
        let y_off = in_lines(b.center.y - (y.mode.low + y.mode.high) / 2, line);
        let x_off = in_lines(b.center.x - x.mode, line);
        let y_raw = drift(y_off);
        let x_raw = drift(x_off);
        let h_raw = stretch(in_lines(height, line), height_log);
        let total = saturated(y_raw + x_raw + h_raw);
        let weighted = (b.text_confidence * 3 + b.box_confidence * 7) / 10;
        let confidence = fixed::scaled(weighted, fixed::ONE - total);
        AdjustedBox {
            base: b,
            y_center_offset_ratio: y_off,
            x_center_offset_ratio: x_off,
            height,
            height_ratio: in_lines(height, line),
            y_penalty: saturated(y_raw),
            x_penalty: saturated(x_raw),
            height_penalty: saturated(h_raw),
            total_penalty: total,
            is_outlier: confidence < threshold || in_lines(height, line) <= 0,
            adjusted_confidence: confidence,
        }
    }
}

/// Coordinates of which differences can be taken.
pub open spec fn in_limits(v: int) -> bool {
    -stats::LIMIT <= v <= stats::LIMIT
}

pub open spec fn box_fits(b: types::BoxView) -> bool {
    &&& in_limits(b.y_range.low as int)
    &&& in_limits(b.y_range.high as int)
    &&& in_limits(b.center.x as int)
    &&& in_limits(b.center.y as int)
}

pub open spec fn stats_fit(y: YStats, x: XStats) -> bool {
    in_limits(y.mode.low as int) && in_limits(y.mode.high as int) && in_limits(x.mode as int)
}

/// The largest ratio of two coordinates, in billionths.
pub const WIDEST: i128 = 8_000_000_000_000_000_000_000_000_000;

pub(crate) fn lines_of(a: i128, line: i64) -> (r: i128)
    requires
        -8_000_000_000_000_000_000 <= a <= 8_000_000_000_000_000_000,
    ensures
        r == in_lines(a as int, line as int),
        -WIDEST <= r <= WIDEST,
{
    if line > 0 {
        proof {
            let n = a * fixed::ONE;
            let d = line as int;
            assert(d * (-8_000_000_000_000_000_000_000_000_000) <= n <= d
                * 8_000_000_000_000_000_000_000_000_000) by (nonlinear_arith)
                requires
                    d >= 1,
                    n == a * 1_000_000_000,
                    -8_000_000_000_000_000_000 <= a <= 8_000_000_000_000_000_000,
            ;
            fixed::lemma_quotient(n, d, -(WIDEST as int), WIDEST as int);
        }
        floor_div(a * (fixed::ONE as i128), line as i128)
    } else {
        0
    }
}

/// A length that is not negative is not so in line heights either.
pub proof fn lemma_lines_sign(a: int, line: int)
    requires
        a >= 0,
    ensures
        in_lines(a, line) >= 0,
{
    if line > 0 {
        assert((a * 1_000_000_000) / line >= 0) by (nonlinear_arith)
            requires
                a >= 0,
                line > 0,
        ;
    }
}

/// The height of a region in line heights.
pub fn height_ratio_of(b: &OcrBoxResult, y_stats: &YStats) -> (r: i128)
    requires
        box_fits(b@),
    ensures
        r == in_lines(b@.y_range.high - b@.y_range.low, y_stats.median_height as int),
{
    lines_of(b.y_range.high as i128 - b.y_range.low as i128, y_stats.median_height)
}

fn drift_of(offset: i128) -> (r: i128)
    requires
        -WIDEST <= offset <= WIDEST,
    ensures
        r == drift(offset as int),
        0 <= r <= WIDEST,
{
    let m: i128 = if offset < 0 {
        -offset
    } else {
        offset
    };
    if m > 50_000_000 {
        ((m - 50_000_000) * 8) / 10
    } else {
        0
    }
}

/// Bringing a number below one leaves it at zero or above.
pub proof fn saturated_stays_below_one(raw: int)
    requires
        raw >= 0,
    ensures
        0 <= saturated(raw) < fixed::ONE,
{
    let d = raw + fixed::ONE;
    let n = raw * fixed::ONE;
    let q = n / d;
    vstd::arithmetic::div_mod::lemma_fundamental_div_mod(n, d);
    assert(0 <= q < 1_000_000_000) by (nonlinear_arith)
        requires
            n == d * q + n % d,
            0 <= n % d < d,
            d == raw + 1_000_000_000,
            n == raw * 1_000_000_000,
            raw >= 0,
    ;
}

fn saturate(raw: i128) -> (r: i64)
    requires
        0 <= raw <= 3 * WIDEST,
    ensures
        r == saturated(raw as int),
        0 <= r < fixed::ONE,
{
    let one: i128 = fixed::ONE as i128;
    proof {
        saturated_stays_below_one(raw as int);
    }
    ((raw * one) / (raw + one)) as i64
}

/// Three tenths of one confidence and seven tenths of another.
fn weigh(text: i64, region: i64) -> (r: i64)
    ensures
        r == (text * 3 + region * 7) / 10,
{
    let sum: i128 = (text as i128) * 3 + (region as i128) * 7;
    floor_div(sum, 10) as i64
}

/// The part of a confidence that a penalty leaves.
pub(crate) fn lower(confidence: i64, penalty: i64) -> (r: i64)
    requires
        0 <= penalty <= fixed::ONE,
    ensures
        r == fixed::scaled(confidence as int, fixed::ONE - penalty),
{
    let rest: i128 = fixed::ONE as i128 - penalty as i128;
    proof {
        let c = confidence as int;
        let k = rest as int;
        let n = c * k;
        assert(1_000_000_000 * (-0x8000_0000_0000_0000) <= n <= 1_000_000_000
            * 0x7fff_ffff_ffff_ffff) by (nonlinear_arith)
            requires
                n == c * k,
                0 <= k <= 1_000_000_000,
                -0x8000_0000_0000_0000 <= c <= 0x7fff_ffff_ffff_ffff,
        ;
        fixed::lemma_quotient(
            n,
            1_000_000_000,
            -0x8000_0000_0000_0000,
            0x7fff_ffff_ffff_ffff,
        );
    }
    floor_div((confidence as i128) * rest, fixed::ONE as i128) as i64
}

/// Lowers the confidence of one region. `height_log` is the absolute value of
/// the binary logarithm of its height in line heights, in billionths.
pub fn adjust_box(
    box_r: &OcrBoxResult,
    y_stats: &YStats,
    x_stats: &XStats,
    threshold: i64,
    height_log: i64,
) -> (r: OcrBoxResultWithAdjust)
    requires
        box_fits(box_r@),
        stats_fit(*y_stats, *x_stats),
        height_log >= 0,
    ensures
        r@ == lowered(box_r@, *y_stats, *x_stats, threshold as int, height_log as int),
{
    if is_blank(box_r.text.as_str()) {
        return OcrBoxResultWithAdjust {
            base: box_r.duplicate(),
            y_center_offset_ratio: 0,
            x_center_offset_ratio: 0,
            height: 0,
            height_ratio: 0,
            y_penalty: 0,
            x_penalty: 0,
            height_penalty: 0,
            total_penalty: 0,
            is_outlier: false,
            adjusted_confidence: box_r.box_confidence,
        };
    }
    let line: i64 = y_stats.median_height;
    let height: i64 = box_r.y_range.high - box_r.y_range.low;
    let height_ratio: i128 = lines_of(height as i128, line);
    let middle: i128 = floor_div(y_stats.mode.low as i128 + y_stats.mode.high as i128, 2);
    let y_off: i128 = lines_of(box_r.center.y as i128 - middle, line);
    let x_off: i128 = lines_of(box_r.center.x as i128 - x_stats.mode as i128, line);
    let y_raw: i128 = drift_of(y_off);
    let x_raw: i128 = drift_of(x_off);
    let h_raw: i128 = if height_ratio > 0 {
        ((height_log as i128) * 3) / 10
    } else {
        NO_HEIGHT as i128
    };
    let total_penalty: i64 = saturate(y_raw + x_raw + h_raw);
    let weighted: i64 = weigh(box_r.text_confidence, box_r.box_confidence);
    let adjusted: i64 = lower(weighted, total_penalty);
    OcrBoxResultWithAdjust {
        base: box_r.duplicate(),
        y_center_offset_ratio: y_off,
        x_center_offset_ratio: x_off,
        height,
        height_ratio,
        y_penalty: saturate(y_raw),
        x_penalty: saturate(x_raw),
        height_penalty: saturate(h_raw),
        total_penalty,
        is_outlier: adjusted < threshold || height_ratio <= 0,
        adjusted_confidence: adjusted,
    }
}

/// A frame with the confidences of its regions lowered.
pub open spec fn frame_lowered(
    f: types::FrameView,
    y: YStats,
    x: XStats,
    threshold: int,
    logs: Seq<i64>,
) -> AdjustedFrame {
    AdjustedFrame {
        text: f.text,
        text_confidence: f.text_confidence,
        x_range: f.x_range,
        y_range: f.y_range,
        timestamp: f.timestamp,
        boxes: Seq::new(
            f.boxes.len(),
            |i: int| lowered(f.boxes[i], y, x, threshold, logs[i] as int),
        ),
    }
}

/// One logarithm for each region, none of them negative.
pub open spec fn logs_fit(frames: Seq<FrameResult>, logs: Seq<Vec<i64>>) -> bool {
    &&& logs.len() == frames.len()
    &&& forall|i: int|
        0 <= i < frames.len() ==> (#[trigger] logs[i])@.len() == frames[i].boxes@.len()
    &&& forall|i: int, j: int|
        0 <= i < frames.len() && 0 <= j < logs[i]@.len() ==> (#[trigger] logs[i]@[j]) >= 0
}

/// All regions have coordinates of which differences can be taken.
pub open spec fn frames_fit(frames: Seq<FrameResult>) -> bool {
    forall|i: int, j: int|
        0 <= i < frames.len() && 0 <= j < frames[i].boxes@.len() ==> box_fits(
            (#[trigger] frames[i].boxes@[j])@,
        )
}

fn adjust_frame(
    f: &FrameResult,
    y_stats: &YStats,
    x_stats: &XStats,
    threshold: i64,
    logs: &[i64],
) -> (r: FrameResultBoxWithAdjust)
    requires
        stats_fit(*y_stats, *x_stats),
        logs@.len() == f.boxes@.len(),
        forall|j: int| 0 <= j < logs@.len() ==> #[trigger] logs@[j] >= 0,
        forall|j: int| 0 <= j < f.boxes@.len() ==> box_fits((#[trigger] f.boxes@[j])@),
    ensures
        r@ == frame_lowered(f@, *y_stats, *x_stats, threshold as int, logs@),
{
    let mut boxes: Vec<OcrBoxResultWithAdjust> = Vec::new();
    let mut j: usize = 0;
    while j < f.boxes.len()
        invariant
            j <= f.boxes@.len(),
            boxes@.len() == j,
            stats_fit(*y_stats, *x_stats),
            logs@.len() == f.boxes@.len(),
            forall|k: int| 0 <= k < logs@.len() ==> #[trigger] logs@[k] >= 0,
            forall|k: int| 0 <= k < f.boxes@.len() ==> box_fits((#[trigger] f.boxes@[k])@),
            forall|k: int|
                0 <= k < j ==> (#[trigger] boxes@[k])@ == lowered(
                    f.boxes@[k]@,
                    *y_stats,
                    *x_stats,
                    threshold as int,
                    logs@[k] as int,
                ),
        decreases f.boxes@.len() - j,
    {
        proof {
            assert(logs@[j as int] >= 0);
        }
        boxes.push(adjust_box(&f.boxes[j], y_stats, x_stats, threshold, logs[j]));
        j = j + 1;
    }
    proof {
        assert(adjusted_boxes(boxes@) =~= frame_lowered(
            f@,
            *y_stats,
            *x_stats,
            threshold as int,
            logs@,
        ).boxes);
    }
    FrameResultBoxWithAdjust {
        text: f.text.clone(),
        text_confidence: f.text_confidence,
        x_range: f.x_range,
        y_range: f.y_range,
        timestamp: f.timestamp,
        boxes,
    }
}

/// Lowers the confidences of all regions. `height_logs` holds, for each region
/// of each frame, the absolute value of the binary logarithm of its height in
/// line heights, in billionths.
pub fn ocr_frames_adjust_box(
    ocr_frames: &[FrameResult],
    y_stats: &YStats,
    x_stats: &XStats,
    args: &BoxAdjustedArgs,
    height_logs: &[Vec<i64>],
) -> (r: OcrBoxAdjustResult)
    requires
        frames_fit(ocr_frames@),
        stats_fit(*y_stats, *x_stats),
        logs_fit(ocr_frames@, height_logs@),
    ensures
        r.frames@.len() == ocr_frames@.len(),
        forall|i: int|
            0 <= i < ocr_frames@.len() ==> (#[trigger] r.frames@[i])@ == frame_lowered(
                ocr_frames@[i]@,
                *y_stats,
                *x_stats,
                args.limit(),
                height_logs@[i]@,
            ),
        r.meta.y_stats == *y_stats,
        r.meta.x_stats == *x_stats,
        r.meta.frame_count == ocr_frames@.len(),
        r.meta.args == *args,
{
    let threshold: i64 = args.threshold();
    let mut frames: Vec<FrameResultBoxWithAdjust> = Vec::new();
    let mut i: usize = 0;
    while i < ocr_frames.len()
        invariant
            i <= ocr_frames@.len(),
            frames@.len() == i,
            threshold == args.limit(),
            frames_fit(ocr_frames@),
            stats_fit(*y_stats, *x_stats),
            logs_fit(ocr_frames@, height_logs@),
            forall|k: int|
                0 <= k < i ==> (#[trigger] frames@[k])@ == frame_lowered(
                    ocr_frames@[k]@,
                    *y_stats,
                    *x_stats,
                    args.limit(),
                    height_logs@[k]@,
                ),
        decreases ocr_frames@.len() - i,
    {
        proof {
            assert(height_logs@[i as int]@.len() == ocr_frames@[i as int].boxes@.len());
        }
        frames.push(
            adjust_frame(&ocr_frames[i], y_stats, x_stats, threshold, height_logs[i].as_slice()),
        );
        i = i + 1;
    }
    OcrBoxAdjustResult {
        meta: OcrBoxAdjustResultMeta {
            y_stats: *y_stats,
            x_stats: *x_stats,
            frame_count: frames.len(),
            args: *args,
        },
        frames,
    }
}

/// A region without text is never an outlier and keeps its confidence.
pub proof fn blank_regions_pass(
    b: types::BoxView,
    y: YStats,
    x: XStats,
    threshold: int,
    height_log: int,
)
    requires
        strings::trimmed(b.text).len() == 0,
    ensures
        !lowered(b, y, x, threshold, height_log).is_outlier,
        lowered(b, y, x, threshold, height_log).adjusted_confidence == b.box_confidence,
{
}

/// A region of the usual height at the usual place keeps its weighted
/// confidence.
pub proof fn usual_regions_keep_confidence(
    b: types::BoxView,
    y: YStats,
    x: XStats,
    threshold: int,
)
    requires
        stats::shows_text(b),
        y.median_height > 0,
        b.y_range.high - b.y_range.low == y.median_height,
        b.center.y == (y.mode.low + y.mode.high) / 2,
        b.center.x == x.mode,
    ensures
        ({
            let r = lowered(b, y, x, threshold, 0);
            &&& r.total_penalty == 0
            &&& r.adjusted_confidence == (b.text_confidence * 3 + b.box_confidence * 7) / 10
        }),
{
    let line = y.median_height as int;
    vstd::arithmetic::div_mod::lemma_fundamental_div_mod_converse(0, line, 0, 0);
    let n = line * 1_000_000_000;
    assert(n == 1_000_000_000 * line + 0) by (nonlinear_arith)
        requires
            n == line * 1_000_000_000,
    ;
    vstd::arithmetic::div_mod::lemma_fundamental_div_mod_converse(n, line, 1_000_000_000, 0);
    assert(in_lines(0, line) == 0);
    assert(in_lines(line, line) == 1_000_000_000);
    let w = (b.text_confidence * 3 + b.box_confidence * 7) / 10;
    assert(saturated(0) == 0);
    assert(fixed::scaled(w, fixed::ONE as int) == w);
}

/// A region with text but without a height is always an outlier, and loses nearly
/// all of its confidence.
pub proof fn flat_regions_are_outliers(
    b: types::BoxView,
    y: YStats,
    x: XStats,
    threshold: int,
    height_log: int,
)
    requires
        stats::shows_text(b),
        in_lines(b.y_range.high - b.y_range.low, y.median_height as int) <= 0,
    ensures
        ({
            let r = lowered(b, y, x, threshold, height_log);
            &&& r.is_outlier
            &&& r.height_penalty == 990_000_000
            &&& 990_000_000 <= r.total_penalty
        }),
{
    let line = y.median_height as int;
    let y_raw = drift(in_lines(b.center.y - (y.mode.low + y.mode.high) / 2, line));
    let x_raw = drift(in_lines(b.center.x - x.mode, line));
    let raw = y_raw + x_raw + NO_HEIGHT;
    assert(saturated(NO_HEIGHT as int) == 990_000_000);
    assert(990_000_000 <= (raw * 1_000_000_000) / (raw + 1_000_000_000)) by (nonlinear_arith)
        requires
            raw >= 99_000_000_000,
    ;
}

/// Every penalty is at least zero and below one.
pub proof fn penalties_stay_below_one(
    b: types::BoxView,
    y: YStats,
    x: XStats,
    threshold: int,
    height_log: int,
)
    requires
        height_log >= 0,
    ensures
        ({
            let r = lowered(b, y, x, threshold, height_log);
            &&& 0 <= r.y_penalty < fixed::ONE
            &&& 0 <= r.x_penalty < fixed::ONE
            &&& 0 <= r.height_penalty < fixed::ONE
            &&& 0 <= r.total_penalty < fixed::ONE
        }),
{
    let line = y.median_height as int;
    let height = b.y_range.high - b.y_range.low;
    let y_raw = drift(in_lines(b.center.y - (y.mode.low + y.mode.high) / 2, line));
    let x_raw = drift(in_lines(b.center.x - x.mode, line));
    let h_raw = stretch(in_lines(height, line), height_log);
    saturated_stays_below_one(y_raw);
    saturated_stays_below_one(x_raw);
    saturated_stays_below_one(h_raw);
    saturated_stays_below_one(y_raw + x_raw + h_raw);
}

} // verus!
