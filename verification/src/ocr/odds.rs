//! What a region loses that stands far from the usual rows or is unusually high
//! or low.
use super::box_adjust;
use super::box_penalty;
use super::fixed;
use super::offsets;
use super::offsets::distance;
use super::stats::YStats;
use super::types;
use vstd::prelude::*;

verus! {

/// The larger one of two numbers.
pub open spec fn most(a: int, b: int) -> int {
    if a < b {
        b
    } else {
        a
    }
}

/// The smaller one of two numbers.
pub open spec fn fewest(a: int, b: int) -> int {
    if a < b {
        a
    } else {
        b
    }
}

/// Whether `p` billionths are `n / d`, but at most one, up to two billionths.
pub open spec fn is_part(p: int, n: int, d: int) -> bool {
    distance(p * d, fewest(1_000_000_000 * n, 1_000_000_000 * d)) <= 2 * d
}

/// Whether a confidence is what is left of another one after `p` billionths of it
/// are taken off, rounded down.
pub open spec fn is_left(c: int, of: int, p: int) -> bool {
    1_000_000_000 * c <= of * (1_000_000_000 - p) < 1_000_000_000 * (c + 1)
}

/// How many tenths of a line are taken off: five for each line beyond the first
/// one that a border lies away from the usual one, and three for each line that
/// the region is too high or too low.
pub open spec fn oddness(b: types::BoxView, y: YStats) -> int {
    let line = y.median_height as int;
    let away = most(
        distance(b.y_range.low as int, y.mode.low as int),
        distance(b.y_range.high as int, y.mode.high as int),
    );
    let height = b.y_range.high - b.y_range.low;
    5 * most(away - line, 0) + 3 * distance(line, height)
}

proof fn lemma_part(n: int, d: int) -> (q: int)
    requires
        d > 0,
    ensures
        q == n / d,
        q * d <= n,
        n < q * d + d,
{
    vstd::arithmetic::div_mod::lemma_fundamental_div_mod(n, d);
    assert(d * (n / d) == (n / d) * d) by (nonlinear_arith);
    n / d
}

proof fn lemma_most(a: int, b: int, line: int)
    requires
        line > 0,
    ensures
        most(a, b) * line == most(a * line, b * line),
        most(a - b, 0) * line == most(a * line - b * line, 0),
        distance(a, b) * line == distance(a * line, b * line),
{
    assert((a - b) * line == a * line - b * line) by (nonlinear_arith);
    assert((b - a) * line == b * line - a * line) by (nonlinear_arith);
    assert(0 * line == 0);
    assert(a <= b ==> a * line <= b * line) by (nonlinear_arith)
        requires
            line > 0,
    ;
    assert(a >= b ==> a * line >= b * line) by (nonlinear_arith)
        requires
            line > 0,
    ;
}

proof fn lemma_noise(top: int, bottom: int, dt: int, db: int, hr: int, h: int, line: int)
    requires
        line > 0,
        top * line <= 1_000_000_000 * dt < top * line + line,
        bottom * line <= 1_000_000_000 * db < bottom * line + line,
        hr * line <= 1_000_000_000 * h < hr * line + line,
    ensures
        is_part(
            box_penalty::noise(top, bottom, hr),
            5 * most(most(dt, db) - line, 0) + 3 * distance(line, h),
            10 * line,
        ),
        0 <= box_penalty::noise(top, bottom, hr) <= 1_000_000_000,
{
    let one = 1_000_000_000int;
    let away = most(top, bottom);
    let far = most(dt, db);
    lemma_most(top, bottom, line);
    assert(away * line <= one * far < away * line + line);
    let a = most(away - one, 0);
    lemma_most(away, one, line);
    assert(distance(a * line, one * most(far - line, 0)) <= line);
    let o = distance(one, hr);
    lemma_most(one, hr, line);
    assert(distance(o * line, one * distance(line, h)) <= line);
    let x = 5 * a + 3 * o;
    let n = 5 * most(far - line, 0) + 3 * distance(line, h);
    assert(x * line == 5 * (a * line) + 3 * (o * line)) by (nonlinear_arith)
        requires
            x == 5 * a + 3 * o,
    ;
    assert(distance(x * line, one * n) <= 8 * line);
    let q = x / 10;
    assert(10 * q <= x < 10 * q + 10);
    assert((10 * q) * line <= x * line <= (10 * q + 10) * line) by (nonlinear_arith)
        requires
            10 * q <= x < 10 * q + 10,
            line > 0,
    ;
    assert((10 * q + 10) * line == (10 * q) * line + 10 * line) by (nonlinear_arith);
    let d = 10 * line;
    assert(q * d == (10 * q) * line) by (nonlinear_arith)
        requires
            d == 10 * line,
    ;
    assert(distance(q * d, one * n) <= 2 * d);
    let p = box_penalty::noise(top, bottom, hr);
    assert(p == fewest(q, one));
    assert(q <= one ==> q * d <= one * d) by (nonlinear_arith)
        requires
            d > 0,
    ;
    assert(q >= one ==> q * d >= one * d) by (nonlinear_arith)
        requires
            d > 0,
    ;
    assert(p * d == fewest(q * d, one * d));
}

/// A region with a text loses, of its confidence, five tenths for each line
/// beyond the first one that it stands too high or too low, by its upper or its
/// lower border, and three tenths for each line that it is too high or too low in
/// itself; at most all of it. It is an outlier if what is left does not reach the
/// threshold. The ratios told with it are those lengths in lines.
pub proof fn odd_regions_lose_confidence(b: types::BoxView, y: YStats, threshold: int)
    requires
        offsets::visible(b.text),
        y.median_height > 0,
    ensures
        ({
            let r = box_penalty::penalized(b, y, threshold);
            let line = y.median_height as int;
            let height = b.y_range.high - b.y_range.low;
            &&& r.base == b
            &&& r.height == height
            &&& exists|p: int| #[trigger]
                is_part(p, oddness(b, y), 10 * line) && 0 <= p <= 1_000_000_000 && is_left(
                    r.adjusted_text_confidence,
                    b.text_confidence,
                    p,
                )
            &&& r.is_outlier <==> r.adjusted_text_confidence < threshold
            &&& distance(
                r.top_offset_ratio * line,
                1_000_000_000 * distance(b.y_range.low as int, y.mode.low as int),
            ) <= line
            &&& distance(
                r.bot_offset_ratio * line,
                1_000_000_000 * distance(b.y_range.high as int, y.mode.high as int),
            ) <= line
            &&& distance(r.height_ratio * line, 1_000_000_000 * height) <= line
        }),
{
    offsets::lemma_visible(b.text);
    let r = box_penalty::penalized(b, y, threshold);
    let line = y.median_height as int;
    let height = b.y_range.high - b.y_range.low;
    let dt = distance(b.y_range.low as int, y.mode.low as int);
    let db = distance(b.y_range.high as int, y.mode.high as int);
    assert(fixed::ONE == 1_000_000_000);
    let top = lemma_part(dt * 1_000_000_000, line);
    let bottom = lemma_part(db * 1_000_000_000, line);
    let hr = lemma_part(height * 1_000_000_000, line);
    assert(r.top_offset_ratio == top);
    assert(r.bot_offset_ratio == bottom);
    assert(r.height_ratio == hr);
    lemma_noise(top, bottom, dt, db, hr, height, line);
    let p = box_penalty::noise(top, bottom, hr);
    let c = lemma_part(b.text_confidence * (1_000_000_000 - p), 1_000_000_000);
    assert(r.adjusted_text_confidence == c);
    assert(is_part(p, oddness(b, y), 10 * line));
}

/// A region without a visible text is left alone.
pub proof fn blank_regions_are_left_alone(b: types::BoxView, y: YStats, threshold: int)
    requires
        !offsets::visible(b.text),
    ensures
        ({
            let r = box_penalty::penalized(b, y, threshold);
            &&& r.base == b
            &&& r.adjusted_text_confidence == b.text_confidence
            &&& !r.is_outlier
        }),
{
    crate::text::pieces::trimming_bares_the_text(b.text);
    let r = crate::text::strings::trimmed(b.text);
    if r.len() > 0 {
        let (from, to) = choose|from: int, to: int| #[trigger]
            crate::text::pieces::lies_bare(r, b.text, from, to);
        assert(r[0] == b.text[from]);
        assert(!crate::text::strings::is_white(b.text[from]));
    }
}

/// The regions of a frame are judged one by one, each with its own place.
pub proof fn regions_are_penalized_one_by_one(
    f: types::FrameView,
    y: YStats,
    threshold: int,
    i: int,
)
    requires
        0 <= i < f.boxes.len(),
    ensures
        ({
            let r = box_penalty::frame_penalized(f, y, threshold);
            &&& r.boxes.len() == f.boxes.len()
            &&& r.boxes[i].base == f.boxes[i]
            &&& r.boxes[i] == box_penalty::penalized(f.boxes[i], y, threshold)
            &&& r.text == f.text
            &&& r.text_confidence == f.text_confidence
            &&& r.timestamp == f.timestamp
        }),
{
}

} // verus!
