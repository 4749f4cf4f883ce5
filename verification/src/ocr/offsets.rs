//! What lowering the confidence of a region comes to, in terms of where the region
//! stands.
use super::box_adjust;
use super::fixed;
use super::stats::{XStats, YStats};
use super::types;
use crate::text::strings;
use vstd::prelude::*;

verus! {

/// The distance of two numbers.
pub open spec fn distance(a: int, b: int) -> int {
    if a < b {
        b - a
    } else {
        a - b
    }
}

/// Whether `p` billionths are `n / d`, up to six billionths.
pub open spec fn about(p: int, n: int, d: int) -> bool {
    distance(p * d, 1_000_000_000 * n) <= 6 * d
}

/// Twenty times the part of a distance beyond a twentieth of a line.
pub open spec fn beyond(d: int, line: int) -> int {
    if 20 * d > line {
        20 * d - line
    } else {
        0
    }
}

/// Whether a text shows a character that is no white space.
pub open spec fn visible(text: Seq<char>) -> bool {
    exists|i: int| 0 <= i < text.len() && !strings::is_white(#[trigger] text[i])
}

/// A region with text on lines of a known height, itself with a height.
pub open spec fn stands(b: types::BoxView, y: YStats) -> bool {
    &&& visible(b.text)
    &&& y.median_height > 0
    &&& (b.y_range.high - b.y_range.low) * 1_000_000_000 >= y.median_height
}

proof fn lemma_leading(s: Seq<char>)
    ensures
        visible(s) ==> visible(strings::without_leading(s)),
    decreases s.len(),
{
    if s.len() > 0 && strings::is_white(s[0]) {
        if visible(s) {
            let i = choose|i: int| 0 <= i < s.len() && !strings::is_white(#[trigger] s[i]);
            assert(s.skip(1)[i - 1] == s[i]);
            assert(visible(s.skip(1)));
        }
        lemma_leading(s.skip(1));
    }
}

proof fn lemma_trailing(s: Seq<char>)
    ensures
        visible(s) ==> strings::without_trailing(s).len() > 0,
    decreases s.len(),
{
    if s.len() > 0 && strings::is_white(s.last()) {
        if visible(s) {
            let i = choose|i: int| 0 <= i < s.len() && !strings::is_white(#[trigger] s[i]);
            assert(s.drop_last()[i] == s[i]);
            assert(visible(s.drop_last()));
        }
        lemma_trailing(s.drop_last());
    }
}

/// A visible text is more than white space.
pub proof fn lemma_visible(s: Seq<char>)
    ensures
        visible(s) ==> strings::trimmed(s).len() > 0,
{
    lemma_leading(s);
    lemma_trailing(strings::without_leading(s));
}

/// Where a quotient lies.
proof fn lemma_floor(n: int, d: int)
    requires
        d > 0,
    ensures
        (n / d) * d <= n,
        n < (n / d) * d + d,
{
    vstd::arithmetic::div_mod::lemma_fundamental_div_mod(n, d);
    assert(d * (n / d) == (n / d) * d) by (nonlinear_arith);
}

/// What a distance adds lies near four fifths of what exceeds a twentieth.
proof fn lemma_drift(a: int, line: int)
    requires
        line > 0,
    ensures
        ({
            let r = box_adjust::drift(box_adjust::in_lines(a, line));
            &&& r >= 0
            &&& distance(r * line, 40_000_000 * beyond(distance(a, 0), line)) <= 2 * line
        }),
{
    let n = a * 1_000_000_000;
    let q = box_adjust::in_lines(a, line);
    let m = fixed::magnitude(q);
    let d = distance(a, 0);
    let r = box_adjust::drift(q);
    let e = 40_000_000 * beyond(d, line);
    assert(fixed::ONE == 1_000_000_000);
    lemma_floor(n, line);
    assert(distance(m * line, d * 1_000_000_000) <= line) by {
        assert((-q) * line == -(q * line)) by (nonlinear_arith);
    }
    if m > 50_000_000 {
        assert(r * 10 <= (m - 50_000_000) * 8 < r * 10 + 10);
        assert(r * line * 10 <= (m * line - 50_000_000 * line) * 8 < r * line * 10 + 10 * line)
            by (nonlinear_arith)
            requires
                r * 10 <= (m - 50_000_000) * 8 < r * 10 + 10,
                line > 0,
        ;
    } else {
        assert(r == 0);
        assert(m * line <= 50_000_000 * line) by (nonlinear_arith)
            requires
                m <= 50_000_000,
                line > 0,
        ;
        assert(0 * line == 0);
    }
}

/// Bringing a number below one keeps it near.
proof fn lemma_saturated(raw: int, n: int, m: int)
    requires
        raw >= 0,
        n >= 0,
        m > 0,
        distance(raw * m, 1_000_000_000 * n) <= 5 * m,
    ensures
        about(box_adjust::saturated(raw), n, n + m),
{
    let one = 1_000_000_000int;
    let q = box_adjust::saturated(raw);
    let d = raw + one;
    let t = n + m;
    assert(fixed::ONE == one);
    lemma_floor(raw * one, d);
    assert(q * t - one * n <= 6 * t) by (nonlinear_arith)
        requires
            q * d <= raw * one,
            raw * m - one * n <= 5 * m,
            d == raw + one,
            t == n + m,
            one == 1_000_000_000,
            raw >= 0,
            n >= 0,
            m > 0,
    {
        assert(q * d * t <= raw * one * t);
        assert(raw * one * t - one * n * d == one * (raw * m - one * n));
        assert(one * (raw * m - one * n) <= one * (5 * m));
        assert(one * (5 * m) <= d * (5 * m));
        assert(q * d * t == d * (q * t));
        assert(one * n * d == d * (one * n));
        assert(d * (q * t - one * n) <= d * (5 * m));
        assert(q * t - one * n <= 5 * m);
    }
    assert(one * n - q * t <= 6 * t) by (nonlinear_arith)
        requires
            raw * one < q * d + d,
            one * n - raw * m <= 5 * m,
            d == raw + one,
            t == n + m,
            one == 1_000_000_000,
            raw >= 0,
            n >= 0,
            m > 0,
    {
        assert(raw * one * t <= (q * d + d) * t);
        assert(raw * one * t - one * n * d == one * (raw * m - one * n));
        assert(one * (raw * m - one * n) >= one * (-5 * m));
        assert(one * (-5 * m) >= d * (-5 * m));
        assert((q * d + d) * t == d * ((q + 1) * t));
        assert(one * n * d == d * (one * n));
        assert(d * ((q + 1) * t - one * n) >= d * (-5 * m));
        assert((q + 1) * t - one * n >= -5 * m);
        assert((q + 1) * t == q * t + t);
    }
}

/// The penalties of a region with text tell how far its center stands from the
/// usual place, across and down the image, and how unusual its height is. Beyond a
/// twentieth of a line a distance `d` costs `s / (s + 1)`, with
/// `s = 4/5 * (d / line - 1/20)`. An unusual height costs the same for
/// `s = 3/10 * |log2|`, and the total penalty for the sum of all three.
pub proof fn penalties_follow_distances(
    b: types::BoxView,
    y: YStats,
    x: XStats,
    threshold: int,
    height_log: int,
)
    requires
        stands(b, y),
        height_log >= 0,
    ensures
        ({
            let r = box_adjust::lowered(b, y, x, threshold, height_log);
            let line = y.median_height as int;
            let across = 400_000_000 * beyond(distance(b.center.x as int, x.mode as int), line);
            let down = 400_000_000 * beyond(
                distance(b.center.y as int, (y.mode.low + y.mode.high) / 2),
                line,
            );
            let height = 3 * height_log * line;
            let unit = 10_000_000_000 * line;
            &&& about(r.x_penalty, across, across + unit)
            &&& about(r.y_penalty, down, down + unit)
            &&& about(r.height_penalty, height, height + unit)
            &&& about(r.total_penalty, across + down + height, across + down + height + unit)
        }),
{
    let line = y.median_height as int;
    lemma_visible(b.text);
    let dx = b.center.x - x.mode;
    let dy = b.center.y - (y.mode.low + y.mode.high) / 2;
    lemma_drift(dx, line);
    lemma_drift(dy, line);
    let x_raw = box_adjust::drift(box_adjust::in_lines(dx, line));
    let y_raw = box_adjust::drift(box_adjust::in_lines(dy, line));
    let tall = b.y_range.high - b.y_range.low;
    let ratio = box_adjust::in_lines(tall, line);
    lemma_floor(tall * 1_000_000_000, line);
    assert(ratio > 0) by (nonlinear_arith)
        requires
            tall * 1_000_000_000 < ratio * line + line,
            tall * 1_000_000_000 >= line,
            line > 0,
    ;
    let h_raw = box_adjust::stretch(ratio, height_log);
    assert(h_raw * 10 <= height_log * 3 < h_raw * 10 + 10);
    let height = 3 * height_log * line;
    let unit = 10_000_000_000 * line;
    assert(0 <= height && h_raw * unit <= 1_000_000_000 * height && 1_000_000_000 * height <= h_raw
        * unit + unit) by (nonlinear_arith)
        requires
            h_raw * 10 <= height_log * 3 < h_raw * 10 + 10,
            height == 3 * height_log * line,
            unit == 10_000_000_000 * line,
            height_log >= 0,
            line > 0,
    ;
    let ax = beyond(distance(b.center.x as int, x.mode as int), line);
    let ay = beyond(distance(b.center.y as int, (y.mode.low + y.mode.high) / 2), line);
    assert(distance(dx, 0) == distance(b.center.x as int, x.mode as int));
    assert(distance(dy, 0) == distance(b.center.y as int, (y.mode.low + y.mode.high) / 2));
    assert(x_raw * unit == 10_000_000_000 * (x_raw * line)) by (nonlinear_arith)
        requires
            unit == 10_000_000_000 * line,
    ;
    assert(y_raw * unit == 10_000_000_000 * (y_raw * line)) by (nonlinear_arith)
        requires
            unit == 10_000_000_000 * line,
    ;
    let across = 400_000_000 * ax;
    let down = 400_000_000 * ay;
    assert(distance(x_raw * unit, 1_000_000_000 * across) <= 2 * unit);
    assert(distance(y_raw * unit, 1_000_000_000 * down) <= 2 * unit);
    let raw = y_raw + x_raw + h_raw;
    assert(raw * unit == y_raw * unit + x_raw * unit + h_raw * unit) by (nonlinear_arith)
        requires
            raw == y_raw + x_raw + h_raw,
    ;
    lemma_saturated(x_raw, across, unit);
    lemma_saturated(y_raw, down, unit);
    lemma_saturated(h_raw, height, unit);
    lemma_saturated(raw, across + down + height, unit);
}

/// The numbers noted with a region: its height, and its height and its offsets from
/// the usual place in lines, rounded down.
pub proof fn offsets_are_counted_in_lines(
    b: types::BoxView,
    y: YStats,
    x: XStats,
    threshold: int,
    height_log: int,
)
    requires
        visible(b.text),
        y.median_height > 0,
    ensures
        ({
            let r = box_adjust::lowered(b, y, x, threshold, height_log);
            let line = y.median_height as int;
            let down = (b.center.y - (y.mode.low + y.mode.high) / 2) * 1_000_000_000;
            let across = (b.center.x - x.mode) * 1_000_000_000;
            &&& r.base == b
            &&& r.height == b.y_range.high - b.y_range.low
            &&& r.height_ratio * line <= r.height * 1_000_000_000 < r.height_ratio * line + line
            &&& r.y_center_offset_ratio * line <= down < r.y_center_offset_ratio * line + line
            &&& r.x_center_offset_ratio * line <= across < r.x_center_offset_ratio * line + line
        }),
{
    let line = y.median_height as int;
    lemma_visible(b.text);
    lemma_floor((b.y_range.high - b.y_range.low) * 1_000_000_000, line);
    lemma_floor((b.center.y - (y.mode.low + y.mode.high) / 2) * 1_000_000_000, line);
    lemma_floor((b.center.x - x.mode) * 1_000_000_000, line);
}

/// What is left of the confidence of a region: the penalty is taken off three tenths
/// of the confidence in its text and seven tenths of that in the region itself. It
/// is an outlier just when that is below the threshold.
pub proof fn penalties_are_taken_off(
    b: types::BoxView,
    y: YStats,
    x: XStats,
    threshold: int,
    height_log: int,
)
    requires
        stands(b, y),
    ensures
        ({
            let r = box_adjust::lowered(b, y, x, threshold, height_log);
            &&& distance(
                10_000_000_000 * r.adjusted_confidence,
                (3 * b.text_confidence + 7 * b.box_confidence) * (1_000_000_000
                    - r.total_penalty),
            ) <= 10_000_000_000 + 10 * distance(1_000_000_000, r.total_penalty)
            &&& r.is_outlier <==> r.adjusted_confidence < threshold
        }),
{
    let r = box_adjust::lowered(b, y, x, threshold, height_log);
    let line = y.median_height as int;
    lemma_visible(b.text);
    offsets_are_counted_in_lines(b, y, x, threshold, height_log);
    assert(r.height_ratio > 0) by (nonlinear_arith)
        requires
            r.height * 1_000_000_000 < r.height_ratio * line + line,
            r.height * 1_000_000_000 >= line,
            line > 0,
    ;
    let sum = b.text_confidence * 3 + b.box_confidence * 7;
    let w = sum / 10;
    let rest = 1_000_000_000 - r.total_penalty;
    assert(fixed::ONE == 1_000_000_000);
    lemma_floor(w * rest, 1_000_000_000);
    assert(distance(10 * (w * rest), sum * rest) <= 10 * distance(rest, 0)) by (nonlinear_arith)
        requires
            0 <= sum - 10 * w < 10,
    {
        let e = sum - 10 * w;
        assert(sum * rest - 10 * (w * rest) == e * rest);
        if rest >= 0 {
            assert(0 <= e * rest <= 10 * rest);
        } else {
            assert(10 * rest <= e * rest <= 0);
        }
    }
}

/// A distance that grows by a billionth of a line or more, on either side, adds no
/// less.
proof fn lemma_farther(a: int, b: int, line: int)
    requires
        line > 0,
        distance(a, 0) * 1_000_000_000 + line <= distance(b, 0) * 1_000_000_000,
    ensures
        box_adjust::drift(box_adjust::in_lines(a, line)) <= box_adjust::drift(
            box_adjust::in_lines(b, line),
        ),
        0 <= box_adjust::drift(box_adjust::in_lines(a, line)),
{
    let p = box_adjust::in_lines(a, line);
    let q = box_adjust::in_lines(b, line);
    lemma_floor(a * 1_000_000_000, line);
    lemma_floor(b * 1_000_000_000, line);
    let m = fixed::magnitude(p);
    let n = fixed::magnitude(q);
    assert((-p) * line == -(p * line) && (-q) * line == -(q * line)) by (nonlinear_arith);
    // Rounding moves each of them by less than one.
    if p < 0 {
        assert(m * line < distance(a, 0) * 1_000_000_000 + line);
    } else {
        assert(m * line <= distance(a, 0) * 1_000_000_000);
    }
    assert(n * line > distance(b, 0) * 1_000_000_000 - line);
    if m > n {
        assert(m * line >= n * line + line) by (nonlinear_arith)
            requires
                m >= n + 1,
                line > 0,
        ;
        if q < 0 {
            assert(n * line >= distance(b, 0) * 1_000_000_000);
        }
    }
    assert(m <= n);
}

proof fn lemma_more(a: int, b: int)
    requires
        0 <= a <= b,
    ensures
        box_adjust::saturated(a) <= box_adjust::saturated(b),
{
    let one = 1_000_000_000int;
    assert(fixed::ONE == one);
    let p = box_adjust::saturated(a);
    let q = box_adjust::saturated(b);
    lemma_floor(a * one, a + one);
    lemma_floor(b * one, b + one);
    assert(p <= q) by (nonlinear_arith)
        requires
            p * (a + one) <= a * one,
            b * one < q * (b + one) + (b + one),
            0 <= a <= b,
            one == 1_000_000_000,
    {
        if p > q {
            assert((q + 1) * (a + one) <= p * (a + one));
            assert((q + 1) * (b + one) > b * one);
            assert((q + 1) * (a + one) <= a * one);
            assert((q + 1) * (a + one) * (b + one) <= a * one * (b + one));
            assert((q + 1) * (b + one) * (a + one) > b * one * (a + one));
            assert(a * one * (b + one) <= b * one * (a + one));
        }
    }
}

/// Two regions that stand at the same height and differ in nothing but where they
/// stand across the image.
pub open spec fn side_by_side(a: types::BoxView, b: types::BoxView) -> bool {
    &&& a.text == b.text
    &&& a.text_confidence == b.text_confidence
    &&& a.box_confidence == b.box_confidence
    &&& a.y_range == b.y_range
    &&& a.center.y == b.center.y
}

/// Of two regions side by side the one that stands farther from the usual center, on
/// either side of it, is no surer and has no smaller penalties.
pub proof fn regions_far_to_the_side_lose_more(
    a: types::BoxView,
    b: types::BoxView,
    y: YStats,
    x: XStats,
    threshold: int,
    height_log: int,
)
    requires
        stands(a, y),
        side_by_side(a, b),
        height_log >= 0,
        3 * a.text_confidence + 7 * a.box_confidence >= 0,
        distance(a.center.x as int, x.mode as int) * 1_000_000_000 + y.median_height <= distance(
            b.center.x as int,
            x.mode as int,
        ) * 1_000_000_000,
    ensures
        ({
            let p = box_adjust::lowered(a, y, x, threshold, height_log);
            let q = box_adjust::lowered(b, y, x, threshold, height_log);
            &&& p.x_penalty <= q.x_penalty
            &&& p.y_penalty == q.y_penalty
            &&& p.height_penalty == q.height_penalty
            &&& p.total_penalty <= q.total_penalty
            &&& p.adjusted_confidence >= q.adjusted_confidence
            &&& p.is_outlier ==> q.is_outlier
        }),
{
    let line = y.median_height as int;
    lemma_visible(a.text);
    let p = box_adjust::lowered(a, y, x, threshold, height_log);
    let q = box_adjust::lowered(b, y, x, threshold, height_log);
    let da = a.center.x - x.mode;
    let db = b.center.x - x.mode;
    lemma_farther(da, db, line);
    let dy = box_adjust::drift(
        box_adjust::in_lines(a.center.y - (y.mode.low + y.mode.high) / 2, line),
    );
    let xa = box_adjust::drift(box_adjust::in_lines(da, line));
    let xb = box_adjust::drift(box_adjust::in_lines(db, line));
    let h = box_adjust::stretch(box_adjust::in_lines(a.y_range.high - a.y_range.low, line), height_log);
    lemma_more(xa, xb);
    lemma_more(dy + xa + h, dy + xb + h);
    lemma_less_left(a, p.total_penalty, q.total_penalty);
}

proof fn lemma_less_left(b: types::BoxView, p: int, q: int)
    requires
        p <= q,
        3 * b.text_confidence + 7 * b.box_confidence >= 0,
    ensures
        ({
            let w = (b.text_confidence * 3 + b.box_confidence * 7) / 10;
            fixed::scaled(w, fixed::ONE - p) >= fixed::scaled(w, fixed::ONE - q)
        }),
{
    let w = (b.text_confidence * 3 + b.box_confidence * 7) / 10;
    let one = 1_000_000_000int;
    assert(fixed::ONE == one);
    assert(w * (one - q) <= w * (one - p)) by (nonlinear_arith)
        requires
            w >= 0,
            p <= q,
    ;
    vstd::arithmetic::div_mod::lemma_div_is_ordered(w * (one - q), w * (one - p), one);
}

/// Two regions one above the other that differ in nothing but where they stand down
/// the image.
pub open spec fn stacked(a: types::BoxView, b: types::BoxView) -> bool {
    &&& a.text == b.text
    &&& a.text_confidence == b.text_confidence
    &&& a.box_confidence == b.box_confidence
    &&& a.y_range.high - a.y_range.low == b.y_range.high - b.y_range.low
    &&& a.center.x == b.center.x
}

/// Of two regions one above the other the one that stands farther from the usual
/// rows, above or below them, is no surer and has no smaller penalties.
pub proof fn regions_far_above_or_below_lose_more(
    a: types::BoxView,
    b: types::BoxView,
    y: YStats,
    x: XStats,
    threshold: int,
    height_log: int,
)
    requires
        stands(a, y),
        stacked(a, b),
        height_log >= 0,
        3 * a.text_confidence + 7 * a.box_confidence >= 0,
        distance(a.center.y as int, (y.mode.low + y.mode.high) / 2) * 1_000_000_000
            + y.median_height <= distance(b.center.y as int, (y.mode.low + y.mode.high) / 2)
            * 1_000_000_000,
    ensures
        ({
            let p = box_adjust::lowered(a, y, x, threshold, height_log);
            let q = box_adjust::lowered(b, y, x, threshold, height_log);
            &&& p.y_penalty <= q.y_penalty
            &&& p.x_penalty == q.x_penalty
            &&& p.height_penalty == q.height_penalty
            &&& p.total_penalty <= q.total_penalty
            &&& p.adjusted_confidence >= q.adjusted_confidence
            &&& p.is_outlier ==> q.is_outlier
        }),
{
    let line = y.median_height as int;
    lemma_visible(a.text);
    let mid = (y.mode.low + y.mode.high) / 2;
    let p = box_adjust::lowered(a, y, x, threshold, height_log);
    let q = box_adjust::lowered(b, y, x, threshold, height_log);
    lemma_farther(a.center.y - mid, b.center.y - mid, line);
    lemma_drift(a.center.x - x.mode, line);
    let dx = box_adjust::drift(box_adjust::in_lines(a.center.x - x.mode, line));
    let ya = box_adjust::drift(box_adjust::in_lines(a.center.y - mid, line));
    let yb = box_adjust::drift(box_adjust::in_lines(b.center.y - mid, line));
    let h = box_adjust::stretch(box_adjust::in_lines(a.y_range.high - a.y_range.low, line), height_log);
    lemma_more(ya, yb);
    lemma_more(ya + dx + h, yb + dx + h);
    lemma_less_left(a, p.total_penalty, q.total_penalty);
}

/// A region whose center stands ten lines or more from the usual one, across or down
/// the image, loses more than eight tenths of its confidence.
pub proof fn regions_far_away_lose_most(
    b: types::BoxView,
    y: YStats,
    x: XStats,
    threshold: int,
    height_log: int,
)
    requires
        stands(b, y),
        height_log >= 0,
        distance(b.center.x as int, x.mode as int) >= 10 * y.median_height || distance(
            b.center.y as int,
            (y.mode.low + y.mode.high) / 2,
        ) >= 10 * y.median_height,
    ensures
        box_adjust::lowered(b, y, x, threshold, height_log).total_penalty > 800_000_000,
{
    penalties_follow_distances(b, y, x, threshold, height_log);
    let p = box_adjust::lowered(b, y, x, threshold, height_log).total_penalty;
    let line = y.median_height as int;
    let across = 400_000_000 * beyond(distance(b.center.x as int, x.mode as int), line);
    let down = 400_000_000 * beyond(
        distance(b.center.y as int, (y.mode.low + y.mode.high) / 2),
        line,
    );
    let height = 3 * height_log * line;
    let unit = 10_000_000_000 * line;
    let n = across + down + height;
    assert(height >= 0) by (nonlinear_arith)
        requires
            height == 3 * height_log * line,
            height_log >= 0,
            line > 0,
    ;
    assert(n >= 79_600_000_000 * line);
    assert(p > 800_000_000) by (nonlinear_arith)
        requires
            1_000_000_000 * n - p * (n + unit) <= 6 * (n + unit),
            n >= 79_600_000_000 * line,
            unit == 10_000_000_000 * line,
            line > 0,
    {
        if p <= 800_000_000 {
            assert(p * (n + unit) <= 800_000_000 * (n + unit));
        }
    }
}

/// The regions of a frame are lowered one by one, each by its own place and height.
pub proof fn regions_are_lowered_one_by_one(
    f: types::FrameView,
    y: YStats,
    x: XStats,
    threshold: int,
    logs: Seq<i64>,
    i: int,
)
    requires
        0 <= i < f.boxes.len(),
    ensures
        ({
            let r = box_adjust::frame_lowered(f, y, x, threshold, logs);
            &&& r.boxes.len() == f.boxes.len()
            &&& r.boxes[i] == box_adjust::lowered(f.boxes[i], y, x, threshold, logs[i] as int)
            &&& r.text == f.text
            &&& r.text_confidence == f.text_confidence
            &&& r.x_range == f.x_range
            &&& r.y_range == f.y_range
            &&& r.timestamp == f.timestamp
        }),
{
}

} // verus!
