//! Passes over the segments: joining texts that contain one another, removing
//! flickers between two showings of the same text, joining near duplicates and
//! the showings of one text with a short pause between them.
use super::fixed;
use super::segments;
use super::segments::{avg_confidence, base_merge_frames, merge_confidence, overlap, MergeFramesArgs};
use super::types;
use super::types::{
    append_notes, duplicate_segments, FrameResult, OcrSegment, SegmentFrame, SubtitlingSegment,
};
use crate::text::distance;
use crate::text::distance::levenshtein;
use crate::text::strings;
use crate::text::strings::{char_count, is_substring_of, join, normalize, same};
use vstd::prelude::*;

verus! {

/// The number of frames that some segments stand for together.
pub open spec fn total_count(s: Seq<types::SegmentView>) -> int
    decreases s.len(),
{
    if s.len() == 0 {
        0
    } else {
        total_count(s.drop_last()) + s.last().count()
    }
}

/// No segment stands for a negative number of frames.
pub open spec fn counted(s: Seq<types::SegmentView>) -> bool {
    forall|i: int| 0 <= i < s.len() ==> (#[trigger] s[i]).count() >= 0
}

pub proof fn lemma_count_push(s: Seq<types::SegmentView>, x: types::SegmentView)
    ensures
        total_count(s.push(x)) == total_count(s) + x.count(),
{
    assert(s.push(x).drop_last() =~= s);
}

pub proof fn lemma_count_concat(a: Seq<types::SegmentView>, b: Seq<types::SegmentView>)
    ensures
        total_count(a + b) == total_count(a) + total_count(b),
    decreases b.len(),
{
    if b.len() == 0 {
        assert(a + b =~= a);
    } else {
        assert((a + b).drop_last() =~= a + b.drop_last());
        lemma_count_concat(a, b.drop_last());
    }
}

pub proof fn lemma_count_not_negative(s: Seq<types::SegmentView>)
    requires
        counted(s),
    ensures
        total_count(s) >= 0,
    decreases s.len(),
{
    if s.len() > 0 {
        let t = s.drop_last();
        assert forall|i: int| 0 <= i < t.len() implies (#[trigger] t[i]).count() >= 0 by {
            assert(t[i] == s[i]);
        }
        lemma_count_not_negative(t);
        assert(s[s.len() - 1].count() >= 0);
    }
}

/// The counts of machine segments are not negative.
proof fn lemma_views_counted(s: Seq<OcrSegment>)
    ensures
        counted(types::segment_views(s)),
{
}

/// The counts of one or several neighbours are at most those of all segments.
proof fn lemma_count_part(s: Seq<types::SegmentView>, from: int, to: int)
    requires
        counted(s),
        0 <= from <= to <= s.len(),
    ensures
        total_count(s.subrange(from, to)) <= total_count(s),
        total_count(s) == total_count(s.take(from)) + total_count(s.subrange(from, to))
            + total_count(s.skip(to)),
{
    let a = s.take(from);
    let b = s.subrange(from, to);
    let c = s.skip(to);
    assert(a + b + c =~= s);
    lemma_count_concat(a + b, c);
    lemma_count_concat(a, b);
    assert forall|i: int| 0 <= i < a.len() implies (#[trigger] a[i]).count() >= 0 by {
        assert(a[i] == s[i]);
    }
    assert forall|i: int| 0 <= i < c.len() implies (#[trigger] c[i]).count() >= 0 by {
        assert(c[i] == s[i + to]);
    }
    lemma_count_not_negative(a);
    lemma_count_not_negative(c);
}

// ---------------------------------------------------------------------------
// Texts that contain one another
// ---------------------------------------------------------------------------
/// Whether the second of two neighbours is joined to the first because one text
/// contains the other, at the same height.
pub open spec fn overlaps_in_text(prev: types::SegmentView, cur: types::SegmentView) -> bool {
    segments::spans_meet(prev.y_range, cur.y_range) && strings::one_in_other(prev.text, cur.text)
}

/// Two neighbours as one: with the text that contains the other, and without
/// the notes on the frames.
pub open spec fn absorbed(prev: types::SegmentView, cur: types::SegmentView) -> types::SegmentView {
    let grown = strings::contains(cur.text, prev.text);
    types::SegmentView {
        text: if grown {
            cur.text
        } else {
            prev.text
        },
        start_ms: prev.start_ms,
        end_ms: cur.end_ms,
        y_range: if grown {
            cur.y_range
        } else {
            prev.y_range
        },
        text_confidence: segments::merged_confidence(
            Some(prev.text_confidence),
            Some(cur.text_confidence),
        ),
        frame_count: Some(prev.count() + cur.count()),
        frames: None,
    }
}

/// The segments with neighbours joined, from the first to the last, that contain
/// one another.
pub open spec fn substrings_joined(s: Seq<types::SegmentView>) -> Seq<types::SegmentView>
    decreases s.len(),
{
    if s.len() == 0 {
        s
    } else {
        let out = substrings_joined(s.drop_last());
        let cur = s.last();
        if out.len() > 0 && overlaps_in_text(out.last(), cur) {
            out.drop_last().push(absorbed(out.last(), cur))
        } else {
            out.push(cur)
        }
    }
}

/// The longer of two texts of which one contains the other is the containing
/// one.
proof fn lemma_container(a: Seq<char>, b: Seq<char>)
    requires
        strings::one_in_other(a, b),
    ensures
        strings::contains(b, a) <==> a.len() < b.len(),
{
    if strings::contains(b, a) {
        let k = choose|k: int| strings::stands_at(b, a, k);
        assert(strings::stands_at(b, a, k));
        if a.len() == b.len() {
            assert(b.subrange(k, k + a.len()) =~= b);
        }
    } else {
        let k = choose|k: int| strings::stands_at(a, b, k);
        assert(strings::stands_at(a, b, k));
    }
}

/// Joins two segments of which one text contains the other.
pub(crate) fn absorb(prev: OcrSegment, cur: &OcrSegment) -> (r: OcrSegment)
    requires
        strings::one_in_other(prev@.text, cur@.text),
        prev@.count() + cur@.count() <= u32::MAX,
    ensures
        r@ == absorbed(prev@, cur@),
{
    proof {
        lemma_container(prev@.text, cur@.text);
    }
    let grown = char_count(prev.base.text.as_str()) < char_count(cur.base.text.as_str());
    let n: u32 = prev.count() + cur.count();
    let text_confidence: i64 = merge_confidence(
        Some(prev.text_confidence),
        Some(cur.text_confidence),
    );
    OcrSegment {
        base: SubtitlingSegment {
            text: if grown {
                cur.base.text.clone()
            } else {
                prev.base.text
            },
            start_ms: prev.base.start_ms,
            end_ms: cur.base.end_ms,
        },
        y_range: if grown {
            cur.y_range
        } else {
            prev.y_range
        },
        text_confidence,
        frame_count: Some(n),
        frames: None,
    }
}

proof fn lemma_substrings_count(s: Seq<types::SegmentView>)
    ensures
        total_count(substrings_joined(s)) == total_count(s),
    decreases s.len(),
{
    if s.len() > 0 {
        lemma_substrings_count(s.drop_last());
        let out = substrings_joined(s.drop_last());
        let cur = s.last();
        if out.len() > 0 && overlaps_in_text(out.last(), cur) {
            lemma_count_push(out.drop_last(), absorbed(out.last(), cur));
        } else {
            lemma_count_push(out, cur);
        }
    }
}

/// Joins neighbours of which one text contains the other, at the same height.
pub fn merge_substring_segments(segments: &[OcrSegment]) -> (r: Vec<OcrSegment>)
    requires
        total_count(types::segment_views(segments@)) <= u32::MAX,
    ensures
        types::segment_views(r@) == substrings_joined(types::segment_views(segments@)),
{
    let mut out: Vec<OcrSegment> = Vec::new();
    let mut i: usize = 0;
    let ghost all = types::segment_views(segments@);
    proof {
        assert(all.take(0) =~= Seq::<types::SegmentView>::empty());
        assert(types::segment_views(out@) =~= all.take(0));
    }
    while i < segments.len()
        invariant
            i <= segments@.len(),
            all == types::segment_views(segments@),
            total_count(all) <= u32::MAX,
            types::segment_views(out@) == substrings_joined(all.take(i as int)),
        decreases segments@.len() - i,
    {
        let ghost before = out@;
        let cur = &segments[i];
        proof {
            assert(all.take(i + 1).drop_last() =~= all.take(i as int));
            assert(all.take(i + 1).last() == cur@);
            lemma_views_counted(segments@);
            lemma_views_counted(out@);
            lemma_substrings_count(all.take(i as int));
            lemma_count_push(all.take(i as int), cur@);
            assert(all.take(i as int).push(cur@) =~= all.take(i + 1));
            lemma_count_part(all, 0, i + 1);
            assert(all.subrange(0, i + 1) =~= all.take(i + 1));
        }
        match out.pop() {
            Some(prev) => {
                proof {
                    let views = types::segment_views(before);
                    assert(views.last() == prev@);
                    assert(types::segment_views(out@) =~= views.drop_last());
                    lemma_views_counted(out@);
                    lemma_count_not_negative(types::segment_views(out@));
                }
                if overlap(prev.y_range, cur.y_range) && is_substring_of(
                    prev.base.text.as_str(),
                    cur.base.text.as_str(),
                ) {
                    let one = absorb(prev, cur);
                    proof {
                        types::lemma_segment_views_push(out@, one);
                    }
                    out.push(one);
                } else {
                    let copy = cur.duplicate();
                    proof {
                        types::lemma_segment_views_push(out@, prev);
                        types::lemma_segment_views_push(out@.push(prev), copy);
                        assert(out@.push(prev) =~= before);
                    }
                    out.push(prev);
                    out.push(copy);
                }
            },
            None => {
                let copy = cur.duplicate();
                proof {
                    types::lemma_segment_views_push(out@, copy);
                }
                out.push(copy);
            },
        }
        i = i + 1;
    }
    proof {
        assert(all.take(segments@.len() as int) =~= all);
    }
    out
}

// ---------------------------------------------------------------------------
// Flickers
// ---------------------------------------------------------------------------
/// From this confidence on, in billionths, a segment is never taken for noise.
pub const HIGH_CONFIDENCE: i64 = 800_000_000;

/// Whether the first and the third of three neighbours show the same text, at
/// the height of the second. The surer the first one is, the less may differ.
pub open spec fn encloses(
    a: types::SegmentView,
    b: types::SegmentView,
    c: types::SegmentView,
) -> bool {
    let sure = fixed::clamped(a.text_confidence, 0, fixed::ONE as int);
    &&& distance::edits(a.text, c.text) * fixed::ONE <= (fixed::ONE - sure) * 2
    &&& segments::spans_meet(a.y_range, b.y_range)
    &&& segments::spans_meet(b.y_range, c.y_range)
}

/// Whether a text is close to another one, for a segment of the given
/// confidence.
pub open spec fn close_text(b: Seq<char>, x: Seq<char>, sure: int) -> bool {
    &&& distance::edits(b, x) * fixed::ONE <= (fixed::ONE - sure) * 3
    &&& fixed::magnitude(b.len() - x.len()) <= 2
}

/// Whether the second of three neighbours is a flicker: not too sure, and short
/// or close to one of the others.
pub open spec fn is_flicker(
    a: types::SegmentView,
    b: types::SegmentView,
    c: types::SegmentView,
) -> bool {
    let sure = fixed::clamped(b.text_confidence, 0, fixed::ONE as int);
    let shown = fixed::larger(b.end_ms - b.start_ms, 0);
    &&& sure < HIGH_CONFIDENCE
    &&& {
        ||| shown * fixed::ONE <= 500 * fixed::ONE + (fixed::ONE - sure) * 1000
        ||| close_text(b.text, a.text, sure)
        ||| close_text(b.text, c.text, sure)
    }
}

/// Three neighbours as one, with the text and the height of the first.
pub open spec fn three_as_one(
    a: types::SegmentView,
    b: types::SegmentView,
    c: types::SegmentView,
) -> types::SegmentView {
    types::SegmentView {
        text: a.text,
        start_ms: a.start_ms,
        end_ms: c.end_ms,
        y_range: a.y_range,
        text_confidence: fixed::mean(
            seq![a.text_confidence, b.text_confidence, c.text_confidence],
        ),
        frame_count: Some(a.count() + b.count() + c.count()),
        frames: Some(a.notes() + b.notes() + c.notes()),
    }
}

pub open spec fn is_noise_triplet(s: Seq<types::SegmentView>, i: int) -> bool {
    encloses(s[i], s[i + 1], s[i + 2]) && is_flicker(s[i], s[i + 1], s[i + 2])
}

pub open spec fn folded_at(s: Seq<types::SegmentView>, i: int) -> Seq<types::SegmentView> {
    s.take(i).push(three_as_one(s[i], s[i + 1], s[i + 2])) + s.skip(i + 3)
}

/// The segments without flickers, looked for from position `i` on. After three
/// segments became one, the same position is looked at again.
pub open spec fn flickers_removed(s: Seq<types::SegmentView>, i: int) -> Seq<types::SegmentView>
    decreases s.len() - i,
    when 0 <= i
{
    if i + 2 >= s.len() {
        s
    } else if is_noise_triplet(s, i) {
        flickers_removed(folded_at(s, i), i)
    } else {
        flickers_removed(s, i + 1)
    }
}

fn clamp_confidence(c: i64) -> (r: i64)
    ensures
        r == fixed::clamped(c as int, 0, fixed::ONE as int),
{
    if c < 0 {
        0
    } else if c > fixed::ONE {
        fixed::ONE
    } else {
        c
    }
}

/// Whether the distance of two texts is at most `room` billionths.
fn within(a: &str, b: &str, room: i64) -> (r: bool)
    ensures
        r == (distance::edits(a@, b@) * fixed::ONE <= room),
{
    let d: usize = levenshtein(a, b);
    (d as i128) * (fixed::ONE as i128) <= room as i128
}

fn is_close_text(b: &str, x: &str, sure: i64) -> (r: bool)
    requires
        0 <= sure <= fixed::ONE,
    ensures
        r == close_text(b@, x@, sure as int),
{
    let m: usize = char_count(b);
    let n: usize = char_count(x);
    let gap: usize = if m < n {
        n - m
    } else {
        m - n
    };
    within(b, x, (fixed::ONE - sure) * 3) && gap <= 2
}

fn find_noise(a: &OcrSegment, b: &OcrSegment, c: &OcrSegment) -> (r: bool)
    ensures
        r == (encloses(a@, b@, c@) && is_flicker(a@, b@, c@)),
{
    let a_sure: i64 = clamp_confidence(a.text_confidence);
    let twins = within(
        a.base.text.as_str(),
        c.base.text.as_str(),
        (fixed::ONE - a_sure) * 2,
    ) && overlap(a.y_range, b.y_range) && overlap(b.y_range, c.y_range);
    if !twins {
        return false;
    }
    let sure: i64 = clamp_confidence(b.text_confidence);
    if sure >= HIGH_CONFIDENCE {
        return false;
    }
    let shown: u64 = if b.base.end_ms > b.base.start_ms {
        b.base.end_ms - b.base.start_ms
    } else {
        0
    };
    let room: i128 = 500 * (fixed::ONE as i128) + ((fixed::ONE - sure) as i128) * 1000;
    let is_short = (shown as i128) * (fixed::ONE as i128) <= room;
    is_short || is_close_text(b.base.text.as_str(), a.base.text.as_str(), sure) || is_close_text(
        b.base.text.as_str(),
        c.base.text.as_str(),
        sure,
    )
}

fn make_one(a: &OcrSegment, b: &OcrSegment, c: &OcrSegment) -> (r: OcrSegment)
    requires
        a@.count() + b@.count() + c@.count() <= u32::MAX,
    ensures
        r@ == three_as_one(a@, b@, c@),
{
    let values: Vec<i64> = vec![a.text_confidence, b.text_confidence, c.text_confidence];
    proof {
        assert(fixed::ints(values@) =~= seq![
            a@.text_confidence,
            b@.text_confidence,
            c@.text_confidence,
        ]);
    }
    let n: u32 = a.count() + b.count() + c.count();
    let mut frames: Vec<SegmentFrame> = a.notes();
    let more = b.notes();
    let most = c.notes();
    append_notes(&mut frames, more.as_slice());
    append_notes(&mut frames, most.as_slice());
    OcrSegment {
        base: SubtitlingSegment {
            text: a.base.text.clone(),
            start_ms: a.base.start_ms,
            end_ms: c.base.end_ms,
        },
        y_range: a.y_range,
        text_confidence: avg_confidence(values.as_slice()),
        frame_count: Some(n),
        frames: Some(frames),
    }
}

proof fn lemma_folded_count(s: Seq<types::SegmentView>, i: int)
    requires
        counted(s),
        0 <= i,
        i + 2 < s.len(),
    ensures
        total_count(folded_at(s, i)) == total_count(s),
        counted(folded_at(s, i)),
        s[i].count() + s[i + 1].count() + s[i + 2].count() <= total_count(s),
{
    let b = s.subrange(i, i + 3);
    lemma_count_part(s, i, i + 3);
    reveal_with_fuel(total_count, 4);
    assert(b.drop_last().drop_last().drop_last() =~= Seq::<types::SegmentView>::empty());
    assert(b.last() == s[i + 2]);
    assert(b.drop_last().last() == s[i + 1]);
    assert(b.drop_last().drop_last().last() == s[i]);
    let one = three_as_one(s[i], s[i + 1], s[i + 2]);
    lemma_count_push(s.take(i), one);
    lemma_count_concat(s.take(i).push(one), s.skip(i + 3));
    let r = folded_at(s, i);
    assert forall|k: int| 0 <= k < r.len() implies (#[trigger] r[k]).count() >= 0 by {
        if k < i {
            assert(r[k] == s[k]);
        } else if k > i {
            assert(r[k] == s[k + 2]);
        }
    }
}

/// Removes flickers between two showings of the same text.
pub fn remove_triplet_noise(segments: &[OcrSegment]) -> (r: Vec<OcrSegment>)
    requires
        total_count(types::segment_views(segments@)) <= u32::MAX,
    ensures
        types::segment_views(r@) == flickers_removed(types::segment_views(segments@), 0),
{
    let mut out: Vec<OcrSegment> = duplicate_segments(segments);
    let ghost goal = flickers_removed(types::segment_views(segments@), 0);
    let mut i: usize = 0;
    while i < out.len() && out.len() - i > 2
        invariant
            i <= out@.len(),
            total_count(types::segment_views(out@)) <= u32::MAX,
            goal == flickers_removed(types::segment_views(out@), i as int),
        decreases out@.len() - i,
    {
        let ghost s = types::segment_views(out@);
        proof {
            lemma_views_counted(out@);
            lemma_folded_count(s, i as int);
            assert(s[i as int] == out@[i as int]@);
            assert(s[i + 1] == out@[i + 1]@);
            assert(s[i + 2] == out@[i + 2]@);
        }
        if find_noise(&out[i], &out[i + 1], &out[i + 2]) {
            let one = make_one(&out[i], &out[i + 1], &out[i + 2]);
            out.remove(i + 2);
            out.remove(i + 1);
            out.set(i, one);
            proof {
                assert(types::segment_views(out@) =~= folded_at(s, i as int));
            }
        } else {
            i = i + 1;
        }
    }
    out
}

// ---------------------------------------------------------------------------
// Near duplicates
// ---------------------------------------------------------------------------
/// The largest pause between two segments that touch.
pub const TOUCH_GAP_MS: u64 = 500;

/// Whether two segments overlap in time or nearly touch.
pub open spec fn near_in_time(prev: types::SegmentView, cur: types::SegmentView) -> bool {
    ||| prev.start_ms < cur.end_ms && cur.start_ms < prev.end_ms
    ||| fixed::larger(prev.start_ms, cur.start_ms) - fixed::smaller(prev.end_ms, cur.end_ms)
        <= TOUCH_GAP_MS
}

/// Whether two texts are short words of their own.
pub open spec fn own_words(a: Seq<char>, b: Seq<char>) -> bool {
    a.len() <= 2 && b.len() <= 2 && a != b && !strings::one_in_other(a, b)
}

/// Whether two neighbours show nearly the same text at nearly the same time.
pub open spec fn duplicates(
    prev: types::SegmentView,
    cur: types::SegmentView,
    reach: int,
) -> bool {
    &&& near_in_time(prev, cur)
    &&& distance::edits(prev.text, cur.text) <= reach
    &&& !own_words(prev.text, cur.text)
}

/// Two near duplicates as one, with the longer text.
pub open spec fn two_as_one(
    prev: types::SegmentView,
    cur: types::SegmentView,
) -> types::SegmentView {
    types::SegmentView {
        text: if prev.text.len() >= cur.text.len() {
            prev.text
        } else {
            cur.text
        },
        start_ms: fixed::smaller(prev.start_ms, cur.start_ms),
        end_ms: fixed::larger(prev.end_ms, cur.end_ms),
        y_range: prev.y_range,
        text_confidence: segments::merged_confidence(
            Some(prev.text_confidence),
            Some(cur.text_confidence),
        ),
        frame_count: Some(prev.count() + cur.count()),
        frames: Some(prev.notes() + cur.notes()),
    }
}

/// The segments with near duplicates joined, from the first to the last.
pub open spec fn deduplicated(
    s: Seq<types::SegmentView>,
    reach: int,
) -> Seq<types::SegmentView>
    decreases s.len(),
{
    if s.len() == 0 {
        s
    } else {
        let out = deduplicated(s.drop_last(), reach);
        let cur = s.last();
        if out.len() > 0 && duplicates(out.last(), cur, reach) {
            out.drop_last().push(two_as_one(out.last(), cur))
        } else {
            out.push(cur)
        }
    }
}

proof fn lemma_deduplicated_count(s: Seq<types::SegmentView>, reach: int)
    ensures
        total_count(deduplicated(s, reach)) == total_count(s),
    decreases s.len(),
{
    if s.len() > 0 {
        lemma_deduplicated_count(s.drop_last(), reach);
        let out = deduplicated(s.drop_last(), reach);
        let cur = s.last();
        if out.len() > 0 && duplicates(out.last(), cur, reach) {
            lemma_count_push(out.drop_last(), two_as_one(out.last(), cur));
        } else {
            lemma_count_push(out, cur);
        }
    }
}

fn min_u64(a: u64, b: u64) -> (r: u64)
    ensures
        r == fixed::smaller(a as int, b as int),
{
    if a < b {
        a
    } else {
        b
    }
}

fn max_u64(a: u64, b: u64) -> (r: u64)
    ensures
        r == fixed::larger(a as int, b as int),
{
    if a < b {
        b
    } else {
        a
    }
}

fn find_duplicates(prev: &OcrSegment, cur: &OcrSegment, reach: u32) -> (r: bool)
    ensures
        r == duplicates(prev@, cur@, reach as int),
{
    let late: u64 = max_u64(prev.base.start_ms, cur.base.start_ms);
    let early: u64 = min_u64(prev.base.end_ms, cur.base.end_ms);
    let overlaps = prev.base.start_ms < cur.base.end_ms && cur.base.start_ms < prev.base.end_ms;
    let touching = late <= early || late - early <= TOUCH_GAP_MS;
    if !(overlaps || touching) {
        return false;
    }
    let d: usize = levenshtein(prev.base.text.as_str(), cur.base.text.as_str());
    if d as u64 > reach as u64 {
        return false;
    }
    let both_short = char_count(prev.base.text.as_str()) <= 2 && char_count(cur.base.text.as_str())
        <= 2;
    let not_same_word = !same(prev.base.text.as_str(), cur.base.text.as_str()) && !is_substring_of(
        prev.base.text.as_str(),
        cur.base.text.as_str(),
    );
    !(both_short && not_same_word)
}

/// Joins two segments, with the longer text.
fn merge_two_segments(prev: OcrSegment, cur: &OcrSegment) -> (r: OcrSegment)
    requires
        prev@.count() + cur@.count() <= u32::MAX,
    ensures
        r@ == two_as_one(prev@, cur@),
{
    let keeps = char_count(prev.base.text.as_str()) >= char_count(cur.base.text.as_str());
    let n: u32 = prev.count() + cur.count();
    let mut frames: Vec<SegmentFrame> = prev.notes();
    let more = cur.notes();
    append_notes(&mut frames, more.as_slice());
    let text_confidence: i64 = merge_confidence(
        Some(prev.text_confidence),
        Some(cur.text_confidence),
    );
    OcrSegment {
        base: SubtitlingSegment {
            text: if keeps {
                prev.base.text
            } else {
                cur.base.text.clone()
            },
            start_ms: min_u64(prev.base.start_ms, cur.base.start_ms),
            end_ms: max_u64(prev.base.end_ms, cur.base.end_ms),
        },
        y_range: prev.y_range,
        text_confidence,
        frame_count: Some(n),
        frames: Some(frames),
    }
}

/// Joins neighbours that show nearly the same text at nearly the same time.
pub fn dedup_overlap(segments: &[OcrSegment], dedup_edit_distance: u32) -> (r: Vec<OcrSegment>)
    requires
        total_count(types::segment_views(segments@)) <= u32::MAX,
    ensures
        types::segment_views(r@) == deduplicated(
            types::segment_views(segments@),
            dedup_edit_distance as int,
        ),
{
    let mut out: Vec<OcrSegment> = Vec::new();
    let mut i: usize = 0;
    let ghost all = types::segment_views(segments@);
    let ghost reach = dedup_edit_distance as int;
    proof {
        assert(all.take(0) =~= Seq::<types::SegmentView>::empty());
        assert(types::segment_views(out@) =~= all.take(0));
    }
    while i < segments.len()
        invariant
            i <= segments@.len(),
            reach == dedup_edit_distance,
            all == types::segment_views(segments@),
            total_count(all) <= u32::MAX,
            types::segment_views(out@) == deduplicated(all.take(i as int), reach),
        decreases segments@.len() - i,
    {
        let ghost before = out@;
        let cur = &segments[i];
        proof {
            assert(all.take(i + 1).drop_last() =~= all.take(i as int));
            assert(all.take(i + 1).last() == cur@);
            lemma_views_counted(segments@);
            lemma_views_counted(out@);
            lemma_deduplicated_count(all.take(i as int), reach);
            lemma_count_push(all.take(i as int), cur@);
            assert(all.take(i as int).push(cur@) =~= all.take(i + 1));
            lemma_count_part(all, 0, i + 1);
            assert(all.subrange(0, i + 1) =~= all.take(i + 1));
        }
        match out.pop() {
            Some(prev) => {
                proof {
                    let views = types::segment_views(before);
                    assert(views.last() == prev@);
                    assert(types::segment_views(out@) =~= views.drop_last());
                    lemma_views_counted(out@);
                    lemma_count_not_negative(types::segment_views(out@));
                }
                if find_duplicates(&prev, cur, dedup_edit_distance) {
                    let one = merge_two_segments(prev, cur);
                    proof {
                        types::lemma_segment_views_push(out@, one);
                    }
                    out.push(one);
                } else {
                    let copy = cur.duplicate();
                    proof {
                        types::lemma_segment_views_push(out@, prev);
                        types::lemma_segment_views_push(out@.push(prev), copy);
                        assert(out@.push(prev) =~= before);
                    }
                    out.push(prev);
                    out.push(copy);
                }
            },
            None => {
                let copy = cur.duplicate();
                proof {
                    types::lemma_segment_views_push(out@, copy);
                }
                out.push(copy);
            },
        }
        i = i + 1;
    }
    proof {
        assert(all.take(segments@.len() as int) =~= all);
    }
    out
}

// ---------------------------------------------------------------------------
// The same text again
// ---------------------------------------------------------------------------
/// The largest pause between two showings of one text.
pub const MAX_GAP_MS: u64 = 2000;

/// Whether the second of two neighbours shows the text of the first again, after
/// it and with a short pause at most.
pub open spec fn shown_again(prev: types::SegmentView, cur: types::SegmentView) -> bool {
    &&& strings::normalized(prev.text) == strings::normalized(cur.text)
    &&& prev.end_ms <= cur.start_ms <= prev.end_ms + MAX_GAP_MS
}

/// Two showings of one text as one segment, without the notes on the frames.
pub open spec fn prolonged(prev: types::SegmentView, cur: types::SegmentView) -> types::SegmentView {
    types::SegmentView {
        end_ms: cur.end_ms,
        text_confidence: fixed::mean(seq![prev.text_confidence, cur.text_confidence]),
        frame_count: Some(prev.count() + cur.count()),
        frames: None,
        ..prev
    }
}

/// The segments with the showings of one text joined, from the last to the
/// first.
pub open spec fn repeats_joined(s: Seq<types::SegmentView>) -> Seq<types::SegmentView>
    decreases s.len(),
{
    if s.len() < 2 {
        s
    } else {
        let prev = s[s.len() - 2];
        let cur = s.last();
        let rest = s.drop_last();
        if shown_again(prev, cur) {
            repeats_joined(rest.drop_last().push(prolonged(prev, cur)))
        } else {
            repeats_joined(rest).push(cur)
        }
    }
}

fn is_shown_again(prev: &OcrSegment, cur: &OcrSegment) -> (r: bool)
    ensures
        r == shown_again(prev@, cur@),
{
    same(
        normalize(prev.base.text.as_str()).as_str(),
        normalize(cur.base.text.as_str()).as_str(),
    ) && prev.base.end_ms <= cur.base.start_ms && cur.base.start_ms - prev.base.end_ms
        <= MAX_GAP_MS
}

fn prolong(prev: OcrSegment, cur: &OcrSegment) -> (r: OcrSegment)
    requires
        prev@.count() + cur@.count() <= u32::MAX,
    ensures
        r@ == prolonged(prev@, cur@),
{
    let values: Vec<i64> = vec![prev.text_confidence, cur.text_confidence];
    proof {
        assert(fixed::ints(values@) =~= seq![prev@.text_confidence, cur@.text_confidence]);
    }
    let n: u32 = prev.count() + cur.count();
    OcrSegment {
        base: SubtitlingSegment {
            text: prev.base.text,
            start_ms: prev.base.start_ms,
            end_ms: cur.base.end_ms,
        },
        y_range: prev.y_range,
        text_confidence: avg_confidence(values.as_slice()),
        frame_count: Some(n),
        frames: None,
    }
}

/// Joins neighbours that show the same text with a short pause at most.
pub fn merge_adjacent_same_text(segments: &[OcrSegment]) -> (r: Vec<OcrSegment>)
    requires
        total_count(types::segment_views(segments@)) <= u32::MAX,
    ensures
        types::segment_views(r@) == repeats_joined(types::segment_views(segments@)),
{
    let mut open: Vec<OcrSegment> = duplicate_segments(segments);
    let mut tail: Vec<OcrSegment> = Vec::new();
    let ghost goal = repeats_joined(types::segment_views(segments@));
    proof {
        assert(types::segment_views(tail@).reverse() =~= Seq::<types::SegmentView>::empty());
        assert(goal + Seq::<types::SegmentView>::empty() =~= goal);
    }
    while open.len() >= 2
        invariant
            total_count(types::segment_views(open@)) <= u32::MAX,
            goal == repeats_joined(types::segment_views(open@)) + types::segment_views(
                tail@,
            ).reverse(),
        decreases open@.len(),
    {
        let ghost s = types::segment_views(open@);
        let ghost ended = types::segment_views(tail@);
        proof {
            lemma_views_counted(open@);
            reveal_with_fuel(total_count, 3);
            assert(s.last() == open@.last()@);
            assert(s.drop_last().last() == s[s.len() - 2]);
            assert forall|i: int| 0 <= i < s.drop_last().drop_last().len() implies (
            #[trigger] s.drop_last().drop_last()[i]).count() >= 0 by {
                assert(s.drop_last().drop_last()[i] == s[i]);
            }
            lemma_count_not_negative(s.drop_last().drop_last());
        }
        let cur = open.pop().unwrap();
        let prev = open.pop().unwrap();
        proof {
            assert(types::segment_views(open@) =~= s.drop_last().drop_last());
            assert(prev@ == s[s.len() - 2]);
            assert(cur@ == s.last());
        }
        if is_shown_again(&prev, &cur) {
            let one = prolong(prev, &cur);
            proof {
                types::lemma_segment_views_push(open@, one);
                lemma_count_push(s.drop_last().drop_last(), one@);
            }
            open.push(one);
        } else {
            proof {
                types::lemma_segment_views_push(open@, prev);
                assert(types::segment_views(open@).push(prev@) =~= s.drop_last());
                types::lemma_segment_views_push(tail@, cur);
                assert(ended.push(cur@).reverse() =~= seq![cur@] + ended.reverse());
                let head = repeats_joined(s.drop_last());
                assert(head.push(cur@) + ended.reverse() =~= head + (seq![cur@]
                    + ended.reverse()));
                assert(s.last().count() >= 0);
            }
            open.push(prev);
            tail.push(cur);
        }
    }
    while tail.len() > 0
        invariant
            goal == types::segment_views(open@) + types::segment_views(tail@).reverse(),
        decreases tail@.len(),
    {
        let ghost head = types::segment_views(open@);
        let ghost rest = types::segment_views(tail@);
        let next = tail.pop().unwrap();
        proof {
            assert(types::segment_views(tail@) =~= rest.drop_last());
            types::lemma_segment_views_push(open@, next);
            assert(rest.last() == next@);
            assert(head + rest.reverse() =~= head.push(next@) + rest.drop_last().reverse());
        }
        open.push(next);
    }
    proof {
        assert(types::segment_views(tail@).reverse() =~= Seq::<types::SegmentView>::empty());
        assert(types::segment_views(open@) + Seq::<types::SegmentView>::empty()
            =~= types::segment_views(open@));
    }
    open
}

// ---------------------------------------------------------------------------
// All passes
// ---------------------------------------------------------------------------
/// The segments of a video and their text.
#[derive(Debug)]
pub struct MergeFramesResult {
    pub text: String,
    pub segments: Vec<OcrSegment>,
}

/// The segments of some frames after all passes.
pub open spec fn merged(
    frames: Seq<types::FrameView>,
    args: MergeFramesArgs,
) -> Seq<types::SegmentView> {
    let base = segments::base_segments(frames);
    let contained = if args.joins_substrings() {
        substrings_joined(base)
    } else {
        base
    };
    repeats_joined(deduplicated(flickers_removed(contained, 0), args.reach()))
}

pub open spec fn texts(s: Seq<types::SegmentView>) -> Seq<Seq<char>> {
    s.map_values(|x: types::SegmentView| x.text)
}

/// The texts of some segments, with a space between them.
pub fn segments_text(segments: &[OcrSegment]) -> (r: String)
    ensures
        r@ == strings::joined(texts(types::segment_views(segments@)), seq![' ']),
{
    let mut parts: Vec<String> = Vec::new();
    let mut i: usize = 0;
    let ghost all = texts(types::segment_views(segments@));
    while i < segments.len()
        invariant
            i <= segments@.len(),
            all == texts(types::segment_views(segments@)),
            strings::views(parts@) == all.take(i as int),
        decreases segments@.len() - i,
    {
        let ghost before = parts@;
        let text: String = segments[i].base.text.clone();
        parts.push(text);
        proof {
            assert(all[i as int] == text@);
            assert(strings::views(parts@) =~= strings::views(before).push(text@));
            assert(all.take(i + 1) =~= all.take(i as int).push(text@));
        }
        i = i + 1;
    }
    proof {
        assert(all.take(segments@.len() as int) =~= all);
        reveal_strlit(" ");
        assert(" "@ =~= seq![' ']);
    }
    join(parts.as_slice(), " ")
}

proof fn lemma_flickers_count(s: Seq<types::SegmentView>, i: int)
    requires
        counted(s),
        0 <= i,
    ensures
        total_count(flickers_removed(s, i)) == total_count(s),
    decreases s.len() - i,
{
    if i + 2 < s.len() {
        if is_noise_triplet(s, i) {
            lemma_folded_count(s, i);
            lemma_flickers_count(folded_at(s, i), i);
        } else {
            lemma_flickers_count(s, i + 1);
        }
    }
}

proof fn lemma_repeats_count(s: Seq<types::SegmentView>)
    ensures
        total_count(repeats_joined(s)) == total_count(s),
    decreases s.len(),
{
    if s.len() >= 2 {
        let prev = s[s.len() - 2];
        let cur = s.last();
        let rest = s.drop_last();
        if shown_again(prev, cur) {
            assert(rest.last() == prev);
            assert(total_count(rest) == total_count(rest.drop_last()) + prev.count());
            lemma_count_push(rest.drop_last(), prolonged(prev, cur));
            lemma_repeats_count(rest.drop_last().push(prolonged(prev, cur)));
        } else {
            lemma_repeats_count(rest);
            lemma_count_push(repeats_joined(rest), cur);
        }
    }
}

/// The number of frames that show a text.
pub open spec fn frames_with_text(frames: Seq<types::FrameView>) -> nat
    decreases frames.len(),
{
    if frames.len() == 0 {
        0
    } else {
        frames_with_text(frames.drop_last()) + if frames.last().text.len() > 0 {
            1nat
        } else {
            0nat
        }
    }
}

proof fn lemma_joining_count(frames: Seq<types::FrameView>)
    ensures
        ({
            let s = segments::joining(frames);
            total_count(s.done) + match s.open {
                Some(o) => o.confidences.len() as int,
                None => 0,
            } == frames_with_text(frames)
        }),
        counted(segments::joining(frames).done),
        frames_with_text(frames) <= frames.len(),
    decreases frames.len(),
{
    if frames.len() > 0 {
        lemma_joining_count(frames.drop_last());
        let s = segments::joining(frames.drop_last());
        match s.open {
            Some(o) => {
                lemma_count_push(s.done, segments::closed_at(o, o.away));
                lemma_count_push(s.done, segments::closed_at(o, o.end));
            },
            None => {},
        }
    }
}

proof fn lemma_base_count(frames: Seq<types::FrameView>)
    ensures
        total_count(segments::base_segments(frames)) == frames_with_text(frames),
        counted(segments::base_segments(frames)),
        frames_with_text(frames) <= frames.len(),
{
    lemma_joining_count(frames);
    let s = segments::joining(frames);
    match s.open {
        Some(o) => {
            lemma_count_push(s.done, segments::closed_at(o, segments::last_moment(o)));
        },
        None => {},
    }
}

/// No pass loses or invents a frame: the segments stand for as many frames
/// before it as after it.
pub proof fn passes_keep_frame_counts(s: Seq<types::SegmentView>, reach: int)
    requires
        counted(s),
    ensures
        total_count(substrings_joined(s)) == total_count(s),
        total_count(flickers_removed(s, 0)) == total_count(s),
        total_count(deduplicated(s, reach)) == total_count(s),
        total_count(repeats_joined(s)) == total_count(s),
{
    lemma_substrings_count(s);
    lemma_flickers_count(s, 0);
    lemma_deduplicated_count(s, reach);
    lemma_repeats_count(s);
}

proof fn lemma_substrings_counted(s: Seq<types::SegmentView>)
    requires
        counted(s),
    ensures
        counted(substrings_joined(s)),
    decreases s.len(),
{
    if s.len() > 0 {
        let t = s.drop_last();
        assert forall|i: int| 0 <= i < t.len() implies (#[trigger] t[i]).count() >= 0 by {
            assert(t[i] == s[i]);
        }
        lemma_substrings_counted(t);
        let out = substrings_joined(t);
        let r = substrings_joined(s);
        assert(s[s.len() - 1].count() >= 0);
        assert forall|i: int| 0 <= i < r.len() implies (#[trigger] r[i]).count() >= 0 by {
            if i < out.len() {
                assert(out[i].count() >= 0);
            }
        }
    }
}

/// Every frame that shows a text belongs to one segment of the result.
pub proof fn every_shown_frame_is_counted(
    frames: Seq<types::FrameView>,
    args: MergeFramesArgs,
)
    ensures
        total_count(merged(frames, args)) == frames_with_text(frames),
{
    lemma_base_count(frames);
    let base = segments::base_segments(frames);
    lemma_substrings_count(base);
    lemma_substrings_counted(base);
    let contained = if args.joins_substrings() {
        substrings_joined(base)
    } else {
        base
    };
    lemma_flickers_count(contained, 0);
    let calm = flickers_removed(contained, 0);
    lemma_deduplicated_count(calm, args.reach());
    lemma_repeats_count(deduplicated(calm, args.reach()));
}

/// Joins frames into segments and runs all passes over them.
pub fn merge_frames(frames: &[FrameResult], args: &MergeFramesArgs) -> (r: MergeFramesResult)
    requires
        frames@.len() <= u32::MAX,
    ensures
        types::segment_views(r.segments@) == merged(types::frame_views(frames@), *args),
        r.text@ == strings::joined(texts(types::segment_views(r.segments@)), seq![' ']),
{
    let mut segments = base_merge_frames(frames, args);
    proof {
        lemma_base_count(types::frame_views(frames@));
        lemma_substrings_count(types::segment_views(segments@));
    }
    if args.is_merge_substring() {
        segments = merge_substring_segments(segments.as_slice());
    }
    proof {
        lemma_views_counted(segments@);
        lemma_flickers_count(types::segment_views(segments@), 0);
    }
    segments = remove_triplet_noise(segments.as_slice());
    proof {
        lemma_deduplicated_count(types::segment_views(segments@), args.reach());
    }
    segments = dedup_overlap(segments.as_slice(), args.dedup_edit_distance());
    segments = merge_adjacent_same_text(segments.as_slice());
    let text = segments_text(segments.as_slice());
    MergeFramesResult { text, segments }
}

} // verus!
