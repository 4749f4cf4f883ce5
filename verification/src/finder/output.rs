//! What is written for the subtitles found in a video.
use crate::ocr::names;
use crate::text::decimal;
use crate::text::decimal::to_digits;
use crate::text::strings;
use crate::text::strings::push_text;
use vstd::prelude::*;

verus! {

/// Which files are written.
#[derive(Clone, Copy, Debug, PartialEq, Eq, Structural)]
pub enum OutputMode {
    /// Everything: the frames, the masks, the timeline and the list.
    Full,
    /// The timeline only.
    Timeline,
    /// The frames only.
    Frames,
}

impl OutputMode {
    /// Whether the frames are written.
    pub fn write_frames(self) -> (r: bool)
        ensures
            r == (self is Full || self is Frames),
    {
        match self {
            OutputMode::Full => true,
            OutputMode::Frames => true,
            OutputMode::Timeline => false,
        }
    }

    /// Whether the masks are written.
    pub fn write_mask(self) -> (r: bool)
        ensures
            r == (self is Full),
    {
        match self {
            OutputMode::Full => true,
            OutputMode::Frames => false,
            OutputMode::Timeline => false,
        }
    }

    /// Whether the list is written.
    pub fn write_json(self) -> (r: bool)
        ensures
            r == (self is Full),
    {
        match self {
            OutputMode::Full => true,
            OutputMode::Frames => false,
            OutputMode::Timeline => false,
        }
    }

    /// Whether the timeline is written.
    pub fn write_timeline(self) -> (r: bool)
        ensures
            r == (self is Full || self is Timeline),
    {
        match self {
            OutputMode::Full => true,
            OutputMode::Timeline => true,
            OutputMode::Frames => false,
        }
    }
}

/// The time of a subtitle, in milliseconds.
#[derive(Clone, Copy, Debug, PartialEq, Eq, Structural)]
pub struct Interval {
    pub start_ms: u64,
    pub end_ms: u64,
}

/// What was written, and where.
#[derive(Debug)]
pub struct WriteReport {
    pub frames_dir: String,
    pub mask_dir: String,
    pub frames_written: usize,
    pub masks_written: usize,
    pub timeline: String,
    pub json: String,
    pub out_dir: String,
}

/// The name of the files of a subtitle, without their extension.
pub open spec fn name_of(t: Interval) -> Seq<char> {
    decimal::digits(t.start_ms as nat).push('_') + decimal::digits(t.end_ms as nat)
}

/// The name of the files of a subtitle, without their extension.
pub fn file_name(t: Interval) -> (r: String)
    ensures
        r@ == name_of(t),
{
    let mut out = to_digits(t.start_ms);
    out.push('_');
    push_text(&mut out, to_digits(t.end_ms).as_str());
    out
}

/// The line of a subtitle in the timeline.
pub open spec fn timeline_line(t: Interval) -> Seq<char> {
    (decimal::digits(t.start_ms as nat).push(',') + decimal::digits(t.end_ms as nat)).push('\n')
}

/// The timeline of some subtitles.
pub open spec fn timeline_of(s: Seq<Interval>) -> Seq<char>
    decreases s.len(),
{
    if s.len() == 0 {
        Seq::empty()
    } else {
        timeline_of(s.drop_last()) + timeline_line(s.last())
    }
}

/// The entry of a subtitle in the list.
pub open spec fn json_item(t: Interval) -> Seq<char> {
    "{\"start_ms\":"@ + decimal::digits(t.start_ms as nat) + ",\"end_ms\":"@ + decimal::digits(
        t.end_ms as nat,
    ) + ",\"image\":\""@ + name_of(t) + ".png\",\"mask\":\""@ + name_of(t) + ".png\"}"@
}

pub open spec fn json_items(s: Seq<Interval>) -> Seq<Seq<char>> {
    s.map_values(|t: Interval| json_item(t))
}

/// The list of some subtitles.
pub open spec fn json_of(s: Seq<Interval>) -> Seq<char> {
    "["@ + strings::joined(json_items(s), seq![',']) + "]\n"@
}

fn item(t: Interval) -> (r: String)
    ensures
        r@ == json_item(t),
{
    let mut out = String::new();
    let name = file_name(t);
    push_text(&mut out, "{\"start_ms\":");
    push_text(&mut out, to_digits(t.start_ms).as_str());
    push_text(&mut out, ",\"end_ms\":");
    push_text(&mut out, to_digits(t.end_ms).as_str());
    push_text(&mut out, ",\"image\":\"");
    push_text(&mut out, name.as_str());
    push_text(&mut out, ".png\",\"mask\":\"");
    push_text(&mut out, name.as_str());
    push_text(&mut out, ".png\"}");
    proof {
        assert(Seq::<char>::empty() + "{\"start_ms\":"@ =~= "{\"start_ms\":"@);
    }
    out
}

/// Writes the timeline of some subtitles: one line with start and end for each.
pub fn timeline_text(s: &[Interval]) -> (r: String)
    ensures
        r@ == timeline_of(s@),
{
    let mut out = String::new();
    let mut i: usize = 0;
    proof {
        assert(s@.take(0) =~= Seq::<Interval>::empty());
    }
    while i < s.len()
        invariant
            i <= s@.len(),
            out@ == timeline_of(s@.take(i as int)),
        decreases s@.len() - i,
    {
        proof {
            assert(s@.take(i + 1).drop_last() =~= s@.take(i as int));
            assert(s@.take(i + 1).last() == s@[i as int]);
        }
        let mut line = to_digits(s[i].start_ms);
        line.push(',');
        push_text(&mut line, to_digits(s[i].end_ms).as_str());
        line.push('\n');
        push_text(&mut out, line.as_str());
        i = i + 1;
    }
    proof {
        assert(s@.take(s@.len() as int) =~= s@);
    }
    out
}

/// Writes the list of some subtitles: times, image and mask of each.
pub fn json_text(s: &[Interval]) -> (r: String)
    ensures
        r@ == json_of(s@),
{
    let mut items: Vec<String> = Vec::new();
    let mut i: usize = 0;
    while i < s.len()
        invariant
            i <= s@.len(),
            items@.len() == i,
            forall|k: int| 0 <= k < i ==> (#[trigger] items@[k])@ == json_item(s@[k]),
        decreases s@.len() - i,
    {
        items.push(item(s[i]));
        i = i + 1;
    }
    let mut sep = String::new();
    sep.push(',');
    proof {
        assert(sep@ =~= seq![',']);
        assert(strings::views(items@) =~= json_items(s@));
    }
    let body = strings::join(items.as_slice(), sep.as_str());
    let mut out = String::new();
    push_text(&mut out, "[");
    push_text(&mut out, body.as_str());
    push_text(&mut out, "]\n");
    proof {
        assert(Seq::<char>::empty() + "["@ =~= "["@);
    }
    out
}

/// What is written for some subtitles in the given mode.
pub fn report(
    s: &[Interval],
    mode: OutputMode,
    out_dir: String,
    frames_dir: String,
    mask_dir: String,
) -> (r: WriteReport)
    ensures
        r.out_dir == out_dir,
        r.frames_dir == frames_dir,
        r.mask_dir == mask_dir,
        r.frames_written == if mode is Timeline {
            0
        } else {
            s@.len()
        },
        r.masks_written == if mode is Full {
            s@.len()
        } else {
            0
        },
        r.timeline@ == if mode is Frames {
            Seq::<char>::empty()
        } else {
            timeline_of(s@)
        },
        r.json@ == if mode is Full {
            json_of(s@)
        } else {
            Seq::<char>::empty()
        },
{
    let frames_written: usize = if mode.write_frames() {
        s.len()
    } else {
        0
    };
    let masks_written: usize = if mode.write_mask() {
        s.len()
    } else {
        0
    };
    let timeline = if mode.write_timeline() {
        timeline_text(s)
    } else {
        String::new()
    };
    let json = if mode.write_json() {
        json_text(s)
    } else {
        String::new()
    };
    WriteReport { frames_dir, mask_dir, frames_written, masks_written, timeline, json, out_dir }
}

/// The name of a frame tells the time of its subtitle to the text recognition
/// that reads it later.
pub proof fn names_tell_times(t: Interval)
    ensures
        names::name_times(name_of(t)) == Some(names::FrameTimes::Range(t.start_ms, t.end_ms)),
{
    names::range_names_read_back(t.start_ms, t.end_ms);
}

/// Subtitles of different times have files of different names.
pub proof fn names_tell_subtitles_apart(a: Interval, b: Interval)
    requires
        name_of(a) == name_of(b),
    ensures
        a == b,
{
    names_tell_times(a);
    names_tell_times(b);
}

} // verus!
