//! What text recognition finds in one image, and the subtitle segments made of
//! it.
use vstd::prelude::*;

verus! {

/// An interval of coordinates, in billionths of a pixel.
#[derive(Clone, Copy, Debug, PartialEq, Eq, Structural)]
pub struct Span {
    pub low: i64,
    pub high: i64,
}

/// A point of an image, in billionths of a pixel.
#[derive(Clone, Copy, Debug, PartialEq, Eq, Structural)]
pub struct Point {
    pub x: i64,
    pub y: i64,
}

/// One recognised region.
#[derive(Debug)]
pub struct OcrBoxResult {
    pub text: String,
    /// How sure the recognition of the text is, in billionths.
    pub text_confidence: i64,
    /// How sure the detection of the region is, in billionths.
    pub box_confidence: i64,
    /// The four corners, clockwise.
    pub bbox: [Point; 4],
    pub x_range: Span,
    pub y_range: Span,
    pub center: Point,
}

#[verifier::ext_equal]
pub ghost struct BoxView {
    pub text: Seq<char>,
    pub text_confidence: int,
    pub box_confidence: int,
    pub bbox: Seq<Point>,
    pub x_range: Span,
    pub y_range: Span,
    pub center: Point,
}

impl View for OcrBoxResult {
    type V = BoxView;

    open spec fn view(&self) -> BoxView {
        BoxView {
            text: self.text@,
            text_confidence: self.text_confidence as int,
            box_confidence: self.box_confidence as int,
            bbox: self.bbox@,
            x_range: self.x_range,
            y_range: self.y_range,
            center: self.center,
        }
    }
}

/// Everything recognised in one image, with the moment the image belongs to.
#[derive(Debug)]
pub struct FrameResult {
    pub text: String,
    pub text_confidence: i64,
    pub boxes: Vec<OcrBoxResult>,
    pub x_range: Span,
    pub y_range: Span,
    /// In milliseconds; zero where no moment is known.
    pub timestamp: u64,
}

#[verifier::ext_equal]
pub ghost struct FrameView {
    pub text: Seq<char>,
    pub text_confidence: int,
    pub boxes: Seq<BoxView>,
    pub x_range: Span,
    pub y_range: Span,
    pub timestamp: int,
}

pub open spec fn box_views(boxes: Seq<OcrBoxResult>) -> Seq<BoxView> {
    boxes.map_values(|b: OcrBoxResult| b@)
}

impl View for FrameResult {
    type V = FrameView;

    open spec fn view(&self) -> FrameView {
        FrameView {
            text: self.text@,
            text_confidence: self.text_confidence as int,
            boxes: box_views(self.boxes@),
            x_range: self.x_range,
            y_range: self.y_range,
            timestamp: self.timestamp as int,
        }
    }
}

pub open spec fn frame_views(frames: Seq<FrameResult>) -> Seq<FrameView> {
    frames.map_values(|f: FrameResult| f@)
}

/// The text of a subtitle and the time for which it is shown, in milliseconds.
#[derive(Debug)]
pub struct SubtitlingSegment {
    pub text: String,
    pub start_ms: u64,
    pub end_ms: u64,
}

/// One of the frames that make a segment.
#[derive(Debug)]
pub struct SegmentFrame {
    pub text: String,
    pub timestamp: u64,
    pub text_confidence: i64,
}

#[verifier::ext_equal]
pub ghost struct NoteView {
    pub text: Seq<char>,
    pub timestamp: int,
    pub text_confidence: int,
}

impl View for SegmentFrame {
    type V = NoteView;

    open spec fn view(&self) -> NoteView {
        NoteView {
            text: self.text@,
            timestamp: self.timestamp as int,
            text_confidence: self.text_confidence as int,
        }
    }
}

pub open spec fn note_views(notes: Seq<SegmentFrame>) -> Seq<NoteView> {
    notes.map_values(|n: SegmentFrame| n@)
}

/// A subtitle with what is known of its place, its confidence and its frames.
#[derive(Debug)]
pub struct OcrSegment {
    pub base: SubtitlingSegment,
    pub y_range: Option<Span>,
    pub text_confidence: i64,
    pub frame_count: Option<u32>,
    pub frames: Option<Vec<SegmentFrame>>,
}

#[verifier::ext_equal]
pub ghost struct SegmentView {
    pub text: Seq<char>,
    pub start_ms: int,
    pub end_ms: int,
    pub y_range: Option<Span>,
    pub text_confidence: int,
    pub frame_count: Option<int>,
    pub frames: Option<Seq<NoteView>>,
}

impl View for OcrSegment {
    type V = SegmentView;

    open spec fn view(&self) -> SegmentView {
        SegmentView {
            text: self.base.text@,
            start_ms: self.base.start_ms as int,
            end_ms: self.base.end_ms as int,
            y_range: self.y_range,
            text_confidence: self.text_confidence as int,
            frame_count: match self.frame_count {
                Some(n) => Some(n as int),
                None => None,
            },
            frames: match self.frames {
                Some(f) => Some(note_views(f@)),
                None => None,
            },
        }
    }
}

pub open spec fn segment_views(segments: Seq<OcrSegment>) -> Seq<SegmentView> {
    segments.map_values(|s: OcrSegment| s@)
}

pub proof fn lemma_segment_views_push(s: Seq<OcrSegment>, x: OcrSegment)
    ensures
        segment_views(s.push(x)) == segment_views(s).push(x@),
{
    assert(segment_views(s.push(x)) =~= segment_views(s).push(x@));
}

impl SegmentView {
    /// The number of frames that a segment stands for: one where none is noted.
    pub open spec fn count(self) -> int {
        match self.frame_count {
            Some(n) => n,
            None => 1,
        }
    }

    /// The frames noted with a segment.
    pub open spec fn notes(self) -> Seq<NoteView> {
        match self.frames {
            Some(f) => f,
            None => Seq::empty(),
        }
    }
}

impl OcrBoxResult {
    /// A copy of the region.
    pub fn duplicate(&self) -> (r: OcrBoxResult)
        ensures
            r@ == self@,
    {
        OcrBoxResult {
            text: self.text.clone(),
            text_confidence: self.text_confidence,
            box_confidence: self.box_confidence,
            bbox: self.bbox,
            x_range: self.x_range,
            y_range: self.y_range,
            center: self.center,
        }
    }
}

/// Copies of some regions.
pub fn duplicate_boxes(boxes: &[OcrBoxResult]) -> (r: Vec<OcrBoxResult>)
    ensures
        box_views(r@) == box_views(boxes@),
{
    let mut out: Vec<OcrBoxResult> = Vec::new();
    let mut i: usize = 0;
    while i < boxes.len()
        invariant
            i <= boxes@.len(),
            out@.len() == i,
            forall|k: int| 0 <= k < i ==> (#[trigger] out@[k])@ == boxes@[k]@,
        decreases boxes@.len() - i,
    {
        out.push(boxes[i].duplicate());
        i = i + 1;
    }
    proof {
        assert(box_views(out@) =~= box_views(boxes@));
    }
    out
}

impl FrameResult {
    /// A copy of the frame.
    pub fn duplicate(&self) -> (r: FrameResult)
        ensures
            r@ == self@,
    {
        FrameResult {
            text: self.text.clone(),
            text_confidence: self.text_confidence,
            boxes: duplicate_boxes(self.boxes.as_slice()),
            x_range: self.x_range,
            y_range: self.y_range,
            timestamp: self.timestamp,
        }
    }
}

impl SegmentFrame {
    /// A copy of the note.
    pub fn duplicate(&self) -> (r: SegmentFrame)
        ensures
            r@ == self@,
    {
        SegmentFrame {
            text: self.text.clone(),
            timestamp: self.timestamp,
            text_confidence: self.text_confidence,
        }
    }
}

/// Appends copies of some notes.
pub(crate) fn append_notes(out: &mut Vec<SegmentFrame>, notes: &[SegmentFrame])
    ensures
        note_views(final(out)@) == note_views(old(out)@) + note_views(notes@),
{
    let ghost before = out@;
    let mut i: usize = 0;
    while i < notes.len()
        invariant
            i <= notes@.len(),
            note_views(out@) == note_views(before) + note_views(notes@.take(i as int)),
        decreases notes@.len() - i,
    {
        let ghost prev = out@;
        out.push(notes[i].duplicate());
        proof {
            assert(note_views(out@) =~= note_views(prev).push(notes@[i as int]@));
            assert(note_views(notes@.take(i + 1)) =~= note_views(notes@.take(i as int)).push(
                notes@[i as int]@,
            ));
            assert(note_views(before) + note_views(notes@.take(i as int)).push(notes@[i as int]@)
                =~= (note_views(before) + note_views(notes@.take(i as int))).push(
                notes@[i as int]@,
            ));
        }
        i = i + 1;
    }
    proof {
        assert(notes@.take(notes@.len() as int) =~= notes@);
        assert(note_views(before) + note_views(Seq::empty()) =~= note_views(before));
    }
}

impl OcrSegment {
    /// A copy of the segment.
    pub fn duplicate(&self) -> (r: OcrSegment)
        ensures
            r@ == self@,
    {
        let frames = match &self.frames {
            Some(f) => {
                let mut out: Vec<SegmentFrame> = Vec::new();
                append_notes(&mut out, f.as_slice());
                proof {
                    assert(note_views(Seq::<SegmentFrame>::empty()) + note_views(f@)
                        =~= note_views(f@));
                }
                Some(out)
            },
            None => None,
        };
        OcrSegment {
            base: SubtitlingSegment {
                text: self.base.text.clone(),
                start_ms: self.base.start_ms,
                end_ms: self.base.end_ms,
            },
            y_range: self.y_range,
            text_confidence: self.text_confidence,
            frame_count: self.frame_count,
            frames,
        }
    }

    /// The number of frames that the segment stands for.
    pub fn count(&self) -> (n: u32)
        ensures
            n == self@.count(),
    {
        match self.frame_count {
            Some(n) => n,
            None => 1,
        }
    }

    /// Copies of the notes of the segment.
    pub(crate) fn notes(&self) -> (r: Vec<SegmentFrame>)
        ensures
            note_views(r@) == self@.notes(),
    {
        let mut out: Vec<SegmentFrame> = Vec::new();
        match &self.frames {
            Some(f) => {
                append_notes(&mut out, f.as_slice());
                proof {
                    assert(note_views(Seq::<SegmentFrame>::empty()) + note_views(f@)
                        =~= note_views(f@));
                }
            },
            None => {
                proof {
                    assert(note_views(out@) =~= Seq::<NoteView>::empty());
                }
            },
        }
        out
    }
}

/// Copies of some segments.
pub fn duplicate_segments(segments: &[OcrSegment]) -> (r: Vec<OcrSegment>)
    ensures
        segment_views(r@) == segment_views(segments@),
{
    let mut out: Vec<OcrSegment> = Vec::new();
    let mut i: usize = 0;
    while i < segments.len()
        invariant
            i <= segments@.len(),
            out@.len() == i,
            forall|k: int| 0 <= k < i ==> (#[trigger] out@[k])@ == segments@[k]@,
        decreases segments@.len() - i,
    {
        out.push(segments[i].duplicate());
        i = i + 1;
    }
    proof {
        assert(segment_views(out@) =~= segment_views(segments@));
    }
    out
}

} // verus!
