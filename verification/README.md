# ocr_lab

Finds the subtitles of a video, and turns what was read in its frames into a
timeline of subtitles. The logic is a library that is verified with Verus; the
program around it decodes videos, runs the text recognition and reads and writes
files.

## The library

`src/text` holds texts as sequences of characters: white space, containment, edit
distance and decimal numbers.

`src/finder` searches a video for its subtitles:

- `transform` goes from the pixels of a frame to its text areas, with edge
  operators that the caller gives, through `text_rows`, `edges`, `threshold`,
  `strip`, `filter`, `figure`, `lines` and `bands`;
- `compare` tells whether two frames show the same text, and `alike` states what
  holds of every such comparison;
- `cache`, `search`, `state` and `run` follow the subtitles from frame to frame;
- `laws`, `overlap` and `stable` state what holds of every search: what is recorded
  and when, that times do not overlap, and that cleaned areas stay as they are;
- `output` names and lists what was found;
- `single` computes with single-precision fractions exactly, in integers;
- `plane` holds pictures in `ndarray` arrays;
- `synthetic` draws frames for measurements, and `clock` tells the time of a frame.

`src/ocr` works on what was read in the frames:

- `image`, `boxes` and `names` order the regions of an image and the images of a
  directory;
- `stats`, `box_adjust`, `box_penalty` and `box_filter` find regions that stand
  where no subtitle stands;
- `segments`, `passes`, `backward` and `timeline` merge frames into segments;
- `segment_adjust`, `segment_filter` and `segment_count` find segments that are
  not trustworthy;
- `fixed` and `types` hold the numbers and the types of all of them, and `bounds`,
  `laws` and `repeats` state what holds of the merged segments;
- `chain` states that each step can take what the step before it gives.

`src/tools` holds the test cards and the input devices.

Confidences, coordinates and ratios are integers that count billionths. Each
module states in its contracts what its functions return; the files called
`laws.rs`, and public proof functions elsewhere, state what holds of several
functions together.

## The program

`app` is ordinary Rust. It needs OpenCV and FFmpeg for videos, libinput for input
devices, and the sibling crates `geometry` (edge operators), `rapidocr_ort` (text
recognition), `capturer` and `gpui` (test cards).
