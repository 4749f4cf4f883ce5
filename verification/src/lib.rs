//! Subtitle extraction: finding the frames of a video that carry a new
//! subtitle, and turning recognised text boxes into timed subtitle lines.

pub mod finder;
pub mod ocr;
pub mod text;
pub mod tools;

