//! The frames of one run of text recognition, with where they come from.
use super::fixed;
use super::types::FrameResult;
use vstd::prelude::*;

verus! {

/// What text recognition runs on.
#[derive(Clone, Copy, Debug, PartialEq, Eq, Structural)]
pub enum OcrDevice {
    Cpu,
    Cuda,
    Directml,
    Coreml,
    Rocm,
    Mps,
}

/// Which engine produced the frames, and on what.
#[derive(Debug)]
pub struct OcrFramesMeta {
    pub engine: String,
    pub device: OcrDevice,
}

/// The frames of one run.
#[derive(Debug)]
pub struct OcrFramesResult {
    pub frames: Vec<FrameResult>,
    pub meta: OcrFramesMeta,
}

/// The height of the images, in billionths of a pixel: the given one, or that
/// noted with the frames.
pub open spec fn known_height(given: Option<u32>, noted: Option<u32>) -> Option<int> {
    match given {
        Some(h) => Some(h * fixed::ONE),
        None => match noted {
            Some(h) => Some(h * fixed::ONE),
            None => None,
        },
    }
}

/// Says that no height is known.
#[derive(Clone, Copy, Debug, PartialEq, Eq, Structural)]
pub struct HeightUnknown;

/// Finds the height of the images: the given one before the noted one. It is an
/// error if none is known.
pub fn resolve_video_height(given: Option<u32>, noted: Option<u32>) -> (r: Result<
    i64,
    HeightUnknown,
>)
    ensures
        match known_height(given, noted) {
            Some(h) => r is Ok && r->Ok_0 == h,
            None => r is Err,
        },
{
    match given {
        Some(h) => Ok((h as i64) * fixed::ONE),
        None => match noted {
            Some(h) => Ok((h as i64) * fixed::ONE),
            None => Err(HeightUnknown),
        },
    }
}

} // verus!
