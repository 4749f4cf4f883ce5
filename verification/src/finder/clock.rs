//! The time of a decoded frame. Frame rates are in billionths of a frame per
//! second.
use crate::ocr::fixed;
use vstd::prelude::*;

verus! {

/// The nearest integer to `n / d`, away from zero from one half on, for numbers
/// that are not negative.
pub open spec fn nearest(n: int, d: int) -> int {
    (2 * n + d) / (2 * d)
}

/// The moment of the frame after `count` others at a frame rate.
pub open spec fn counted_time(count: int, fps: int) -> int {
    if fps > 0 {
        nearest(count * 1000 * fixed::ONE, fps)
    } else {
        count * 1000 / 30
    }
}

/// The time of a frame, in milliseconds: the position that the decoder tells, or
/// what the number of frames before it and the frame rate tell where the decoder
/// tells none. Without a frame rate it is taken for 30 frames per second.
pub fn frame_time(pos_msec: i64, count: u32, fps: i64) -> (r: i64)
    ensures
        r == if pos_msec > 0 {
            pos_msec as int
        } else {
            fixed::smaller(counted_time(count as int, fps as int), i64::MAX as int)
        },
{
    if pos_msec > 0 {
        pos_msec
    } else if fps > 0 {
        let n: i128 = (count as i128) * 1_000_000_000_000;
        let d: i128 = fps as i128;
        proof {
            assert((2 * n + d) / (2 * d) >= 0) by (nonlinear_arith)
                requires
                    n >= 0,
                    d > 0,
            ;
        }
        let t: i128 = (2 * n + d) / (2 * d);
        if t < 9_223_372_036_854_775_807 {
            t as i64
        } else {
            9_223_372_036_854_775_807
        }
    } else {
        (count as i64) * 1000 / 30
    }
}

/// The length of a video, in milliseconds; zero where the frame rate is not
/// known.
pub fn total_duration(total_frames: u32, fps: i64) -> (r: i64)
    ensures
        r == if fps > 0 {
            fixed::smaller(counted_time(total_frames as int, fps as int), i64::MAX as int)
        } else {
            0
        },
{
    if fps > 0 {
        frame_time(0, total_frames, fps)
    } else {
        0
    }
}

} // verus!
