//! Parameters of the subtitle search.

use super::single::Single;
use vstd::prelude::*;

verus! {

/// Parameters of the subtitle search.
///
/// Fractions of a frame's width or height, and density thresholds, are
/// single-precision fractions.
#[derive(Clone, Copy, Debug)]
pub struct Params {
    /// Frames that a subtitle has to last; also the length of the look-ahead.
    pub dl: usize,
    /// Height of a horizontal strip, in rows.
    pub segh: usize,
    /// Share of a line that has to be text.
    pub tp: Single,
    /// Minimal text length, as a fraction of the frame width.
    pub mtpl: Single,
    /// Largest relative difference of the edges of two frames with equal text.
    pub veple: Single,
    /// Largest relative difference of the text areas of two frames with equal text.
    pub ilaple: Single,
    /// How far the brightness of a pixel may fall within one subtitle.
    pub max_dl_down: usize,
    /// How far the brightness of a pixel may rise within one subtitle.
    pub max_dl_up: usize,
    /// Rows that can hold subtitles; all rows when absent.
    pub roi_y: Option<(usize, usize)>,
    /// Colour difference from which a segment of a row counts as contrasted.
    pub scd: i32,
    /// Width of a segment of a row, in pixels.
    pub segw: usize,
    /// Contrasted segments in succession that make a row a text row.
    pub msegc: usize,
    /// Minimal subtitle height, as a fraction of the frame height.
    pub min_h: Single,
    /// Threshold of the combined edges.
    pub mthr: Single,
    /// Threshold of the vertical and horizontal edges.
    pub mnthr: Single,
    /// Largest distance of neighbouring text segments, as a fraction of the width.
    pub btd: Single,
    /// Largest offset of the text from the centre, as a fraction of the width.
    pub to: Single,
    /// Minimal number of edge points in a strip.
    pub mpn: usize,
    /// Minimal density of text columns between the outermost segments.
    pub mpd: Single,
    /// Minimal density of edge points in the text columns.
    pub mpned: Single,
    /// Minimal symbol height, as a fraction of the frame height.
    pub msh: Single,
}

impl Params {
    /// The fractions are single-precision fractions, and strips, segments and
    /// the look-ahead are not empty and can be counted in 32 bits.
    pub open spec fn wf(self) -> bool {
        &&& self.tp.wf()
        &&& self.mtpl.wf()
        &&& self.veple.wf()
        &&& self.ilaple.wf()
        &&& self.min_h.wf()
        &&& self.mthr.wf()
        &&& self.mnthr.wf()
        &&& self.btd.wf()
        &&& self.to.wf()
        &&& self.mpd.wf()
        &&& self.mpned.wf()
        &&& self.msh.wf()
        &&& 2 <= self.dl <= 0x7fff_ffff
        &&& 1 <= self.segh <= 0x7fff_ffff
        &&& 1 <= self.segw <= 0x7fff_ffff
        &&& self.msegc <= 0x7fff_ffff
        &&& self.mpn <= 0x7fff_ffff
        &&& self.max_dl_down <= 0x7fff_0000
        &&& self.max_dl_up <= 0x7fff_0000
    }

    /// The parameters that the search uses unless told otherwise.
    pub open spec fn standard() -> Params {
        Params {
            dl: 6,
            segh: 3,
            tp: Single { mant: 10_066_330, shift: 25 },
            mtpl: Single { mant: 11_811_160, shift: 29 },
            veple: Single { mant: 10_066_330, shift: 25 },
            ilaple: Single { mant: 10_066_330, shift: 25 },
            max_dl_down: 20,
            max_dl_up: 40,
            roi_y: None,
            scd: 800,
            segw: 8,
            msegc: 2,
            min_h: Single { mant: 8_947_849, shift: 29 },
            mthr: Single { mant: 13_421_773, shift: 25 },
            mnthr: Single { mant: 10_066_330, shift: 25 },
            btd: Single { mant: 13_421_773, shift: 28 },
            to: Single { mant: 13_421_773, shift: 27 },
            mpn: 50,
            mpd: Single { mant: 10_066_330, shift: 25 },
            mpned: Single { mant: 10_066_330, shift: 25 },
            msh: Single { mant: 10_737_418, shift: 30 },
        }
    }
}

impl Default for Params {
    fn default() -> (p: Params)
        ensures
            p == Params::standard(),
            p.wf(),
    {
        Params {
            dl: 6,
            segh: 3,
            tp: Single { mant: 10_066_330, shift: 25 },
            mtpl: Single { mant: 11_811_160, shift: 29 },
            veple: Single { mant: 10_066_330, shift: 25 },
            ilaple: Single { mant: 10_066_330, shift: 25 },
            max_dl_down: 20,
            max_dl_up: 40,
            roi_y: None,
            scd: 800,
            segw: 8,
            msegc: 2,
            min_h: Single { mant: 8_947_849, shift: 29 },
            mthr: Single { mant: 13_421_773, shift: 25 },
            mnthr: Single { mant: 10_066_330, shift: 25 },
            btd: Single { mant: 13_421_773, shift: 28 },
            to: Single { mant: 13_421_773, shift: 27 },
            mpn: 50,
            mpd: Single { mant: 10_066_330, shift: 25 },
            mpned: Single { mant: 10_066_330, shift: 25 },
            msh: Single { mant: 10_737_418, shift: 30 },
        }
    }
}

} // verus!
