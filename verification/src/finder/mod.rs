//! Subtitle search in decoded video frames.

pub mod agreement;
pub mod alike;
pub mod bands;
pub mod cache;
pub mod changes;
pub mod clock;
pub mod compare;
pub mod contrast;
pub mod edges;
pub mod evidence;
pub mod figure;
pub mod filter;
pub mod grid;
pub mod imgops;
pub mod laws;
pub mod layout;
pub mod levels;
pub mod lines;
pub mod output;
pub mod outputs;
pub mod overlap;
pub mod paragraphs;
pub mod params;
pub mod pixels;
pub mod plane;
pub mod precision;
pub mod preprocess;
pub mod run;
pub mod runs;
pub mod search;
pub mod settling;
pub mod shapes;
pub mod single;
pub mod stable;
pub mod state;
pub mod still;
pub mod stretches;
pub mod strip;
pub mod synthetic;
pub mod text_rows;
pub mod threshold;
pub mod transform;
