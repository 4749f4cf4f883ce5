//! The decisions of the tools around the extraction: which test cards are drawn,
//! and how input devices are opened.
pub mod cards;
pub mod devices;
pub mod usage;
