//! Operations on recognised text: white space, substrings, edit distance,
//! joining and decimal numbers.
pub mod decimal;
pub mod distance;
pub mod laws;
pub mod pieces;
pub mod strings;
