//! From recognised text boxes to timed subtitle lines.
pub mod backward;
pub mod bounds;
pub mod box_adjust;
pub mod box_filter;
pub mod box_penalty;
pub mod boxes;
pub mod chain;
pub mod continuity;
pub mod fixed;
pub mod image;
pub mod laws;
pub mod listing;
pub mod names;
pub mod neighbours;
pub mod odds;
pub mod offsets;
pub mod passes;
pub mod pipeline;
pub mod repeats;
pub mod segment_adjust;
pub mod segment_count;
pub mod segment_filter;
pub mod segments;
pub mod standing;
pub mod stats;
pub mod timeline;
pub mod types;
pub mod usual;
pub mod wholes;
