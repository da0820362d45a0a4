//! Verified model and round-trip JSON codec for block-editor documents:
//! an envelope carrying a timestamp, a format version and an ordered list
//! of typed content blocks.

pub mod header;
pub mod json;
pub mod paragraph;
pub mod scheme;
