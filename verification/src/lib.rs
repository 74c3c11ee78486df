//! Selection of audio files from a music library: a small query language over
//! file paths, a bounded scan of a directory listing, and ordering by time stamp.

pub mod error;
pub mod order;
pub mod path;
pub mod plan;
pub mod predicate;
pub mod query;
pub mod scan;
pub mod split;
pub mod text;
