//! Recursive character text splitting: cuts a text into bounded-size chunks
//! along a hierarchy of separator patterns, with a bounded overlap carried
//! from each chunk into the next, plus the path filtering used when a batch
//! of files is enumerated for splitting.

pub mod glob;
pub mod laws;
pub mod matching;
pub mod model;
pub mod splitter;
pub mod text;
