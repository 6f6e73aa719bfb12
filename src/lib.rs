//! Counting word occurrences in a byte source split into chunks that are
//! scanned independently and merged into one tally.
pub mod frequency;
pub mod word_count;
pub mod word_stream;
