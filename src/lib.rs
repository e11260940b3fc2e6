//! Word-occurrence counting: a streaming tally of the words of text lines,
//! and the merge of partial per-word counts that a map/reduce job hands to
//! its reduction stage.

pub mod decimal;
pub mod reducer;
pub mod counter;
