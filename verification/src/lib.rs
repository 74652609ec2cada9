//! Aligns the textual content of two versions of an HTML document so a
//! line-oriented diff can compare them position by position: text blocks
//! are extracted from each document, matched across the two by
//! normalized edit distance, and reconciled into two equal-length
//! parallel sequences.

pub mod distance;
pub mod extract;
pub mod marks;
pub mod matching;
pub mod pipeline;
pub mod reconcile;
pub mod renumber;
pub mod text;
