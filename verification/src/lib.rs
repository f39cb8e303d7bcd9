//! A string-matching engine that scores how well a query matches a candidate
//! byte string.
//!
//! A query is split into terms. Each term is matched either as a subsequence
//! of the candidate's code points or as a contiguous run of them, and a
//! candidate matches a pattern when every term matches it.

pub mod chars;
pub mod exact;
pub mod failure;
pub mod fuzzy;
pub mod matcher;
pub mod pattern;
pub mod scoring;
pub mod unicode;
pub mod walk;

pub use crate::exact::ExactMatcher;
pub use crate::fuzzy::FuzzyMatcher;
pub use crate::matcher::{MatchOptions, MatchResult, Matcher};
pub use crate::pattern::Pattern;
