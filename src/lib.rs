//! Approximate string matching for spelling suggestions: scoring of
//! candidate words against a query, ranking, and threshold selection.

pub mod alignment;
pub mod args;
pub mod rank;
pub mod score;
pub mod search;
pub mod select;
pub mod subsequence;
pub mod text;
