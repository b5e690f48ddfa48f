//! Finds the dictionary words that a multiset of letters can spell.
pub mod count;
pub mod dict;
pub mod format;
pub mod search;
