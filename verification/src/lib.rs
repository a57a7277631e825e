//! Counts how many words of a list are subsequences of a text.
//!
//! A word is a subsequence of a text when its characters occur in the text
//! in order, though not necessarily consecutively. Three independent
//! matchers decide the question for one word — a recursive forward scan, a
//! two-pointer linear pass, and a character-position index table — and one
//! counting operation applies any of them across a word list. All three
//! matchers are proved to return the same boolean, `matches_spec`, on every
//! text and word.

pub mod counting;
pub mod index_table;
pub mod recursive_scan;
pub mod subsequence;
pub mod two_pointer;
