//! A small word-frequency library: it extracts word tokens from text,
//! folds and filters them, tallies how often each word occurs, and ranks
//! the words by descending count.
pub mod chars;
pub mod count;
pub mod rank;
pub mod render;
pub mod stopwords;
pub mod table;
pub mod tokens;
