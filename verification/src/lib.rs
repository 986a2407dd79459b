//! A spell-checking engine: word segmentation of a text buffer, dictionary
//! lookup, edit-distance-ranked correction suggestions, and in-place
//! application of an accepted correction with the offset bookkeeping that
//! keeps the remaining misspellings in position.
pub mod pqueue;
pub mod session;
pub mod spellchecker;
pub mod text;
