//! A spelling corrector built on a frequency-annotated prefix tree.
//!
//! The dictionary stores lowercase words of the letters `a` through `z`
//! together with how often each was inserted.  A suggestion engine looks a
//! possibly misspelled word up directly, then among all strings one edit away,
//! then among all strings two edits away, and returns the best-ranked match.

pub mod corrector;
pub mod letters;
pub mod trie;
