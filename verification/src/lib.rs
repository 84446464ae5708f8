//! A library of exact single-pattern string-matching algorithms.
//!
//! All algorithms operate on raw byte sequences and report the start
//! indices of every occurrence of a pattern inside a text.  Four matchers
//! are provided:
//!
//! - a naive scanner,
//! - Horspool's bad-character algorithm,
//! - the Shift-And bit-parallel automaton,
//! - BNDM (Backward Nondeterministic DAWG Matching).
//!
//! Every matcher carries a contract stating that it returns exactly the
//! strictly ascending sequence of occurrence start indices; the shared
//! specification lives in [`single_pattern::occurrences`].

pub mod single_pattern;
