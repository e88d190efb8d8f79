//! Compilation of hyphenation pattern text into a compact, queryable
//! dictionary: a score codec that turns raw pattern lines into alphabetic
//! keys with packed score vectors, a key builder that sorts and
//! deduplicates them, and an automaton store with a prefix query engine.

pub mod builder;
pub mod codec;
pub mod store;
