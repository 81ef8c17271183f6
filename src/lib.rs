//! Streaming extraction of indexable text from a nested markup document.
//!
//! A flat sequence of open / close / text events is walked once; counter
//! stacks recover which text belongs to which identified element and which
//! heading and glossary term enclose it, and each closed identifier becomes
//! one document of a full-text index.
pub mod scope;
pub mod builders;
pub mod strmap;
pub mod markup;
pub mod extract;
pub mod fileindex;
