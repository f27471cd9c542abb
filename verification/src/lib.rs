//! Offset-preserving text normalization.
//!
//! A pipeline of character-level transformations (lowercasing, diacritic
//! removal, whitespace collapsing) that, alongside the normalized text,
//! maintains a mapping from every character-boundary byte offset of the
//! normalized text back to the corresponding byte offset of the original
//! input.

pub mod preprocessing;
pub mod unicode;
