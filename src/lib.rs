//! Concatenation of YAML files into one multi-document stream.
//!
//! The library works on file contents held as characters. It decides, for
//! each file, whether the file carries any document and whether its first
//! non-blank line is already a `---` separator, and it produces the bytes of
//! the combined stream: every file that carries a document is copied through
//! unchanged, preceded by a synthesized `---` line unless it already starts
//! with one.

pub mod text;
pub mod concat;
pub mod documents;
