//! Source-line counting with test-region attribution.
//!
//! The library counts the non-blank lines of a source file and, separately,
//! the lines that belong to a test region: a run of lines opened by a
//! `#[test]` or `#[cfg(test)]` marker and closed when the braces opened
//! inside the region are all matched again. A minimal lexer recognises the
//! tokens of the source text so that brace depth is tracked over lexically
//! valid brace tokens.

pub mod laws;
pub mod lexer;
pub mod text;
pub mod tracker;
