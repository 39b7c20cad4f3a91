//! A lexical analyzer for SVG-like markup text.
//!
//! The crate turns raw markup into an ordered sequence of typed tokens:
//! tags, attribute names, quoted values, comments, processing instructions
//! and line breaks. Tokenization is all-or-nothing: on malformed input a
//! single [`lexer::TokenError`] is returned and no tokens are kept.
//!
//! The lexer is layered: [`cursor::Cursor`] offers arbitrary lookahead over
//! a character sequence with commit and rollback, and the state machine in
//! [`lexer`] drives it. [`structure`] holds a small document tree that can
//! be rendered back to markup text, and [`csv`] parses one record line of a
//! delimited batch file.

pub mod chars;
pub mod csv;
pub mod cursor;
pub mod laws;
pub mod lexer;
pub mod structure;
