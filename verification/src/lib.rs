//! Lexical scanner for a small dynamically-typed scripting language.
//!
//! The scanner turns raw source text into an ordered stream of classified
//! tokens together with a list of diagnostics for malformed input.  The
//! behaviour of one scan pass is pinned down by the specification-level
//! scanner in [`model`], and the executable scanner in [`parser`] is proved
//! to produce exactly that token stream and diagnostic list.

pub mod model;
pub mod parser;
pub mod render;
pub mod scanner;
pub mod text;
pub mod token;
