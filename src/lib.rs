//! A hand-written scanner for a small C-like scripting language: it turns
//! source text into a stream of classified tokens, one per call.

pub mod chars;
pub mod token;
pub mod lexer;
pub mod render;
