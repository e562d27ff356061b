//! Lexical front end for a small expression/declaration language: a
//! hand-written finite-state scanner with one character of lookahead that
//! turns source text into a flat, ordered sequence of typed tokens with
//! byte-offset spans.
//!
//! The scan is total: unrecognized characters become `Invalid` tokens and a
//! numeric literal whose value is out of range for its carrier type becomes
//! `NumberError` — a deliberate strengthening over raising on overflow, so
//! that one bad character never loses the rest of the file.  The executable
//! scanner in [`lexer`] is proved to emit exactly the token sequence that
//! the recursive description in [`model`] defines, and [`laws`] proves that
//! the emitted spans always lie inside the source and tile it completely.

pub mod laws;
pub mod lexer;
pub mod model;
pub mod token;
