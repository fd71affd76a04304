//! An assembler and interpreter for a small register machine with 16-bit words.
//!
//! `text` splits source text into lines and tokens, `compiler` turns those into rows of
//! words, `interpreter` runs rows against a fixed-size memory, `instruction` holds the
//! encoding shared by both, and `listing` writes a program back out as source text.
pub mod instruction;
pub mod text;
pub mod compiler;
pub mod interpreter;
pub mod listing;
