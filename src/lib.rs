//! Compiler for a small whitespace-tokenized language that describes packed
//! binary layouts: fixed-width little-endian integer fields grouped in named
//! blocks, alignment padding, repeated regions, and references to the values
//! of earlier fields.
pub mod bytes;
pub mod laws;
pub mod lexer;
pub mod program;
pub mod symbols;
pub mod text;
pub mod token;

pub use lexer::LexError;
pub use program::{CompileError, Program, MAGIC};
pub use token::{Op, Token};
