//! A compiler and virtual machine for the AXIOM language: lexer, parser,
//! semantic analysis, lowering to a stack-machine IR, a reference
//! interpreter, and a serializable artifact format.
pub mod text;
pub mod lexer;

pub use lexer::{lex, LexError, Token, TokenKind};
pub mod ast;
pub mod parser;
pub mod semantic;
pub mod ir;
pub mod vm;
pub mod artifact;
pub mod runtime;
pub mod round_trip;
pub mod agreement;
pub mod element_store;
