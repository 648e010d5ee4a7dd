//! A tokenizer that turns HTML-like markup into a flat, ordered sequence of
//! lexical events, and proves what that sequence is.

pub mod event;
pub mod laws;
pub mod lexer;
pub mod model;
pub mod symbol;

pub use event::{Diagnostic, Event};
pub use lexer::Lexer;
pub use symbol::Symbol;
