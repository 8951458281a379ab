//! Tokenizer for jQuery-style templates: plain text interleaved with `{{ ... }}`
//! directives, turned into an ordered list of classified, byte-spanned statements.

pub mod adapter;
pub mod grammar;
pub mod laws;
pub mod parser;
pub mod recognizer;
pub mod scanner;
pub mod stmt;

pub use parser::{parse, parser, TemplateParser};
pub use recognizer::recognize;
pub use stmt::{Spanned, Stmt};
