//! The logic of a language server for RSML style sheets.

pub mod autocomplete;
pub mod completion;
pub mod diagnostic;
pub mod guarded_unwrap;
pub mod json;
pub mod lexer;
pub mod luaurc;
pub mod parser;
pub mod reflection;
pub mod server;
pub mod strings;
pub mod text;
pub mod typechecker;
pub mod zed;
