//! A small JSON-like reader: a scanner that turns text into tokens and a
//! recursive-descent parser that turns tokens into a value tree.
//!
//! Every executable function carries a contract stated over mathematical
//! models: a text is a `Seq<char>`, a token stream a `Seq<Lexeme>`, a parsed
//! tree a `Value`.
pub mod chars;
pub mod lexer;
pub mod lexer_lemmas;
pub mod failure;
pub mod grammar;
pub mod parser;
pub mod render;
pub mod pretty;
