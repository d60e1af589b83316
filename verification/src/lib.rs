//! Builds a nested associative tree from a stream of lexical XML tokens.
//!
//! `parser` holds the builder and `parse`; `tree` the nodes it builds; `token`
//! the events it consumes and the tokenizer that yields them; `model` and
//! `document` say over mathematical values what is built; `laws` proves what
//! holds of it.

pub mod document;
pub mod laws;
pub mod model;
pub mod parser;
pub mod scan;
pub mod text;
pub mod token;
pub mod tree;

pub use crate::parser::{parse, parse_tokens, Error, TokenHanlder};
pub use crate::tree::{Mapping, RecursiveHashMap};
