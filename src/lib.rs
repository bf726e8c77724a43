//! Extraction of comments from source code, line by line, with
//! lightweight per-language lexical rules.
//!
//! A [`Tokenizer`] is fed the lines of a text one at a time, finds comments
//! with a [`spec::Spec`] of the language family, and hands out finished
//! [`Comment`] records; [`Comment::trim`] puts a record's text into
//! canonical form.
pub mod canon;
pub mod output;
pub mod spec;
pub mod tokenizer;

pub use tokenizer::{Comment, Tokenizer};
