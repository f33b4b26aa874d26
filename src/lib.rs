//! A parser for a BBCode-like markup: plain text interspersed with
//! `[name]`, `[name=value]` or `[name="quoted value"]` tags, each closed by a
//! matching `[/name]`. The result is a tree of [`Element`]s.
//!
//! The grammar is stated as spec functions over the input's characters in
//! [`grammar`], and [`parser::parse`] is proved to compute exactly what they
//! describe.

pub mod grammar;
pub mod tree;
pub mod parser;
pub mod laws;

pub use parser::parse;
pub use tree::{Block, Element, ErrorKind, Node, ParseError};
