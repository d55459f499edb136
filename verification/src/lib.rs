//! A small query language over JSON-like values.
//!
//! A query such as `.a.b[0] | {"x": .x} + {"y": .y} | length` is a pipeline
//! of stages. Each stage is a template (a JSON literal in which paths may
//! stand), a chain of templates joined by the operators `+ - * / %`, or the
//! word `length`. [`parser::Parser::parse`] evaluates a query on a value;
//! [`parser::evaluate`] says what it gives.
//!
//! Arithmetic on numbers is that of doubles. It is not computed in this
//! crate: the functions that need it take the caller's floating-point unit
//! (see [`number`]), and their contracts hold of whatever function it is.

pub mod args;
pub mod codec;
pub mod error;
pub mod filter;
pub mod json;
pub mod laws;
pub mod number;
pub mod operator;
pub mod parser;
pub mod template;
pub mod text;
pub mod toml;
pub mod validity;
pub mod value;
pub mod yaml;
