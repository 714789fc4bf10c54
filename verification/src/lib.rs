//! A recursive-descent JSON parser, verified with Verus.
//!
//! The parser turns a UTF-8 text buffer into a tree of [`Value`]s, or reports
//! the first syntax error with its line and column.  Its behaviour is pinned
//! down by a specification-level parser over byte sequences (module
//! [`grammar`]): the executable code is proved to return exactly what the
//! specification parser returns.

pub mod value;
pub mod grammar;
pub mod diag;
pub mod parser;
pub mod laws;

pub use value::{Value, Number, Error, Position};
pub use parser::{Parser, parse};
