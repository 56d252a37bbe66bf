//! A parser for declarations of arrays such as `var x, y: array [1..10, 0..5] of integer;`.
//!
//! The lexer turns bytes into tokens, the recursive-descent parser builds a
//! parse tree, and a tree can be written out as a graph in the DOT language.
use vstd::prelude::*;

pub mod grammar;
pub mod language;
pub mod lexer;
pub mod node;
pub mod parse_error;
pub mod parser;
pub mod text;
pub mod token;

pub use lexer::Lexer;
pub use node::Node;
pub use parse_error::{ParseError, ParseErrorKind};
pub use parser::{Parser, parse_string};
pub use token::Token;
