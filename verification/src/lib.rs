//! A parser for a JSON-like notation in which every member of an object and
//! every element of an array is followed by a comma.
//!
//! [`Parser::parse`] reads one value from a text and returns it as a tree of
//! [`Node`]s, or says why it could not. What it returns is fixed by the
//! grammar in [`grammar`], which is written as mathematics: a function from
//! the characters and a position to the value that stands there.
//!
//! - [`node`]: the tree, and the mathematical value a tree stands for.
//! - [`error`]: the failures.
//! - [`grammar`]: what each production finds at a position.
//! - [`parser`]: the cursor and the functions that read, each proved to find
//!   what the grammar finds.
//! - [`laws`]: what texts of given shapes parse to.
//! - [`outcomes`], [`embedding`], [`runs`]: what holds of the grammar at
//!   every position of every text.
//! - [`text`]: the one fact about `String` that is taken on trust.

pub mod embedding;
pub mod error;
pub mod grammar;
pub mod laws;
pub mod node;
pub mod outcomes;
pub mod parser;
pub mod runs;
pub mod text;

pub use error::{ErrorKind, Keyword, ParseError};
pub use node::{Node, ObjectMap};
pub use parser::Parser;
