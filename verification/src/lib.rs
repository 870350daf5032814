//! Lexical front end of a small expression language.
//!
//! A [`Span`] is a cursor into source text. A recognizer takes a cursor and
//! either returns the cursor behind what it matched together with the match,
//! or reports with [`NoMatch`] that its rule does not match there. What a
//! recognizer returns depends on the cursor alone, and a recognizer that
//! fails has consumed nothing: the caller still holds the cursor and may try
//! another rule at the same place.

pub mod boundary;
pub mod bytes;
pub mod keywords;
pub mod outcome;
pub mod parser;
pub mod position;
pub mod span;
pub mod text;

pub use crate::boundary::{eof, token_terminated};
pub use crate::outcome::{NoMatch, Rule};
pub use crate::parser::{expression, identifier, number_expr, variable_expr, Expression};
pub use crate::position::Position;
pub use crate::span::Span;
