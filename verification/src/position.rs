//! Where a token stands in the source.

use crate::span::Span;
use vstd::prelude::*;
use vstd::std_specs::convert::FromSpecImpl;

verus! {

/// A place in the source text: the line, counted from 1, and the column in
/// that line, in bytes and counted from 1.
#[derive(Clone, Copy, Debug, Eq, Hash, PartialEq, Structural)]
pub struct Position {
    pub line: u32,
    pub offset: usize,
}

impl Position {
    /// Whether the position names a line of a text: lines are counted from 1.
    pub open spec fn is_located(self) -> bool {
        self.line >= 1
    }

    /// The position in line `line`, at column `offset`.
    pub fn new(line: u32, offset: usize) -> (p: Position)
        ensures
            p.line == line,
            p.offset == offset,
    {
        Position { line, offset }
    }

    /// The position that stands for "not yet located": the first line, and no
    /// column in it.
    pub fn new_empty() -> (p: Position)
        ensures
            p.line == 1,
            p.offset == 0,
    {
        Position { line: 1, offset: 0 }
    }

    /// The line and the column at which `span` begins.
    pub fn from_span(span: Span) -> (p: Position)
        ensures
            p.line == span@.line(),
            p.offset == span@.column(),
            p == span@.position(),
            p.is_located(),
    {
        Position { line: span.location_line(), offset: span.get_column() }
    }
}

impl<'a> From<Span<'a>> for Position {
    fn from(s: Span<'a>) -> (p: Position) {
        Position::from_span(s)
    }
}

impl<'a> FromSpecImpl<Span<'a>> for Position {
    open spec fn obeys_from_spec() -> bool {
        true
    }

    open spec fn from_spec(s: Span<'a>) -> Position {
        s@.position()
    }
}

impl Default for Position {
    fn default() -> (p: Position)
        ensures
            p.line == 1,
            p.offset == 0,
    {
        Position::new_empty()
    }
}

} // verus!
