//! What a recognizer returns: the cursor to go on from and what was matched,
//! or the one way in which recognition fails.

use crate::span::{Span, SpanView};
use vstd::prelude::*;

verus! {

/// The rules of the grammar.
#[derive(Clone, Copy, Debug, PartialEq, Eq, Structural)]
pub enum Rule {
    /// Nothing is left of the input.
    EndOfInput,
    /// A token may end here.
    Boundary,
    /// A reserved word, and a boundary behind it.
    Keyword,
    /// A run of letters and digits that is no reserved word.
    Identifier,
    /// A numeric literal, and a boundary behind it.
    Number,
    /// An identifier, and a boundary behind it.
    Variable,
}

/// No match at this position. It names the rule that was being tried and
/// says nothing else: the caller still holds the cursor, and tries another
/// rule there or reports the place.
#[derive(Clone, Copy, Debug, PartialEq, Eq, Structural)]
pub struct NoMatch {
    pub rule: Rule,
}

/// The outcome of a recognizer that yields a span, seen through views.
pub open spec fn views<'a>(r: Result<(Span<'a>, Span<'a>), NoMatch>) -> Result<
    (SpanView, SpanView),
    NoMatch,
> {
    match r {
        Ok((rest, matched)) => Ok((rest@, matched@)),
        Err(e) => Err(e),
    }
}

/// The outcome of a rule that matches the first `len` bytes at `i` and
/// consumes them, or, where `len` is `None`, does not match there.
pub open spec fn consumed(i: SpanView, len: Option<nat>, rule: Rule) -> Result<
    (SpanView, SpanView),
    NoMatch,
> {
    match len {
        Some(n) => Ok((i.skip(n as int), i.take(n as int))),
        None => Err(NoMatch { rule }),
    }
}

/// The outcome of a rule that matches the first `len` bytes at `i` and
/// leaves the cursor where it is, or, where `len` is `None`, does not match
/// there.
pub open spec fn looked_at(i: SpanView, len: Option<nat>, rule: Rule) -> Result<
    (SpanView, SpanView),
    NoMatch,
> {
    match len {
        Some(n) => Ok((i, i.take(n as int))),
        None => Err(NoMatch { rule }),
    }
}

} // verus!
