//! What may follow a token: the end of the input and the token boundary.

use crate::bytes::{
    is_whitespace, run_len, run_length, ByteClass, CLOSE_PAREN, COMMA, EQUALS, OPEN_PAREN,
    SEMICOLON,
};
use crate::outcome::{looked_at, views, NoMatch, Rule};
use crate::span::Span;
use vstd::prelude::*;

verus! {

/// Whether `b` is one of the punctuation marks that end a token:
/// `;`, `(`, `)`, `,` or `=`.
pub open spec fn spec_is_delimiter(b: u8) -> bool {
    b == SEMICOLON || b == OPEN_PAREN || b == CLOSE_PAREN || b == COMMA || b == EQUALS
}

/// Tells whether `b` is one of `;`, `(`, `)`, `,` and `=`.
#[verifier::when_used_as_spec(spec_is_delimiter)]
pub fn is_delimiter(b: u8) -> (r: bool)
    ensures
        r == spec_is_delimiter(b),
{
    b == SEMICOLON || b == OPEN_PAREN || b == CLOSE_PAREN || b == COMMA || b == EQUALS
}

/// Whether a token may end in front of `s`: nothing is left, or the next
/// byte is white space or a delimiter.
pub open spec fn at_boundary(s: Seq<u8>) -> bool {
    s.len() == 0 || is_whitespace(s[0]) || is_delimiter(s[0])
}

/// The length of the boundary at the start of `s`: the whole run of white
/// space where `s` begins with white space, one byte for a delimiter,
/// nothing at the end of the input; `None` where `s` begins with any other
/// byte.
pub open spec fn boundary_len(s: Seq<u8>) -> Option<nat> {
    if s.len() == 0 {
        Some(0)
    } else if is_whitespace(s[0]) {
        Some(run_len(s, ByteClass::Whitespace))
    } else if is_delimiter(s[0]) {
        Some(1)
    } else {
        None
    }
}

/// The length of the match of the end of the input: nothing, where nothing
/// is left.
pub open spec fn eof_len(s: Seq<u8>) -> Option<nat> {
    if s.len() == 0 {
        Some(0)
    } else {
        None
    }
}

/// Matches the end of the input, with an empty match, and nothing else.
pub fn eof<'a>(i: Span<'a>) -> (r: Result<(Span<'a>, Span<'a>), NoMatch>)
    ensures
        views(r) == looked_at(i@, eof_len(i@.fragment), Rule::EndOfInput),
{
    if i.fragment().len() == 0 {
        proof {
            assert(i@.fragment.take(0) =~= i@.fragment);
        }
        Ok((i, i))
    } else {
        Err(NoMatch { rule: Rule::EndOfInput })
    }
}

/// Looks for a token boundary at `i` without consuming it: on success the
/// cursor returned is `i` itself, and the match is the boundary found.
pub fn token_terminated<'a>(i: Span<'a>) -> (r: Result<(Span<'a>, Span<'a>), NoMatch>)
    ensures
        views(r) == looked_at(i@, boundary_len(i@.fragment), Rule::Boundary),
        r is Ok <==> at_boundary(i@.fragment),
{
    let bytes = i.fragment();
    if bytes.len() == 0 {
        return eof(i);
    }
    let len: usize = if ByteClass::Whitespace.contains(bytes[0]) {
        proof {
            assert(bytes@.skip(0) =~= bytes@);
        }
        run_length(bytes, 0, ByteClass::Whitespace)
    } else if is_delimiter(bytes[0]) {
        1
    } else {
        return Err(NoMatch { rule: Rule::Boundary });
    };
    let matched = i.take(len).unwrap();
    Ok((i, matched))
}

} // verus!
