//! Identifiers, numeric literals and variable references.

use crate::boundary::{at_boundary, eof, token_terminated};
use crate::bytes::{
    begins_with_no_case, is_ascii_alphanumeric, is_ascii_digit, is_ascii_letter, is_run,
    lemma_run_len, lemma_run_len_concat, run_len, run_length, ByteClass, DOT, NEWLINE,
};
use crate::keywords::{is_reserved, keywords, lemma_keyword_in_word, reserved_words};
use crate::outcome::{consumed, views, NoMatch, Rule};
use crate::position::Position;
use crate::span::{
    lemma_newlines_concat, lemma_newlines_none, lemma_position_exact, Span, SpanView,
};
use crate::text::{chars_of, text_of};
use vstd::prelude::*;

verus! {

/// The length of the identifier at the start of `s`: its longest prefix of
/// letters and digits, where that is not empty and not a reserved word.
pub open spec fn identifier_len(s: Seq<u8>) -> Option<nat> {
    let n = run_len(s, ByteClass::Alphanumeric);
    if n > 0 && !is_reserved(s.take(n as int)) {
        Some(n)
    } else {
        None
    }
}

/// The length of the numeric literal at the start of `s`, whatever follows
/// it: the digits at the start and, where a dot and at least one more digit
/// come next, the dot and those digits too. It is 0 where `s` does not
/// begin with a digit.
pub open spec fn literal_len(s: Seq<u8>) -> nat {
    let whole = run_len(s, ByteClass::Digit);
    let fraction = run_len(s.skip(whole as int + 1), ByteClass::Digit);
    if 0 < whole < s.len() && s[whole as int] == DOT && fraction > 0 {
        whole + 1 + fraction
    } else {
        whole
    }
}

/// The length of the number at the start of `s`: that of the numeric
/// literal there, where there is one and a token boundary follows it.
pub open spec fn number_len(s: Seq<u8>) -> Option<nat> {
    let n = literal_len(s);
    if n > 0 && at_boundary(s.skip(n as int)) {
        Some(n)
    } else {
        None
    }
}

/// The length of the variable reference at the start of `s`: that of the
/// identifier there, where there is one and a token boundary follows it.
pub open spec fn variable_len(s: Seq<u8>) -> Option<nat> {
    match identifier_len(s) {
        Some(n) if at_boundary(s.skip(n as int)) => Some(n),
        _ => None,
    }
}

/// Whether every byte of `t` is a decimal digit.
pub open spec fn all_digits(t: Seq<u8>) -> bool {
    forall|k: int| 0 <= k < t.len() ==> is_ascii_digit(#[trigger] t[k])
}

/// Whether `t` is a name: letters and digits, at least one, that do not
/// spell a reserved word.
pub open spec fn is_name(t: Seq<u8>) -> bool {
    &&& t.len() > 0
    &&& forall|k: int| 0 <= k < t.len() ==> is_ascii_alphanumeric(#[trigger] t[k])
    &&& !is_reserved(t)
}

/// Whether `t` is a numeric literal: digits, at least one, or digits, a dot
/// and digits, at least one on either side of the dot.
pub open spec fn is_literal(t: Seq<u8>) -> bool {
    ||| t.len() > 0 && all_digits(t)
    ||| exists|dot: int|
        0 < dot < t.len() - 1 && #[trigger] t[dot] == DOT && all_digits(t.take(dot))
            && all_digits(t.skip(dot + 1))
}

/// An expression of the language.
#[derive(Clone, Debug, PartialEq)]
pub enum Expression {
    /// A numeric literal, as it is written: digits, or digits, a dot and
    /// digits.
    Number { pos: Position, literal: String },
    /// A reference to a variable by its name.
    Variable { pos: Position, name: String },
}

/// What an expression is: its place and its text.
pub enum ExpressionView {
    Number { pos: Position, literal: Seq<char> },
    Variable { pos: Position, name: Seq<char> },
}

impl View for Expression {
    type V = ExpressionView;

    open spec fn view(&self) -> ExpressionView {
        match self {
            Expression::Number { pos, literal } => ExpressionView::Number {
                pos: *pos,
                literal: literal@,
            },
            Expression::Variable { pos, name } => ExpressionView::Variable { pos: *pos, name: name@ },
        }
    }
}

impl ExpressionView {
    /// What holds of every expression that was recognized in a text: it
    /// stands in a line of the text, and its text is a numeric literal, or
    /// an identifier, as the grammar has them.
    pub open spec fn well_formed(self) -> bool {
        match self {
            ExpressionView::Number { pos, literal } => {
                &&& pos.is_located()
                &&& exists|t: Seq<u8>| #[trigger] is_literal(t) && literal == chars_of(t)
            },
            ExpressionView::Variable { pos, name } => {
                &&& pos.is_located()
                &&& exists|t: Seq<u8>| #[trigger] is_name(t) && name == chars_of(t)
            },
        }
    }
}

/// The outcome of a recognizer that yields an expression, seen through
/// views.
pub open spec fn expression_views<'a>(r: Result<(Span<'a>, Expression), NoMatch>) -> Result<
    (SpanView, ExpressionView),
    NoMatch,
> {
    match r {
        Ok((rest, expression)) => Ok((rest@, expression@)),
        Err(e) => Err(e),
    }
}

/// The number at `i`: its literal and the place where it begins, with the
/// cursor behind the literal.
pub open spec fn number_at(i: SpanView) -> Result<(SpanView, ExpressionView), NoMatch> {
    match number_len(i.fragment) {
        Some(n) => Ok(
            (
                i.skip(n as int),
                ExpressionView::Number {
                    pos: i.position(),
                    literal: chars_of(i.fragment.take(n as int)),
                },
            ),
        ),
        None => Err(NoMatch { rule: Rule::Number }),
    }
}

/// The variable reference at `i`: its name and the place where it begins,
/// with the cursor behind the name.
pub open spec fn variable_at(i: SpanView) -> Result<(SpanView, ExpressionView), NoMatch> {
    match variable_len(i.fragment) {
        Some(n) => Ok(
            (
                i.skip(n as int),
                ExpressionView::Variable {
                    pos: i.position(),
                    name: chars_of(i.fragment.take(n as int)),
                },
            ),
        ),
        None => Err(NoMatch { rule: Rule::Variable }),
    }
}

/// The expression at `i`: the number there where the text begins with a
/// digit, the variable reference there anywhere else.
pub open spec fn expression_at(i: SpanView) -> Result<(SpanView, ExpressionView), NoMatch> {
    if i.fragment.len() > 0 && is_ascii_digit(i.fragment[0]) {
        number_at(i)
    } else {
        variable_at(i)
    }
}

/// Cuts `i` behind its first `count` bytes, none of which is a line feed.
fn split_token<'a>(i: Span<'a>, count: usize) -> (r: (Span<'a>, Span<'a>))
    requires
        count <= i@.fragment.len(),
        forall|k: int| 0 <= k < count ==> i@.fragment[k] != NEWLINE,
    ensures
        r.0@ == i@.skip(count as int),
        r.1@ == i@.take(count as int),
{
    proof {
        use_type_invariant(&i);
        i.lemma_fits();
        let head = i@.fragment.take(count as int);
        lemma_newlines_none(head);
        lemma_newlines_concat(i@.before, head);
    }
    i.take_split(count).unwrap()
}

/// Matches an identifier: the longest run of letters and digits at `i`,
/// unless that run is a reserved word. Whether it is one is asked of
/// `keywords`, on the run alone and before anything is consumed.
pub fn identifier<'a>(i: Span<'a>) -> (r: Result<(Span<'a>, Span<'a>), NoMatch>)
    ensures
        views(r) == consumed(i@, identifier_len(i@.fragment), Rule::Identifier),
{
    let bytes = i.fragment();
    let n: usize = run_length(bytes, 0, ByteClass::Alphanumeric);
    if n == 0 {
        proof {
            assert(bytes@.skip(0) =~= bytes@);
        }
        return Err(NoMatch { rule: Rule::Identifier });
    }
    proof {
        assert(bytes@.skip(0) =~= bytes@);
        lemma_run_len(bytes@, ByteClass::Alphanumeric);
        lemma_keyword_in_word(bytes@.take(n as int));
    }
    let (rest, word) = split_token(i, n);
    match keywords(word) {
        Ok(_) => Err(NoMatch { rule: Rule::Identifier }),
        Err(_) => Ok((rest, word)),
    }
}

/// Matches a numeric literal that a token boundary follows.
pub fn number_expr<'a>(i: Span<'a>) -> (r: Result<(Span<'a>, Expression), NoMatch>)
    ensures
        expression_views(r) == number_at(i@),
        r matches Ok((_, e)) ==> e@.well_formed(),
{
    proof {
        use_type_invariant(&i);
        i.lemma_fits();
        lemma_expression_well_formed(i@);
    }
    let bytes = i.fragment();
    let whole: usize = run_length(bytes, 0, ByteClass::Digit);
    proof {
        assert(bytes@.skip(0) =~= bytes@);
    }
    if whole == 0 {
        return Err(NoMatch { rule: Rule::Number });
    }
    let mut len: usize = whole;
    if whole < bytes.len() && bytes[whole] == DOT {
        let fraction: usize = run_length(bytes, whole + 1, ByteClass::Digit);
        if fraction > 0 {
            len = whole + 1 + fraction;
        }
    }
    proof {
        lemma_run_len(bytes@, ByteClass::Digit);
        lemma_run_len(bytes@.skip(whole + 1), ByteClass::Digit);
        assert forall|k: int| 0 <= k < len implies bytes@[k] != NEWLINE by {
            if k > whole {
                assert(bytes@[k] == bytes@.skip(whole + 1)[k - whole - 1]);
            }
        }
    }
    let (rest, matched) = split_token(i, len);
    match token_terminated(rest) {
        Ok(_) => Ok(
            (
                rest,
                Expression::Number {
                    pos: Position::from_span(matched),
                    literal: text_of(matched.fragment()),
                },
            ),
        ),
        Err(_) => Err(NoMatch { rule: Rule::Number }),
    }
}

/// Matches an identifier that a token boundary follows.
pub fn variable_expr<'a>(i: Span<'a>) -> (r: Result<(Span<'a>, Expression), NoMatch>)
    ensures
        expression_views(r) == variable_at(i@),
        r matches Ok((_, e)) ==> e@.well_formed(),
{
    proof {
        use_type_invariant(&i);
        i.lemma_fits();
        lemma_expression_well_formed(i@);
    }
    match identifier(i) {
        Ok((rest, word)) => match token_terminated(rest) {
            Ok(_) => Ok(
                (
                    rest,
                    Expression::Variable {
                        pos: Position::from_span(word),
                        name: text_of(word.fragment()),
                    },
                ),
            ),
            Err(_) => Err(NoMatch { rule: Rule::Variable }),
        },
        Err(_) => Err(NoMatch { rule: Rule::Variable }),
    }
}

/// Matches an expression. A number is tried first. Where that fails at the
/// first byte, a variable reference is tried at the same place; where it
/// fails behind digits, there is no expression: a text that begins with a
/// digit is never read as a name.
pub fn expression<'a>(i: Span<'a>) -> (r: Result<(Span<'a>, Expression), NoMatch>)
    ensures
        expression_views(r) == expression_at(i@),
        r matches Ok((_, e)) ==> e@.well_formed(),
{
    proof {
        use_type_invariant(&i);
        i.lemma_fits();
        lemma_expression_well_formed(i@);
    }
    match number_expr(i) {
        Ok(found) => Ok(found),
        Err(e) => {
            let bytes = i.fragment();
            if bytes.len() > 0 && ByteClass::Digit.contains(bytes[0]) {
                Err(e)
            } else {
                proof {
                    lemma_run_len(bytes@, ByteClass::Digit);
                }
                variable_expr(i)
            }
        },
    }
}

/// Every name is an identifier, all of it, and nothing else is one as a
/// whole.
pub proof fn lemma_identifier_accepts(s: Seq<u8>)
    ensures
        is_name(s) <==> identifier_len(s) == Some(s.len()),
{
    lemma_run_len(s, ByteClass::Alphanumeric);
    assert(s.take(s.len() as int) =~= s);
    if is_name(s) {
        assert(is_run(s, ByteClass::Alphanumeric, s.len() as int));
    }
}

/// No reserved word is an identifier, in whatever case its letters are
/// written.
pub proof fn lemma_identifier_rejects_reserved(s: Seq<u8>)
    requires
        is_reserved(s),
    ensures
        identifier_len(s) is None,
{
    let k = choose|k: int|
        0 <= k < reserved_words().len() && s.len() == (#[trigger] reserved_words()[k]).len()
            && begins_with_no_case(s, reserved_words()[k]);
    let word = reserved_words()[k];
    assert forall|j: int| 0 <= j < s.len() implies is_ascii_alphanumeric(#[trigger] s[j]) by {
        assert(is_ascii_letter(word[j]));
    }
    assert(is_run(s, ByteClass::Alphanumeric, s.len() as int));
    lemma_run_len(s, ByteClass::Alphanumeric);
    assert(s.take(s.len() as int) =~= s);
}

/// A name is read as a variable reference where a token boundary follows
/// it, and not where anything else does: a letter or a digit behind it makes
/// a longer run, and any other byte that is no boundary leaves no variable
/// reference there at all.
pub proof fn lemma_variable_boundary(t: Seq<u8>, rest: Seq<u8>)
    requires
        is_name(t),
    ensures
        at_boundary(rest) ==> variable_len(t + rest) == Some(t.len()),
        !at_boundary(rest) ==> variable_len(t + rest) != Some(t.len()),
        !at_boundary(rest) && !is_ascii_alphanumeric(rest[0]) ==> variable_len(t + rest) is None,
{
    let s = t + rest;
    lemma_run_len(rest, ByteClass::Alphanumeric);
    lemma_run_len_concat(t, rest, ByteClass::Alphanumeric);
    assert(s.take(t.len() as int) =~= t);
    assert(s.skip(t.len() as int) =~= rest);
}

/// The numeric literals are the texts that the literal at their start
/// covers whole.
pub proof fn lemma_literal_whole(t: Seq<u8>)
    ensures
        is_literal(t) <==> t.len() > 0 && literal_len(t) == t.len(),
{
    let whole = run_len(t, ByteClass::Digit) as int;
    let tail = t.skip(whole + 1);
    lemma_run_len(t, ByteClass::Digit);
    lemma_run_len(tail, ByteClass::Digit);
    if is_literal(t) {
        if t.len() > 0 && all_digits(t) {
            assert(is_run(t, ByteClass::Digit, t.len() as int));
        } else {
            let dot = choose|dot: int|
                0 < dot < t.len() - 1 && #[trigger] t[dot] == DOT && all_digits(t.take(dot))
                    && all_digits(t.skip(dot + 1));
            assert forall|k: int| 0 <= k < dot implies ByteClass::Digit.contains(#[trigger] t[k]) by {
                assert(t[k] == t.take(dot)[k]);
            }
            assert(is_run(t, ByteClass::Digit, dot));
            assert(is_run(tail, ByteClass::Digit, tail.len() as int));
        }
    }
    if t.len() > 0 && literal_len(t) == t.len() {
        if whole == t.len() {
            assert(all_digits(t));
        } else {
            assert forall|k: int| 0 <= k < whole implies is_ascii_digit(
                #[trigger] t.take(whole)[k],
            ) by {
                assert(t.take(whole)[k] == t[k]);
            }
            assert(all_digits(tail));
            assert(t[whole] == DOT);
        }
    }
}

/// Behind a numeric literal the literal of the longer text goes on through
/// the digits that follow, and stops where neither a digit nor a dot does.
proof fn lemma_literal_concat(t: Seq<u8>, rest: Seq<u8>)
    requires
        is_literal(t),
    ensures
        literal_len(t + rest) >= t.len() + run_len(rest, ByteClass::Digit),
        rest.len() == 0 || !(is_ascii_digit(rest[0]) || rest[0] == DOT) ==> literal_len(t + rest)
            == t.len(),
{
    let s = t + rest;
    let whole = run_len(t, ByteClass::Digit);
    lemma_literal_whole(t);
    lemma_run_len(t, ByteClass::Digit);
    lemma_run_len(rest, ByteClass::Digit);
    if whole == t.len() {
        lemma_run_len_concat(t, rest, ByteClass::Digit);
        let run = t.len() + run_len(rest, ByteClass::Digit);
        if run < s.len() {
            assert(s[run as int] == rest[run - t.len()]);
        }
    } else {
        let tail = t.skip(whole as int + 1);
        lemma_run_len(tail, ByteClass::Digit);
        assert forall|k: int| 0 <= k < whole implies ByteClass::Digit.contains(#[trigger] s[k]) by {
            assert(s[k] == t[k]);
        }
        assert(s[whole as int] == t[whole as int]);
        assert(is_run(s, ByteClass::Digit, whole as int));
        lemma_run_len(s, ByteClass::Digit);
        assert(s.skip(whole as int + 1) =~= tail + rest);
        lemma_run_len_concat(tail, rest, ByteClass::Digit);
    }
}

/// A numeric literal is read as a number where a token boundary follows
/// it, and not where anything else does: a digit behind it, or a dot and a
/// digit, make a longer literal, and any other byte that is no boundary
/// leaves no number there at all.
pub proof fn lemma_number_boundary(t: Seq<u8>, rest: Seq<u8>)
    requires
        is_literal(t),
    ensures
        at_boundary(rest) ==> number_len(t + rest) == Some(t.len()),
        !at_boundary(rest) ==> number_len(t + rest) != Some(t.len()),
        !at_boundary(rest) && !is_ascii_digit(rest[0]) && rest[0] != DOT ==> number_len(t + rest)
            is None,
{
    let s = t + rest;
    lemma_literal_whole(t);
    lemma_literal_concat(t, rest);
    lemma_run_len(rest, ByteClass::Digit);
    assert(s.skip(t.len() as int) =~= rest);
}

/// The numeric literal at the start of a text is a numeric literal.
pub proof fn lemma_literal_prefix(s: Seq<u8>)
    requires
        literal_len(s) > 0,
    ensures
        literal_len(s) <= s.len(),
        is_literal(s.take(literal_len(s) as int)),
{
    let whole = run_len(s, ByteClass::Digit);
    let n = literal_len(s);
    lemma_run_len(s, ByteClass::Digit);
    lemma_run_len(s.skip(whole as int + 1), ByteClass::Digit);
    let t = s.take(n as int);
    assert(is_run(t, ByteClass::Digit, whole as int));
    lemma_run_len(t, ByteClass::Digit);
    if n > whole {
        let tail = t.skip(whole as int + 1);
        let fraction = run_len(s.skip(whole as int + 1), ByteClass::Digit);
        assert forall|k: int| 0 <= k < fraction implies ByteClass::Digit.contains(
            #[trigger] tail[k],
        ) by {
            assert(tail[k] == s.skip(whole as int + 1)[k]);
        }
        assert(is_run(tail, ByteClass::Digit, fraction as int));
        lemma_run_len(tail, ByteClass::Digit);
    }
    lemma_literal_whole(t);
}

/// The identifier at the start of a text is a name.
pub proof fn lemma_identifier_prefix(s: Seq<u8>)
    requires
        identifier_len(s) is Some,
    ensures
        identifier_len(s)->0 <= s.len(),
        is_name(s.take(identifier_len(s)->0 as int)),
{
    let n = run_len(s, ByteClass::Alphanumeric);
    lemma_run_len(s, ByteClass::Alphanumeric);
    let t = s.take(n as int);
    assert(t.take(n as int) =~= t);
}

/// Every expression that is recognized at a cursor is well formed.
pub proof fn lemma_expression_well_formed(i: SpanView)
    requires
        i.fits(),
    ensures
        number_at(i) matches Ok((_, e)) ==> e.well_formed(),
        variable_at(i) matches Ok((_, e)) ==> e.well_formed(),
        expression_at(i) matches Ok((_, e)) ==> e.well_formed(),
{
    lemma_position_exact(i);
    if number_len(i.fragment) is Some {
        lemma_literal_prefix(i.fragment);
        assert(is_literal(i.fragment.take(literal_len(i.fragment) as int)));
    }
    if variable_len(i.fragment) is Some {
        lemma_identifier_prefix(i.fragment);
        assert(is_name(i.fragment.take(identifier_len(i.fragment)->0 as int)));
    }
}

/// Recognition is a function of the cursor and of nothing else: whatever
/// two runs of one recognizer return at cursors that stand at the same place
/// in the same text is the same, be it a match or a failure. So a rule can
/// be tried again where it failed, or on what another rule left, and the
/// answer does not change.
pub proof fn lemma_recognition_repeatable<'a>(i: Span<'a>, j: Span<'a>)
    requires
        i@ == j@,
    ensures
        forall|a: Result<(Span<'a>, Span<'a>), NoMatch>, b: Result<(Span<'a>, Span<'a>), NoMatch>|
            #[trigger] call_ensures(eof, (i,), a) && #[trigger] call_ensures(eof, (j,), b)
                ==> views(a) == views(b),
        forall|a: Result<(Span<'a>, Span<'a>), NoMatch>, b: Result<(Span<'a>, Span<'a>), NoMatch>|
            #[trigger] call_ensures(token_terminated, (i,), a) && #[trigger] call_ensures(
                token_terminated,
                (j,),
                b,
            ) ==> views(a) == views(b),
        forall|a: Result<(Span<'a>, Span<'a>), NoMatch>, b: Result<(Span<'a>, Span<'a>), NoMatch>|
            #[trigger] call_ensures(keywords, (i,), a) && #[trigger] call_ensures(keywords, (j,), b)
                ==> views(a) == views(b),
        forall|a: Result<(Span<'a>, Span<'a>), NoMatch>, b: Result<(Span<'a>, Span<'a>), NoMatch>|
            #[trigger] call_ensures(identifier, (i,), a) && #[trigger] call_ensures(
                identifier,
                (j,),
                b,
            ) ==> views(a) == views(b),
        forall|a: Result<(Span<'a>, Expression), NoMatch>, b: Result<(Span<'a>, Expression), NoMatch>|
            #[trigger] call_ensures(number_expr, (i,), a) && #[trigger] call_ensures(
                number_expr,
                (j,),
                b,
            ) ==> expression_views(a) == expression_views(b),
        forall|a: Result<(Span<'a>, Expression), NoMatch>, b: Result<(Span<'a>, Expression), NoMatch>|
            #[trigger] call_ensures(variable_expr, (i,), a) && #[trigger] call_ensures(
                variable_expr,
                (j,),
                b,
            ) ==> expression_views(a) == expression_views(b),
        forall|a: Result<(Span<'a>, Expression), NoMatch>, b: Result<(Span<'a>, Expression), NoMatch>|
            #[trigger] call_ensures(expression, (i,), a) && #[trigger] call_ensures(
                expression,
                (j,),
                b,
            ) ==> expression_views(a) == expression_views(b),
{
}

} // verus!
