//! The reserved words.

use crate::boundary::{at_boundary, token_terminated};
use crate::bytes::{
    begins_with_no_case, is_ascii_alphanumeric, is_ascii_letter, lowercase, starts_with_no_case,
    NEWLINE,
};
use crate::outcome::{consumed, views, NoMatch, Rule};
use crate::span::{lemma_newlines_concat, lemma_newlines_none, Span};
use vstd::prelude::*;

verus! {

/// `def`, in lower case.
pub const DEF: [u8; 3] = [0x64, 0x65, 0x66];

/// `extern`, in lower case.
pub const EXTERN: [u8; 6] = [0x65, 0x78, 0x74, 0x65, 0x72, 0x6E];

/// The reserved words, in the order in which they are tried.
pub open spec fn reserved_words() -> Seq<Seq<u8>> {
    seq![DEF@, EXTERN@]
}

/// Whether `s` begins with `word`, in letters of either case, and a token
/// boundary follows it.
pub open spec fn word_at(s: Seq<u8>, word: Seq<u8>) -> bool {
    begins_with_no_case(s, word) && at_boundary(s.skip(word.len() as int))
}

/// The length of the first of `words` that stands at the start of `s`.
pub open spec fn first_word_at(s: Seq<u8>, words: Seq<Seq<u8>>) -> Option<nat>
    decreases words.len(),
{
    if words.len() == 0 {
        None
    } else if word_at(s, words[0]) {
        Some(words[0].len())
    } else {
        first_word_at(s, words.skip(1))
    }
}

/// The length of the reserved word at the start of `s`.
pub open spec fn keyword_len(s: Seq<u8>) -> Option<nat> {
    first_word_at(s, reserved_words())
}

/// Whether `w` is a reserved word, in letters of either case.
pub open spec fn is_reserved(w: Seq<u8>) -> bool {
    exists|k: int|
        0 <= k < reserved_words().len() && w.len() == (#[trigger] reserved_words()[k]).len()
            && begins_with_no_case(w, reserved_words()[k])
}

/// In a text of letters and digits a reserved word is found exactly where
/// the text is that word, since nothing in it can be a token boundary but
/// its end.
pub proof fn lemma_keyword_in_word(w: Seq<u8>)
    requires
        forall|k: int| 0 <= k < w.len() ==> is_ascii_alphanumeric(#[trigger] w[k]),
    ensures
        keyword_len(w) is Some <==> is_reserved(w),
        keyword_len(w) is Some ==> keyword_len(w) == Some(w.len()),
{
    reveal_with_fuel(first_word_at, 3);
    let words = reserved_words();
    assert(words.skip(1)[0] == words[1]);
    assert(words.skip(1).skip(1).len() == 0);
    assert forall|k: int| 0 <= k < words.len() implies (word_at(w, #[trigger] words[k]) <==> w.len()
        == words[k].len() && begins_with_no_case(w, words[k])) by {
        let rest = w.skip(words[k].len() as int);
        if begins_with_no_case(w, words[k]) && rest.len() > 0 {
            assert(rest[0] == w[words[k].len() as int]);
        }
    }
    if is_reserved(w) {
        let k = choose|k: int|
            0 <= k < words.len() && w.len() == (#[trigger] words[k]).len() && begins_with_no_case(
                w,
                words[k],
            );
        assert(word_at(w, words[k]));
        if k == 1 && word_at(w, words[0]) {
            assert(words[0].len() == words[1].len());
        }
    }
    if keyword_len(w) is Some {
        if word_at(w, words[0]) {
            assert(w.len() == words[0].len() && begins_with_no_case(w, words[0]));
        } else {
            assert(word_at(w, words[1]));
            assert(w.len() == words[1].len() && begins_with_no_case(w, words[1]));
        }
    }
}

/// A reserved word, in letters of either case, is matched where a token
/// boundary follows it, and not where anything else does.
pub proof fn lemma_keyword_boundary(w: Seq<u8>, rest: Seq<u8>)
    requires
        is_reserved(w),
    ensures
        keyword_len(w + rest) == if at_boundary(rest) {
            Some(w.len())
        } else {
            None
        },
{
    reveal_with_fuel(first_word_at, 3);
    let words = reserved_words();
    let s = w + rest;
    assert(words.skip(1)[0] == words[1]);
    assert(words.skip(1).skip(1).len() == 0);
    let k = choose|k: int|
        0 <= k < words.len() && w.len() == (#[trigger] words[k]).len() && begins_with_no_case(
            w,
            words[k],
        );
    assert(s.skip(w.len() as int) =~= rest);
    assert forall|j: int| 0 <= j < w.len() implies lowercase(#[trigger] s[j]) == lowercase(
        words[k][j],
    ) by {
        assert(s[j] == w[j]);
    }
    assert(begins_with_no_case(s, words[k]));
    assert(s[0] == w[0]);
    assert(lowercase(w[0]) == lowercase(words[k][0]));
    assert(!begins_with_no_case(s, words[1 - k]));
}

/// Matches `word` at `i` where a token boundary follows it.
fn reserved_word<'a>(i: Span<'a>, word: &[u8]) -> (r: Option<(Span<'a>, Span<'a>)>)
    requires
        forall|k: int| 0 <= k < word@.len() ==> is_ascii_letter(#[trigger] word@[k]),
    ensures
        r is Some <==> word_at(i@.fragment, word@),
        r matches Some((rest, matched)) ==> {
            &&& rest@ == i@.skip(word@.len() as int)
            &&& matched@ == i@.take(word@.len() as int)
        },
{
    if !starts_with_no_case(i.fragment(), word) {
        return None;
    }
    proof {
        use_type_invariant(&i);
        i.lemma_fits();
        let head = i@.fragment.take(word@.len() as int);
        assert forall|k: int| 0 <= k < head.len() implies head[k] != NEWLINE by {
            assert(head[k] == i@.fragment[k]);
            assert(is_ascii_letter(word@[k]));
        }
        lemma_newlines_none(head);
        lemma_newlines_concat(i@.before, head);
    }
    let (rest, matched) = i.take_split(word.len()).unwrap();
    match token_terminated(rest) {
        Ok(_) => Some((rest, matched)),
        Err(_) => None,
    }
}

/// Matches a reserved word, in letters of either case, where a token
/// boundary follows it, and consumes the word.
pub fn keywords<'a>(i: Span<'a>) -> (r: Result<(Span<'a>, Span<'a>), NoMatch>)
    ensures
        views(r) == consumed(i@, keyword_len(i@.fragment), Rule::Keyword),
{
    proof {
        reveal_with_fuel(first_word_at, 3);
        assert(reserved_words().skip(1)[0] == EXTERN@);
        assert(reserved_words().skip(1).skip(1).len() == 0);
    }
    let def = DEF;
    if let Some(found) = reserved_word(i, def.as_slice()) {
        return Ok(found);
    }
    let second = EXTERN;
    if let Some(found) = reserved_word(i, second.as_slice()) {
        return Ok(found);
    }
    Err(NoMatch { rule: Rule::Keyword })
}

} // verus!
