//! Owned text from the bytes of a token.

use vstd::prelude::*;

verus! {

/// Taken on trust of `String::push`: it appends the given `char` to the end
/// of the string and changes nothing else of it.
pub assume_specification[ String::push ](s: &mut String, ch: char)
    ensures
        final(s)@ == old(s)@.push(ch),
;

/// The characters whose code points are the bytes of `s`, in their order.
/// For ASCII bytes this is the text that they spell.
pub open spec fn chars_of(s: Seq<u8>) -> Seq<char> {
    s.map_values(|b: u8| b as char)
}

/// The text that `bytes` spell, one character for each byte.
pub fn text_of(bytes: &[u8]) -> (text: String)
    ensures
        text@ == chars_of(bytes@),
{
    let mut text = String::new();
    let mut k: usize = 0;
    while k < bytes.len()
        invariant
            k <= bytes@.len(),
            text@ == chars_of(bytes@.take(k as int)),
        decreases bytes@.len() - k,
    {
        proof {
            assert(bytes@.take(k + 1) =~= bytes@.take(k as int).push(bytes@[k as int]));
            assert(chars_of(bytes@.take(k as int).push(bytes@[k as int])) =~= chars_of(
                bytes@.take(k as int),
            ).push(bytes@[k as int] as char));
        }
        text.push(bytes[k] as char);
        k = k + 1;
    }
    proof {
        assert(bytes@.take(bytes@.len() as int) =~= bytes@);
    }
    text
}

} // verus!
