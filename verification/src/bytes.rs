//! Byte classes of the source alphabet and runs of them.

use vstd::prelude::*;

verus! {

pub const TAB: u8 = 0x09;

pub const NEWLINE: u8 = 0x0A;

pub const CARRIAGE_RETURN: u8 = 0x0D;

pub const SPACE: u8 = 0x20;

pub const OPEN_PAREN: u8 = 0x28;

pub const CLOSE_PAREN: u8 = 0x29;

pub const COMMA: u8 = 0x2C;

pub const DOT: u8 = 0x2E;

pub const SEMICOLON: u8 = 0x3B;

pub const EQUALS: u8 = 0x3D;

/// Whether `b` is an ASCII decimal digit.
pub open spec fn is_ascii_digit(b: u8) -> bool {
    0x30 <= b <= 0x39
}

/// Whether `b` is an ASCII letter of either case.
pub open spec fn is_ascii_letter(b: u8) -> bool {
    0x41 <= b <= 0x5A || 0x61 <= b <= 0x7A
}

/// Whether `b` is an ASCII letter or decimal digit.
pub open spec fn is_ascii_alphanumeric(b: u8) -> bool {
    is_ascii_letter(b) || is_ascii_digit(b)
}

/// Whether `b` is a space, a tab, a carriage return or a line feed.
pub open spec fn is_whitespace(b: u8) -> bool {
    b == SPACE || b == TAB || b == CARRIAGE_RETURN || b == NEWLINE
}

/// Taken on trust of `nom::character::is_digit`: it tells whether the byte
/// lies in `0x30..=0x39`.
pub assume_specification[ nom::character::is_digit ](chr: u8) -> (r: bool)
    ensures
        r == is_ascii_digit(chr),
;

/// Taken on trust of `nom::character::is_alphanumeric`: it tells whether the
/// byte is an ASCII letter (`0x41..=0x5A`, `0x61..=0x7A`) or a decimal digit.
pub assume_specification[ nom::character::is_alphanumeric ](chr: u8) -> (r: bool)
    ensures
        r == is_ascii_alphanumeric(chr),
;

/// A set of bytes that a run can be made of.
#[derive(Clone, Copy, Debug, PartialEq, Eq, Structural)]
pub enum ByteClass {
    /// `0` to `9`.
    Digit,
    /// ASCII letters of either case, and digits.
    Alphanumeric,
    /// Space, tab, carriage return and line feed.
    Whitespace,
}

impl ByteClass {
    /// Whether `b` belongs to the class.
    pub open spec fn spec_contains(self, b: u8) -> bool {
        match self {
            ByteClass::Digit => is_ascii_digit(b),
            ByteClass::Alphanumeric => is_ascii_alphanumeric(b),
            ByteClass::Whitespace => is_whitespace(b),
        }
    }

    /// Tells whether `b` belongs to the class. Digits and letters are told
    /// by `nom`'s byte tests.
    #[verifier::when_used_as_spec(spec_contains)]
    pub fn contains(self, b: u8) -> (r: bool)
        ensures
            r == self.spec_contains(b),
    {
        match self {
            ByteClass::Digit => nom::character::is_digit(b),
            ByteClass::Alphanumeric => nom::character::is_alphanumeric(b),
            ByteClass::Whitespace => b == SPACE || b == TAB || b == CARRIAGE_RETURN || b == NEWLINE,
        }
    }
}

/// The length of the longest prefix of `s` made of bytes of `class`.
pub open spec fn run_len(s: Seq<u8>, class: ByteClass) -> nat
    decreases s.len(),
{
    if s.len() > 0 && class.contains(s[0]) {
        1 + run_len(s.skip(1), class)
    } else {
        0
    }
}

/// Whether the first `n` bytes of `s` are the longest prefix made of bytes of
/// `class`: they all belong to it, and the byte behind them, if any, does not.
pub open spec fn is_run(s: Seq<u8>, class: ByteClass, n: int) -> bool {
    &&& 0 <= n <= s.len()
    &&& forall|k: int| 0 <= k < n ==> class.contains(#[trigger] s[k])
    &&& n < s.len() ==> !class.contains(s[n])
}

/// `run_len` is the one length that `is_run` accepts.
pub proof fn lemma_run_len(s: Seq<u8>, class: ByteClass)
    ensures
        is_run(s, class, run_len(s, class) as int),
        forall|n: int| is_run(s, class, n) ==> n == run_len(s, class),
    decreases s.len(),
{
    if s.len() > 0 && class.contains(s[0]) {
        let t = s.skip(1);
        lemma_run_len(t, class);
        let m = run_len(t, class) as int;
        assert forall|k: int| 0 <= k < m + 1 implies class.contains(#[trigger] s[k]) by {
            if k > 0 {
                assert(s[k] == t[k - 1]);
            }
        }
        if m + 1 < s.len() {
            assert(s[m + 1] == t[m]);
        }
        assert forall|n: int| is_run(s, class, n) implies n == m + 1 by {
            assert(n > 0);
            assert forall|k: int| 0 <= k < n - 1 implies class.contains(#[trigger] t[k]) by {
                assert(t[k] == s[k + 1]);
            }
            if n - 1 < t.len() {
                assert(t[n - 1] == s[n]);
            }
            assert(is_run(t, class, n - 1));
        }
    } else {
        assert forall|n: int| is_run(s, class, n) implies n == 0 by {
            if n > 0 {
                assert(class.contains(s[0]));
            }
        }
    }
}

/// Behind a text made of bytes of `class` the run goes on as far as it does
/// in what follows.
pub proof fn lemma_run_len_concat(t: Seq<u8>, rest: Seq<u8>, class: ByteClass)
    requires
        forall|k: int| 0 <= k < t.len() ==> class.contains(#[trigger] t[k]),
    ensures
        run_len(t + rest, class) == t.len() + run_len(rest, class),
{
    let s = t + rest;
    let n = t.len() + run_len(rest, class);
    lemma_run_len(rest, class);
    assert forall|k: int| 0 <= k < n implies class.contains(#[trigger] s[k]) by {
        if k >= t.len() {
            assert(s[k] == rest[k - t.len()]);
        } else {
            assert(s[k] == t[k]);
        }
    }
    if n < s.len() {
        assert(s[n as int] == rest[n - t.len()]);
    }
    assert(is_run(s, class, n as int));
    lemma_run_len(s, class);
}

/// Counts the bytes of `class` that stand in a row in `s` from index `from` on.
pub fn run_length(s: &[u8], from: usize, class: ByteClass) -> (n: usize)
    requires
        from <= s@.len(),
    ensures
        n == run_len(s@.skip(from as int), class),
        from + n <= s@.len(),
{
    let len: usize = s.len();
    let mut n: usize = 0;
    while from + n < len && class.contains(s[from + n])
        invariant
            len == s@.len(),
            from + n <= len,
            forall|k: int| 0 <= k < n ==> class.contains(#[trigger] s@[from + k]),
        decreases s@.len() - n,
    {
        n = n + 1;
    }
    proof {
        let t = s@.skip(from as int);
        assert forall|k: int| 0 <= k < n implies class.contains(#[trigger] t[k]) by {
            assert(t[k] == s@[from + k]);
        }
        assert(is_run(t, class, n as int));
        lemma_run_len(t, class);
    }
    n
}

/// The lower-case form of an ASCII capital letter; any other byte itself.
pub open spec fn spec_lowercase(b: u8) -> u8 {
    if 0x41 <= b <= 0x5A {
        (b + 0x20) as u8
    } else {
        b
    }
}

/// Folds an ASCII capital letter to lower case.
#[verifier::when_used_as_spec(spec_lowercase)]
pub fn lowercase(b: u8) -> (r: u8)
    ensures
        r == spec_lowercase(b),
{
    if 0x41 <= b && b <= 0x5A {
        b + 0x20
    } else {
        b
    }
}

/// Whether `s` begins with `word`, letters compared without regard to case.
pub open spec fn begins_with_no_case(s: Seq<u8>, word: Seq<u8>) -> bool {
    &&& word.len() <= s.len()
    &&& forall|k: int| 0 <= k < word.len() ==> lowercase(#[trigger] s[k]) == lowercase(word[k])
}

/// Compares the start of `s` with `word`, ignoring the case of ASCII letters.
pub fn starts_with_no_case(s: &[u8], word: &[u8]) -> (r: bool)
    ensures
        r == begins_with_no_case(s@, word@),
{
    if s.len() < word.len() {
        return false;
    }
    let mut k: usize = 0;
    while k < word.len()
        invariant
            k <= word@.len() <= s@.len(),
            forall|j: int| 0 <= j < k ==> lowercase(#[trigger] s@[j]) == lowercase(word@[j]),
        decreases word@.len() - k,
    {
        if lowercase(s[k]) != lowercase(word[k]) {
            return false;
        }
        k = k + 1;
    }
    true
}

} // verus!
