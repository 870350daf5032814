//! Cursors into source text, and where they stand in it.

use crate::bytes::NEWLINE;
use crate::position::Position;
use vstd::prelude::*;
use vstd::seq_lib::*;

verus! {

/// The number of line feeds in `s`.
pub open spec fn newlines(s: Seq<u8>) -> nat {
    s.to_multiset().count(NEWLINE)
}

/// The column, counted from 1, of the byte that follows the text `before`:
/// 1 at the start of the text and behind a line feed, and one more than the
/// column of the byte in front of it anywhere else.
pub open spec fn column_after(before: Seq<u8>) -> nat
    decreases before.len(),
{
    if before.len() == 0 || before.last() == NEWLINE {
        1
    } else {
        1 + column_after(before.drop_last())
    }
}

/// What a span is: the bytes of the source that stand in front of it, and
/// the bytes that it covers.
pub struct SpanView {
    pub before: Seq<u8>,
    pub fragment: Seq<u8>,
}

impl SpanView {
    /// The number of bytes of the source in front of the span.
    pub open spec fn offset(self) -> nat {
        self.before.len()
    }

    /// The line, counted from 1, in which the span begins.
    pub open spec fn line(self) -> nat {
        1 + newlines(self.before)
    }

    /// The column, counted from 1, in which the span begins.
    pub open spec fn column(self) -> nat {
        column_after(self.before)
    }

    /// Where the span begins.
    pub open spec fn position(self) -> Position {
        Position { line: self.line() as u32, offset: self.column() as usize }
    }

    /// The span of the first `n` bytes of the fragment.
    pub open spec fn take(self, n: int) -> SpanView {
        SpanView { before: self.before, fragment: self.fragment.take(n) }
    }

    /// The span of what follows the first `n` bytes of the fragment.
    pub open spec fn skip(self, n: int) -> SpanView {
        SpanView { before: self.before + self.fragment.take(n), fragment: self.fragment.skip(n) }
    }

    /// Whether a `Span` can hold this value: the column behind its last byte
    /// fits in `usize`, and its line in `u32`.
    pub open spec fn fits(self) -> bool {
        &&& self.before.len() + self.fragment.len() < usize::MAX
        &&& self.line() <= u32::MAX
    }
}

/// A line feed raises the count by one, any other byte leaves it.
pub proof fn lemma_newlines_push(s: Seq<u8>, b: u8)
    ensures
        newlines(s.push(b)) == newlines(s) + if b == NEWLINE { 1nat } else { 0nat },
{
    broadcast use vstd::multiset::group_multiset_axioms;

    to_multiset_build(s, b);
}

/// The line feeds of a text are those of its parts.
pub proof fn lemma_newlines_concat(a: Seq<u8>, b: Seq<u8>)
    ensures
        newlines(a + b) == newlines(a) + newlines(b),
{
    broadcast use vstd::multiset::group_multiset_axioms;

    lemma_multiset_commutative(a, b);
}

/// A text without a line feed counts none.
pub proof fn lemma_newlines_none(s: Seq<u8>)
    requires
        forall|k: int| 0 <= k < s.len() ==> s[k] != NEWLINE,
    ensures
        newlines(s) == 0,
{
    s.to_multiset_ensures();
    if newlines(s) > 0 {
        assert(s.contains(NEWLINE));
    }
}

/// A column is at least 1 and at most one more than the bytes in front.
pub proof fn lemma_column_bounds(before: Seq<u8>)
    ensures
        1 <= column_after(before) <= before.len() + 1,
    decreases before.len(),
{
    if before.len() == 0 || before.last() == NEWLINE {
    } else {
        lemma_column_bounds(before.drop_last());
    }
}

/// The position of a span that fits is its line and its column, neither of
/// them cut short.
pub proof fn lemma_position_exact(v: SpanView)
    requires
        v.fits(),
    ensures
        v.position().line == v.line(),
        v.position().offset == v.column(),
        v.position().is_located(),
{
    lemma_column_bounds(v.before);
}

/// A cursor into a source text: the part of the text that it covers, with
/// the line and the column at which that part begins.
#[derive(Clone, Copy, Debug, PartialEq, Eq)]
pub struct Span<'a> {
    source: &'a [u8],
    offset: usize,
    end: usize,
    line: u32,
}

impl<'a> View for Span<'a> {
    type V = SpanView;

    closed spec fn view(&self) -> SpanView {
        SpanView {
            before: self.source@.take(self.offset as int),
            fragment: self.source@.subrange(self.offset as int, self.end as int),
        }
    }
}

/// Counts the line feeds of `s` between the indices `from` and `to`.
fn count_newlines(s: &[u8], from: usize, to: usize) -> (n: usize)
    requires
        from <= to <= s@.len(),
    ensures
        n == newlines(s@.subrange(from as int, to as int)),
        n <= to - from,
{
    let mut n: usize = 0;
    let mut k: usize = from;
    proof {
        assert(s@.subrange(from as int, from as int) =~= Seq::<u8>::empty());
        lemma_newlines_none(Seq::<u8>::empty());
    }
    while k < to
        invariant
            from <= k <= to <= s@.len(),
            n == newlines(s@.subrange(from as int, k as int)),
            n <= k - from,
        decreases to - k,
    {
        proof {
            lemma_newlines_push(s@.subrange(from as int, k as int), s@[k as int]);
            assert(s@.subrange(from as int, k + 1) =~= s@.subrange(from as int, k as int).push(
                s@[k as int],
            ));
        }
        if s[k] == NEWLINE {
            n = n + 1;
        }
        k = k + 1;
    }
    n
}

impl<'a> Span<'a> {
    /// What holds of every span: it lies within its source, whose length is
    /// below `usize::MAX`, and it carries the line in which it begins.
    #[verifier::type_invariant]
    pub closed spec fn well_formed(self) -> bool {
        &&& self.offset <= self.end <= self.source@.len() < usize::MAX
        &&& self.line == 1 + newlines(self.source@.take(self.offset as int))
    }

    /// The view of a span is one that a span can hold.
    pub proof fn lemma_fits(self)
        requires
            self.well_formed(),
        ensures
            self@.fits(),
    {
    }

    /// The cursor at the start of `source`, covering all of it.
    pub fn new(source: &'a [u8]) -> (s: Span<'a>)
        requires
            source@.len() < usize::MAX,
        ensures
            s@ == (SpanView { before: Seq::empty(), fragment: source@ }),
            s@.line() == 1,
            s@.column() == 1,
            s@.fits(),
    {
        proof {
            assert(source@.take(0) =~= Seq::<u8>::empty());
            assert(source@.subrange(0, source@.len() as int) =~= source@);
            lemma_newlines_none(Seq::<u8>::empty());
        }
        Span { source, offset: 0, end: source.len(), line: 1 }
    }

    /// The bytes that the span covers.
    pub fn fragment(&self) -> (bytes: &'a [u8])
        ensures
            bytes@ == self@.fragment,
    {
        proof {
            use_type_invariant(self);
        }
        vstd::slice::slice_subrange(self.source, self.offset, self.end)
    }

    /// The number of bytes of the source in front of the span.
    pub fn location_offset(&self) -> (n: usize)
        ensures
            n == self@.offset(),
    {
        proof {
            use_type_invariant(self);
        }
        self.offset
    }

    /// The line, counted from 1, in which the span begins.
    pub fn location_line(&self) -> (n: u32)
        ensures
            n == self@.line(),
    {
        proof {
            use_type_invariant(self);
        }
        self.line
    }

    /// The column, counted from 1 and in bytes, in which the span begins.
    pub fn get_column(&self) -> (n: usize)
        ensures
            n == self@.column(),
    {
        proof {
            use_type_invariant(self);
        }
        let mut k: usize = self.offset;
        while k > 0 && self.source[k - 1] != NEWLINE
            invariant
                k <= self.offset <= self.source@.len() < usize::MAX,
                column_after(self.source@.take(self.offset as int)) == column_after(
                    self.source@.take(k as int),
                ) + (self.offset - k),
            decreases k,
        {
            proof {
                assert(self.source@.take(k as int).drop_last() =~= self.source@.take(k - 1));
            }
            k = k - 1;
        }
        self.offset - k + 1
    }

    /// The span of the first `count` bytes of this one, where it has as many.
    pub fn take(&self, count: usize) -> (r: Option<Span<'a>>)
        ensures
            r is Some <==> count <= self@.fragment.len(),
            r matches Some(head) ==> head@ == self@.take(count as int) && head@.fits(),
    {
        proof {
            use_type_invariant(self);
        }
        if count > self.end - self.offset {
            return None;
        }
        let mid: usize = self.offset + count;
        proof {
            assert(self@.fragment.take(count as int) =~= self.source@.subrange(
                self.offset as int,
                mid as int,
            ));
        }
        Some(Span { source: self.source, offset: self.offset, end: mid, line: self.line })
    }

    /// Cuts the span in two behind its first `count` bytes and returns what
    /// follows them, then the span of those bytes. There is no cut where the
    /// span is shorter than `count`, nor where the line of what follows would
    /// not fit in `u32`.
    pub fn take_split(&self, count: usize) -> (r: Option<(Span<'a>, Span<'a>)>)
        ensures
            r is Some <==> count <= self@.fragment.len() && self@.skip(count as int).line()
                <= u32::MAX,
            r matches Some((rest, head)) ==> {
                &&& rest@ == self@.skip(count as int)
                &&& head@ == self@.take(count as int)
                &&& rest@.fits()
                &&& head@.fits()
            },
    {
        proof {
            use_type_invariant(self);
        }
        if count > self.end - self.offset {
            return None;
        }
        let mid: usize = self.offset + count;
        let fed: usize = count_newlines(self.source, self.offset, mid);
        proof {
            let src = self.source@;
            assert(self@.fragment.take(count as int) =~= src.subrange(
                self.offset as int,
                mid as int,
            ));
            assert(src.take(self.offset as int) + src.subrange(self.offset as int, mid as int)
                =~= src.take(mid as int));
            assert(self@.fragment.skip(count as int) =~= src.subrange(mid as int, self.end as int));
            lemma_newlines_concat(
                src.take(self.offset as int),
                src.subrange(self.offset as int, mid as int),
            );
        }
        if fed > (u32::MAX - self.line) as usize {
            return None;
        }
        let head = Span { source: self.source, offset: self.offset, end: mid, line: self.line };
        let rest = Span {
            source: self.source,
            offset: mid,
            end: self.end,
            line: self.line + fed as u32,
        };
        Some((rest, head))
    }
}

} // verus!
