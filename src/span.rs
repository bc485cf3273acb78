//! Byte ranges of the source text and their line/column positions.

use vstd::prelude::*;
use vstd::string::StringSliceAdditionalSpecFns;

verus! {

/// The half-open byte range `start..end` of the source text.
#[derive(PartialEq, Eq, Structural, Clone, Copy, Debug)]
pub struct Span {
    pub start: usize,
    pub end: usize,
}

/// A 1-based line and column.
#[derive(PartialEq, Eq, Structural, Clone, Copy, Debug)]
pub struct Location {
    pub line: usize,
    pub column: usize,
}

/// A byte that continues a multi-byte UTF-8 character rather than starting one.
pub open spec fn is_continuation(b: u8) -> bool {
    0x80 <= b < 0xC0
}

/// Line and column, as integers, of the position just after the bytes `b`:
/// each newline starts a new line, each other character moves one column.
pub open spec fn position_after(b: Seq<u8>) -> (int, int)
    decreases b.len(),
{
    if b.len() == 0 {
        (1, 1)
    } else {
        let (line, column) = position_after(b.drop_last());
        if b.last() == 10u8 {
            (line + 1, 1)
        } else if is_continuation(b.last()) {
            (line, column)
        } else {
            (line, column + 1)
        }
    }
}

/// The bytes of `b` before offset `n`; all of `b` when `n` lies past its end.
pub open spec fn bytes_before(b: Seq<u8>, n: int) -> Seq<u8> {
    if n <= b.len() {
        b.take(n)
    } else {
        b
    }
}

proof fn lemma_position_bounds(b: Seq<u8>)
    ensures
        position_after(b).0 >= 1,
        position_after(b).1 >= 1,
        position_after(b).0 + position_after(b).1 <= b.len() + 2,
    decreases b.len(),
{
    if b.len() > 0 {
        lemma_position_bounds(b.drop_last());
    }
}

impl Default for Span {
    fn default() -> (r: Span)
        ensures
            r == (Span { start: 0, end: 0 }),
    {
        Span { start: 0, end: 0 }
    }
}

impl From<std::ops::Range<usize>> for Span {
    fn from(range: std::ops::Range<usize>) -> (r: Span)
        ensures
            r == (Span { start: range.start, end: range.end }),
    {
        Span { start: range.start, end: range.end }
    }
}

impl vstd::std_specs::convert::FromSpecImpl<std::ops::Range<usize>> for Span {
    open spec fn obeys_from_spec() -> bool {
        true
    }

    open spec fn from_spec(range: std::ops::Range<usize>) -> Span {
        Span { start: range.start, end: range.end }
    }
}

impl Span {
    pub fn new(start: usize, end: usize) -> (r: Span)
        ensures
            r == (Span { start, end }),
    {
        Span { start, end }
    }

    /// Where `start` lies in `source`: the line and column reached after the
    /// bytes before it (all of `source` when `start` lies past its end).
    pub fn location(&self, source: &str) -> (r: Location)
        requires
            source.spec_bytes().len() < usize::MAX,
        ensures
            r.line == position_after(bytes_before(source.spec_bytes(), self.start as int)).0,
            r.column == position_after(bytes_before(source.spec_bytes(), self.start as int)).1,
    {
        let bytes = source.as_bytes();
        let mut line: usize = 1;
        let mut column: usize = 1;
        let mut i: usize = 0;
        while i < bytes.len() && i < self.start
            invariant
                i <= bytes@.len(),
                i <= self.start,
                bytes@ == source.spec_bytes(),
                bytes@.len() < usize::MAX,
                line == position_after(bytes@.take(i as int)).0,
                column == position_after(bytes@.take(i as int)).1,
            decreases bytes@.len() - i,
        {
            proof {
                lemma_position_bounds(bytes@.take(i as int));
                assert(bytes@.take(i + 1).drop_last() =~= bytes@.take(i as int));
            }
            let b = bytes[i];
            if b == 10u8 {
                line = line + 1;
                column = 1;
            } else if !(0x80u8 <= b && b < 0xC0u8) {
                column = column + 1;
            }
            i = i + 1;
        }
        proof {
            if i < self.start {
                assert(bytes@.take(i as int) =~= bytes@);
            }
        }
        Location { line, column }
    }

    pub fn range(&self) -> (r: std::ops::Range<usize>)
        ensures
            r.start == self.start,
            r.end == self.end,
    {
        self.start..self.end
    }

    pub fn len(&self) -> (r: usize)
        requires
            self.start <= self.end,
        ensures
            r == self.end - self.start,
    {
        self.end - self.start
    }
}

} // verus!
