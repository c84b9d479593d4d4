//! Source coordinates carried by nodes: byte spans for splicing, line/column ranges for
//! navigation. Neither ever takes part in identity.

use vstd::prelude::*;

verus! {

/// A byte offset into a source text.
#[derive(Clone, Copy, Debug, Default, PartialEq, Eq, Structural, Hash)]
pub struct BytePos(pub usize);

/// A zero-based line/column position, the column counted in characters.
#[derive(Clone, Copy, Debug, Default, PartialEq, Eq, Structural, Hash)]
pub struct LineCol {
    /// Zero-based line index.
    pub line: u32,
    /// Zero-based column index.
    pub col: u32,
}

/// A half-open byte extent.
#[derive(Clone, Copy, Debug, Default, PartialEq, Eq, Structural, Hash)]
pub struct Span {
    /// Inclusive start byte.
    pub start: BytePos,
    /// Exclusive end byte.
    pub end: BytePos,
}

/// A half-open line/column extent.
#[derive(Clone, Copy, Debug, Default, PartialEq, Eq, Structural, Hash)]
pub struct Range {
    /// Inclusive start position.
    pub start: LineCol,
    /// Exclusive end position.
    pub end: LineCol,
}

impl Range {
    /// The empty range at the start of a text.
    pub fn origin() -> (r: Self)
        ensures
            r.start == (LineCol { line: 0, col: 0 }),
            r.end == (LineCol { line: 0, col: 0 }),
    {
        Range { start: LineCol { line: 0, col: 0 }, end: LineCol { line: 0, col: 0 } }
    }
}

impl Span {
    /// The empty span at the start of a text.
    pub fn origin() -> (r: Self)
        ensures
            r.start == BytePos(0),
            r.end == BytePos(0),
    {
        Span { start: BytePos(0), end: BytePos(0) }
    }
}

impl LineCol {
    /// The position at `line` / `col`.
    pub fn new(line: u32, col: u32) -> (r: Self)
        ensures
            r.line == line,
            r.col == col,
    {
        LineCol { line, col }
    }
}

} // verus!
