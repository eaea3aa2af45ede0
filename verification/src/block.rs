//! Coordinates of embedded-string occurrences: byte ranges, row/column
//! points, and the `SqlBlock` boundary pair that all other components
//! consume.

use vstd::prelude::*;

verus! {

/// Zero-based row/column coordinates of a position in a source file.
#[derive(Clone, Copy, PartialEq, Eq, Structural, Debug)]
pub struct Point {
    pub row: usize,
    pub column: usize,
}

/// Half-open byte range `[start, end)` into a file's bytes.
#[derive(Clone, Copy, PartialEq, Eq, Structural, Debug)]
pub struct ByteRange {
    pub start: usize,
    pub end: usize,
}

impl ByteRange {
    /// A range is well formed when its start does not pass its end.
    pub open spec fn wf(self) -> bool {
        self.start <= self.end
    }

    pub open spec fn spec_len(self) -> int {
        self.end - self.start
    }

    pub fn length(&self) -> (r: usize)
        requires
            self.wf(),
        ensures
            r == self.spec_len(),
    {
        self.end - self.start
    }
}

/// Where one syntax-tree node sits in a file: its byte span and the
/// row/column of its first byte.
#[derive(Clone, Copy, PartialEq, Eq, Structural, Debug)]
pub struct Position {
    pub byte_range: ByteRange,
    pub point: Point,
}

/// One embedded-string occurrence, represented by the positions of its
/// opening and closing delimiter tokens.  The inner text is the file slice
/// between the end of the start delimiter and the start of the end
/// delimiter.
#[derive(Clone, Copy, PartialEq, Eq, Structural, Debug)]
pub struct SqlBlock {
    pub string_start: Position,
    pub string_end: Position,
}

impl SqlBlock {
    /// Both delimiter ranges are well formed, the start delimiter ends
    /// no later than the end delimiter starts — so the inner text range
    /// is itself well formed — and the start row never exceeds the start
    /// offset, since rows count newlines.
    pub open spec fn wf(self) -> bool {
        &&& self.string_start.byte_range.wf()
        &&& self.string_end.byte_range.wf()
        &&& self.string_start.byte_range.end <= self.string_end.byte_range.start
        &&& self.string_start.point.row <= self.string_start.byte_range.start
    }

    /// A well-formed block whose spans lie inside a file of `n` bytes.
    pub open spec fn in_code(self, n: int) -> bool {
        &&& self.wf()
        &&& self.string_end.byte_range.end <= n
    }

    pub open spec fn spec_inner_range(self) -> ByteRange {
        ByteRange {
            start: self.string_start.byte_range.end,
            end: self.string_end.byte_range.start,
        }
    }

    /// The byte range of the text between the two delimiters.
    pub fn inner_text_range(&self) -> (r: ByteRange)
        ensures
            r == self.spec_inner_range(),
    {
        ByteRange { start: self.string_start.byte_range.end, end: self.string_end.byte_range.start }
    }

    /// The text between the two delimiters, as a slice of the file's bytes.
    pub fn inner_text<'a>(&self, code: &'a [u8]) -> (r: &'a [u8])
        requires
            self.in_code(code@.len() as int),
        ensures
            r@ == code@.subrange(
                self.spec_inner_range().start as int,
                self.spec_inner_range().end as int,
            ),
    {
        &code[self.string_start.byte_range.end..self.string_end.byte_range.start]
    }

    /// The one-based line number of the block's start delimiter.
    pub fn start_line_num(&self) -> (r: usize)
        requires
            self.string_start.point.row < usize::MAX,
        ensures
            r == self.string_start.point.row + 1,
    {
        self.string_start.point.row + 1
    }
}

/// Every block is well formed and lies within a text of `n` bytes.
pub open spec fn blocks_in_code(blocks: Seq<SqlBlock>, n: int) -> bool {
    forall|k: int| 0 <= k < blocks.len() ==> (#[trigger] blocks[k]).in_code(n)
}

} // verus!
