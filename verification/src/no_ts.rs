//! The passthrough strategy: no syntax tree at all, the whole file is one
//! block.

use vstd::prelude::*;

use crate::block::{ByteRange, Point, Position, SqlBlock};

verus! {

/// The number of newline bytes in `s`.
pub open spec fn newlines(s: Seq<u8>) -> int
    decreases s.len(),
{
    if s.len() == 0 {
        0
    } else {
        newlines(s.drop_last()) + if s.last() == 10u8 {
            1int
        } else {
            0int
        }
    }
}

/// The byte offset at which the last line of `s` begins.
pub open spec fn last_line_start(s: Seq<u8>) -> int
    decreases s.len(),
{
    if s.len() == 0 {
        0
    } else if s.last() == 10u8 {
        s.len() as int
    } else {
        last_line_start(s.drop_last())
    }
}

/// Extracts one block spanning the whole file, used when no syntax query
/// is requested.
pub struct NoTS {}

impl NoTS {
    pub fn new() -> (r: NoTS)
    {
        NoTS {}
    }

    /// Clamps a decrement at zero: one less than `value`, or zero.
    pub fn zero_or_minus_one(value: usize) -> (r: usize)
        ensures
            r == if value > 0 {
                value - 1
            } else {
                0int
            },
    {
        if value > 0 {
            value - 1
        } else {
            0
        }
    }

    /// The end-of-file position: an empty byte range at the file length,
    /// with row equal to the line count minus one and column equal to the
    /// length of the last line, both zero on empty content.
    fn last_pos(code: &[u8]) -> (r: Position)
        ensures
            r.byte_range.start == code@.len(),
            r.byte_range.end == code@.len(),
            r.point.row == newlines(code@),
            r.point.column == code@.len() - last_line_start(code@),
    {
        let n = code.len();
        let mut count: usize = 0;
        let mut last_start: usize = 0;
        let mut i: usize = 0;
        while i < n
            invariant
                i <= n,
                n == code@.len(),
                count <= i,
                last_start <= i,
                count == newlines(code@.subrange(0, i as int)),
                last_start == last_line_start(code@.subrange(0, i as int)),
            decreases n - i,
        {
            proof {
                assert(code@.subrange(0, i + 1).drop_last() =~= code@.subrange(0, i as int));
                assert(code@.subrange(0, i + 1).last() == code@[i as int]);
            }
            if code[i] == 10u8 {
                count = count + 1;
                last_start = i + 1;
            }
            i = i + 1;
        }
        proof {
            assert(code@.subrange(0, n as int) =~= code@);
        }
        Position {
            byte_range: ByteRange { start: n, end: n },
            point: Point { row: count, column: n - last_start },
        }
    }

    /// The start-of-file position: everything zero.
    fn first_pos() -> (r: Position)
        ensures
            r.byte_range.start == 0,
            r.byte_range.end == 0,
            r.point.row == 0,
            r.point.column == 0,
    {
        Position { byte_range: ByteRange { start: 0, end: 0 }, point: Point { row: 0, column: 0 } }
    }

    /// Exactly one block whose inner text is the whole file: the start
    /// delimiter is the empty range at byte 0, the end delimiter the
    /// empty range at the file length.
    pub fn sql_blocks(&self, code: &[u8]) -> (r: Vec<SqlBlock>)
        ensures
            r@.len() == 1,
            r@[0].wf(),
            r@[0].in_code(code@.len() as int),
            r@[0].spec_inner_range() == (ByteRange { start: 0, end: code@.len() as usize }),
            r@[0].string_start.point == (Point { row: 0, column: 0 }),
            r@[0].string_end.point.row == newlines(code@),
            r@[0].string_end.point.column == code@.len() - last_line_start(code@),
    {
        let string_start = Self::first_pos();
        let string_end = Self::last_pos(code);
        let mut blocks: Vec<SqlBlock> = Vec::new();
        blocks.push(SqlBlock { string_start, string_end });
        blocks
    }
}

} // verus!
