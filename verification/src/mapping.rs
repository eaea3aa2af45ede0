//! Translation of matches found inside a block's inner text back into
//! absolute byte offsets, line numbers and columns of the original file.

use vstd::prelude::*;

use crate::block::{ByteRange, Point, SqlBlock};

verus! {

/// `l` is the line-start table of `s`: entry 0 is byte 0, and the further
/// entries are exactly the bytes that follow a newline, in ascending order.
pub open spec fn line_starts_ok(s: Seq<u8>, l: Seq<usize>) -> bool {
    &&& l.len() >= 1
    &&& l[0] == 0
    &&& forall|j: int, k: int| 0 <= j < k < l.len() ==> l[j] < l[k]
    &&& forall|k: int| 1 <= k < l.len() ==> 0 < l[k] <= s.len() && s[l[k] - 1] == 10u8
    &&& forall|p: int|
        0 <= p < s.len() && s[p] == 10u8 ==> exists|k: int| 1 <= k < l.len() && l[k] == p + 1
}

/// The greatest index whose line start is at or before `pos`; the table
/// always starts at byte 0, so for a well-formed table it exists.
pub open spec fn row_of(lines: Seq<usize>, pos: int) -> int
    decreases lines.len(),
{
    if lines.len() == 0 {
        0
    } else if lines.last() <= pos {
        lines.len() - 1
    } else {
        row_of(lines.drop_last(), pos)
    }
}

proof fn lemma_row_of_character(lines: Seq<usize>, pos: int)
    requires
        lines.len() >= 1,
        lines[0] == 0,
        0 <= pos,
        forall|j: int, k: int| 0 <= j < k < lines.len() ==> lines[j] < lines[k],
    ensures
        0 <= row_of(lines, pos) < lines.len(),
        lines[row_of(lines, pos)] <= pos,
        forall|k: int| row_of(lines, pos) < k < lines.len() ==> lines[k] > pos,
    decreases lines.len(),
{
    if lines.last() <= pos {
    } else {
        assert(lines.len() >= 2) by {
            assert(lines[0] == 0 && lines[lines.len() - 1] > pos);
        }
        let d = lines.drop_last();
        assert(d[0] == lines[0]);
        assert(forall|j: int, k: int| 0 <= j < k < d.len() ==> d[j] < d[k]) by {
            assert(forall|j: int| 0 <= j < d.len() ==> d[j] == lines[j]);
        }
        lemma_row_of_character(d, pos);
        assert(d[row_of(d, pos)] == lines[row_of(d, pos)]);
        assert forall|k: int| row_of(lines, pos) < k < lines.len() implies lines[k] > pos by {
            if k < lines.len() - 1 {
                assert(d[k] > pos && d[k] == lines[k]);
            }
        }
    }
}

/// The first newline byte at or after `from`, or the end of the text.
pub open spec fn line_end_of(code: Seq<u8>, from: int) -> int
    decreases code.len() - from,
{
    if from < 0 || from >= code.len() {
        code.len() as int
    } else if code[from] == 10u8 {
        from
    } else {
        line_end_of(code, from + 1)
    }
}

/// Builds the table of line-start byte offsets for `code`: index `i` holds
/// the byte offset of line `i`'s first byte.  Index 0 is always present.
pub fn block_lines(code: &[u8]) -> (r: Vec<usize>)
    ensures
        line_starts_ok(code@, r@),
{
    let mut lines: Vec<usize> = Vec::new();
    lines.push(0);
    let mut i: usize = 0;
    while i < code.len()
        invariant
            i <= code@.len(),
            lines@.len() >= 1,
            lines@[0] == 0,
            forall|j: int, k: int| 0 <= j < k < lines@.len() ==> lines@[j] < lines@[k],
            forall|k: int| 0 <= k < lines@.len() ==> lines@[k] <= i,
            forall|k: int|
                1 <= k < lines@.len() ==> 0 < lines@[k] <= code@.len() && code@[lines@[k] - 1]
                    == 10u8,
            forall|p: int|
                0 <= p < i && code@[p] == 10u8 ==> exists|k: int|
                    1 <= k < lines@.len() && lines@[k] == p + 1,
        decreases code@.len() - i,
    {
        if code[i] == 10u8 {
            let ghost prev = lines@;
            lines.push(i + 1);
            proof {
                assert forall|p: int|
                    0 <= p < i + 1 && code@[p] == 10u8 implies exists|k: int|
                    1 <= k < lines@.len() && lines@[k] == p + 1 by {
                    if p == i {
                        assert(lines@[lines@.len() - 1] == p + 1);
                    } else {
                        let k = choose|k: int| 1 <= k < prev.len() && prev[k] == p + 1;
                        assert(lines@[k] == p + 1);
                    }
                }
            }
        }
        i = i + 1;
    }
    lines
}

/// The greatest index `r` with `lines[r] <= pos`; it exists because the
/// table always starts with 0.
fn find_row(lines: &Vec<usize>, pos: usize) -> (r: usize)
    requires
        lines@.len() >= 1,
        lines@[0] == 0,
        forall|j: int, k: int| 0 <= j < k < lines@.len() ==> lines@[j] < lines@[k],
    ensures
        r < lines@.len(),
        lines@[r as int] <= pos,
        forall|k: int| r < k < lines@.len() ==> lines@[k] > pos,
        r == row_of(lines@, pos as int),
{
    let mut i: usize = lines.len() - 1;
    while *vstd::slice::slice_index_get(lines.as_slice(), i) > pos
        invariant
            i < lines@.len(),
            lines@.len() >= 1,
            lines@[0] == 0,
            forall|k: int| i < k < lines@.len() ==> lines@[k] > pos,
        decreases i,
    {
        assert(i != 0);
        i = i - 1;
    }
    proof {
        lemma_row_of_character(lines@, pos as int);
        let w = row_of(lines@, pos as int);
        if i < w {
            assert(lines@[w] > pos);
        }
        if w < i {
            assert(lines@[i as int] > pos);
        }
    }
    i
}

/// The first newline byte at or after `from`, or the file length if none
/// remains.
fn find_line_end(code: &[u8], from: usize) -> (r: usize)
    requires
        from <= code@.len(),
    ensures
        from <= r <= code@.len(),
        r == code@.len() || code@[r as int] == 10u8,
        forall|q: int| from <= q < r ==> code@[q] != 10u8,
        r == line_end_of(code@, from as int),
{
    let mut i: usize = from;
    while i < code.len()
        invariant
            from <= i <= code@.len(),
            forall|q: int| from <= q < i ==> code@[q] != 10u8,
            line_end_of(code@, from as int) == line_end_of(code@, i as int),
        decreases code@.len() - i,
    {
        if code[i] == 10u8 {
            return i;
        }
        i = i + 1;
    }
    i
}

/// One regex match inside a block's inner text, translated into every
/// coordinate system a consumer needs: absolute byte range, block-relative
/// byte range, row/column start point, the absolute range of the display
/// lines it touches, and the match range relative to that line start.
#[derive(Clone, Copy, PartialEq, Eq, Structural, Debug)]
pub struct MatchRange {
    pub abs_match_range: ByteRange,
    pub block_match_range: ByteRange,
    pub start_point: Point,
    pub abs_line_range: ByteRange,
    pub line_match_range: ByteRange,
}

/// Everything `MatchRange::from_regex_match` promises of its result, as one
/// reusable predicate: the absolute range is the block-relative range
/// offset by the end of the start delimiter; the row is the last line
/// start at or before the match; the column counts bytes from that line
/// start; and the line range runs from that line start to the first
/// newline at or after the match end.
pub open spec fn match_range_ok(
    code: Seq<u8>,
    lines: Seq<usize>,
    block: SqlBlock,
    regex_match: ByteRange,
    r: MatchRange,
) -> bool {
    let off = block.string_start.byte_range.end;
    &&& r.abs_match_range.start == off + regex_match.start
    &&& r.abs_match_range.end == off + regex_match.end
    &&& r.block_match_range == regex_match
    &&& r.start_point.row < lines.len()
    &&& lines[r.start_point.row as int] <= r.abs_match_range.start
    &&& forall|k: int|
        r.start_point.row < k < lines.len() ==> lines[k] > r.abs_match_range.start
    &&& r.start_point.column == r.abs_match_range.start - lines[r.start_point.row as int]
    &&& r.abs_line_range.start == lines[r.start_point.row as int]
    &&& r.abs_match_range.end <= r.abs_line_range.end <= code.len()
    &&& r.abs_line_range.end == code.len() || code[r.abs_line_range.end as int] == 10u8
    &&& forall|q: int| r.abs_match_range.end <= q < r.abs_line_range.end ==> code[q] != 10u8
    &&& r.line_match_range.start == r.start_point.column
    &&& r.line_match_range.end == r.start_point.column + regex_match.spec_len()
}

/// The translated match as a function of its inputs: the same value
/// `from_regex_match` computes.
pub open spec fn match_range_of(
    code: Seq<u8>,
    lines: Seq<usize>,
    block: SqlBlock,
    m: ByteRange,
) -> MatchRange {
    let off = block.string_start.byte_range.end;
    let row = row_of(lines, off + m.start);
    let ls = lines[row];
    let le = line_end_of(code, lines[row_of(lines, off + m.end)] as int);
    MatchRange {
        abs_match_range: ByteRange { start: (off + m.start) as usize, end: (off + m.end) as usize },
        block_match_range: m,
        start_point: Point { row: row as usize, column: (off + m.start - ls) as usize },
        abs_line_range: ByteRange { start: ls, end: le as usize },
        line_match_range: ByteRange {
            start: (off + m.start - ls) as usize,
            end: (off + m.end - ls) as usize,
        },
    }
}

impl MatchRange {
    /// Translates one regex match, given as a byte range relative to the
    /// block's inner text, into file-absolute coordinates using the file's
    /// line-start table.
    pub fn from_regex_match(
        ts_block: &SqlBlock,
        regex_match: &ByteRange,
        lines: &Vec<usize>,
        code: &[u8],
    ) -> (r: MatchRange)
        requires
            line_starts_ok(code@, lines@),
            regex_match.wf(),
            ts_block.wf(),
            ts_block.string_start.byte_range.end + regex_match.end <= code@.len(),
        ensures
            match_range_ok(code@, lines@, *ts_block, *regex_match, r),
            r == match_range_of(code@, lines@, *ts_block, *regex_match),
    {
        let n = code.len();
        let off = ts_block.string_start.byte_range.end;
        let abs_start = off + regex_match.start;
        let abs_end = off + regex_match.end;

        let row = find_row(lines, abs_start);
        let abs_line_start = *vstd::slice::slice_index_get(lines.as_slice(), row);

        let end_row = find_row(lines, abs_end);
        let end_line_start = *vstd::slice::slice_index_get(lines.as_slice(), end_row);

        proof {
            assert forall|q: int| end_line_start <= q < abs_end implies code@[q] != 10u8 by {
                if code@[q] == 10u8 {
                    let k = choose|k: int|
                        1 <= k < lines@.len() && lines@[k] == q + 1;
                    assert(lines@[k] <= abs_end);
                    assert(lines@[k] > end_line_start);
                    assert(k > end_row) by {
                        if k <= end_row {
                            if k < end_row {
                                assert(lines@[k] < lines@[end_row as int]);
                            }
                            assert(lines@[k] <= end_line_start);
                        }
                    }
                    assert(lines@[k] > abs_end);
                }
            }
        }

        let abs_line_end = find_line_end(code, end_line_start);
        assert(abs_line_end >= abs_end) by {
            if abs_line_end < abs_end {
                assert(code@[abs_line_end as int] != 10u8);
                assert(abs_line_end == code@.len());
            }
        }

        let column = abs_start - abs_line_start;

        proof {
            assert(row == row_of(lines@, off + regex_match.start));
            assert(end_row == row_of(lines@, off + regex_match.end));
            assert(abs_line_end == line_end_of(code@, lines@[end_row as int] as int));
        }
        MatchRange {
            abs_match_range: ByteRange { start: abs_start, end: abs_end },
            block_match_range: *regex_match,
            start_point: Point { row, column },
            abs_line_range: ByteRange { start: abs_line_start, end: abs_line_end },
            line_match_range: ByteRange {
                start: column,
                end: column + (regex_match.end - regex_match.start),
            },
        }
    }

    pub open spec fn ranges_wf(self) -> bool {
        &&& self.abs_match_range.wf()
        &&& self.block_match_range.wf()
        &&& self.abs_line_range.wf()
        &&& self.line_match_range.wf()
    }

    /// All four byte-range fields can be moved by `chars` without leaving
    /// the usize domain.
    pub open spec fn shiftable(self, chars: int) -> bool {
        &&& self.ranges_wf()
        &&& chars > isize::MIN
        &&& self.abs_match_range.start + chars >= 0
        &&& self.block_match_range.start + chars >= 0
        &&& self.abs_line_range.start + chars >= 0
        &&& self.line_match_range.start + chars >= 0
        &&& self.abs_match_range.end + chars <= usize::MAX
        &&& self.block_match_range.end + chars <= usize::MAX
        &&& self.abs_line_range.end + chars <= usize::MAX
        &&& self.line_match_range.end + chars <= usize::MAX
    }

    /// A copy with every byte-range field offset by `chars`.  The start
    /// point is deliberately left untouched: it is only used for the live
    /// preview during interactive confirmation, never for final writes.
    pub fn shifted_ranged(&self, chars: isize) -> (r: MatchRange)
        requires
            self.shiftable(chars as int),
        ensures
            r.abs_match_range == shifted(self.abs_match_range, chars as int),
            r.block_match_range == shifted(self.block_match_range, chars as int),
            r.abs_line_range == shifted(self.abs_line_range, chars as int),
            r.line_match_range == shifted(self.line_match_range, chars as int),
            r.start_point == self.start_point,
    {
        MatchRange {
            abs_match_range: shift_range(self.abs_match_range, chars),
            block_match_range: shift_range(self.block_match_range, chars),
            start_point: self.start_point,
            abs_line_range: shift_range(self.abs_line_range, chars),
            line_match_range: shift_range(self.line_match_range, chars),
        }
    }

    /// The byte length of the match, as counted in the display line.
    pub fn match_length(&self) -> (r: usize)
        requires
            self.line_match_range.wf(),
        ensures
            r == self.line_match_range.spec_len(),
    {
        self.line_match_range.length()
    }

    pub fn abs_match_range(&self) -> (r: ByteRange)
        ensures
            r == self.abs_match_range,
    {
        self.abs_match_range
    }

    pub fn block_match_range(&self) -> (r: ByteRange)
        ensures
            r == self.block_match_range,
    {
        self.block_match_range
    }

    pub fn abs_line_range(&self) -> (r: ByteRange)
        ensures
            r == self.abs_line_range,
    {
        self.abs_line_range
    }

    pub fn line_match_range(&self) -> (r: ByteRange)
        ensures
            r == self.line_match_range,
    {
        self.line_match_range
    }
}

pub open spec fn shifted(r: ByteRange, chars: int) -> ByteRange {
    ByteRange { start: (r.start + chars) as usize, end: (r.end + chars) as usize }
}

fn shift_range(r: ByteRange, chars: isize) -> (s: ByteRange)
    requires
        r.wf(),
        chars > isize::MIN,
        r.start + chars >= 0,
        r.end + chars <= usize::MAX,
    ensures
        s == shifted(r, chars as int),
        s.start == r.start + chars,
        s.end == r.end + chars,
{
    if chars >= 0 {
        ByteRange { start: r.start + (chars as usize), end: r.end + (chars as usize) }
    } else {
        let d = (-chars) as usize;
        ByteRange { start: r.start - d, end: r.end - d }
    }
}

/// Range round-trip: a match's bytes are the same when read through the
/// absolute file range, through the block's inner text with the
/// block-relative range, and through the display line with the
/// line-relative range.
pub proof fn lemma_range_round_trip(
    code: Seq<u8>,
    lines: Seq<usize>,
    block: SqlBlock,
    regex_match: ByteRange,
    r: MatchRange,
)
    requires
        line_starts_ok(code, lines),
        block.in_code(code.len() as int),
        regex_match.wf(),
        block.string_start.byte_range.end + regex_match.end
            <= block.string_end.byte_range.start,
        match_range_ok(code, lines, block, regex_match, r),
    ensures
        code.subrange(r.abs_match_range.start as int, r.abs_match_range.end as int)
            == code.subrange(
            block.spec_inner_range().start as int,
            block.spec_inner_range().end as int,
        ).subrange(r.block_match_range.start as int, r.block_match_range.end as int),
        code.subrange(r.abs_match_range.start as int, r.abs_match_range.end as int)
            == code.subrange(r.abs_line_range.start as int, r.abs_line_range.end as int).subrange(
            r.line_match_range.start as int,
            r.line_match_range.end as int,
        ),
{
    let abs = code.subrange(r.abs_match_range.start as int, r.abs_match_range.end as int);
    let inner = code.subrange(
        block.spec_inner_range().start as int,
        block.spec_inner_range().end as int,
    );
    let blk = inner.subrange(r.block_match_range.start as int, r.block_match_range.end as int);
    let line = code.subrange(r.abs_line_range.start as int, r.abs_line_range.end as int);
    let lin = line.subrange(r.line_match_range.start as int, r.line_match_range.end as int);
    assert(abs =~= blk);
    assert(abs =~= lin);
}

} // verus!
