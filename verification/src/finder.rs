//! The finder strategies: plain search, inverse search, bulk replace,
//! and the interactive replace-confirm session state.
//!
//! Each strategy works on one file at a time: the caller extracts the
//! file's blocks, hands them in together with the file state, and
//! receives output lines or an edited file text back.  All file and
//! terminal traffic stays with the caller.  The engine's results are
//! functions of the pattern text and flags, so every output is pinned
//! through the named results of `crate::re`.

use vstd::prelude::*;

use crate::block::{blocks_in_code, ByteRange, SqlBlock};
use crate::display::format_match_line;
use crate::display::{is_utf8, match_line_spec, painted, CodeDiff, Color};
use crate::edit::{apply_edits, check_ranges_sorted, deep, edited_suffix, ranges_sorted_in};
use crate::mapping::{block_lines, line_starts_ok, match_range_of, MatchRange};
use crate::re::{
    re_matches, re_replaced_all, re_replaced_first, regex_find_iter, regex_replace_all,
    replace_in_range, replace_in_range_spec, Pattern,
};

verus! {

/// Whether the per-file driver goes on to the next file or stops the
/// whole run.
#[derive(Clone, Copy, PartialEq, Eq, Structural, Debug)]
pub enum FindChoice {
    Continue,
    Exit,
}

/// One file being processed: its path, its line-start table, and its
/// text.
pub struct FileState {
    pub path: Vec<u8>,
    pub lines: Vec<usize>,
    pub code: Vec<u8>,
}

impl FileState {
    pub open spec fn wf(self) -> bool {
        &&& line_starts_ok(self.code@, self.lines@)
        &&& self.code@.len() < usize::MAX
    }

    /// Builds the per-file state, deriving the line-start table from the
    /// text.
    pub fn new(path: Vec<u8>, code: Vec<u8>) -> (r: FileState)
        requires
            code@.len() < usize::MAX,
        ensures
            r.wf(),
            r.path@ == path@,
            r.code@ == code@,
    {
        let lines = block_lines(code.as_slice());
        FileState { path, lines, code }
    }
}

/// The view of a line list: each output line as a byte sequence.
pub open spec fn lines_view(v: Seq<Vec<u8>>) -> Seq<Seq<u8>> {
    v.map_values(|x: Vec<u8>| x@)
}

/// The matches the pattern finds in one block's inner text.
pub open spec fn block_matches(
    pattern: Seq<u8>,
    ignore_case: bool,
    multiline: bool,
    code: Seq<u8>,
    block: SqlBlock,
) -> Seq<ByteRange> {
    re_matches(
        pattern,
        ignore_case,
        multiline,
        code.subrange(block.spec_inner_range().start as int, block.spec_inner_range().end as int),
    )
}

/// The display line of a match with the matched span painted green.
pub open spec fn highlighted_line(code: Seq<u8>, rng: MatchRange) -> Seq<u8> {
    let ls = rng.abs_line_range.start as int;
    code.subrange(ls, ls + rng.line_match_range.start) + painted(
        code.subrange(ls + rng.line_match_range.start, ls + rng.line_match_range.end),
        Color::Green,
    ) + code.subrange(ls + rng.line_match_range.end, rng.abs_line_range.end as int)
}

/// The bytes a match highlights in its display line.
pub open spec fn diff_span(code: Seq<u8>, lines: Seq<usize>, block: SqlBlock, m: ByteRange) -> Seq<
    u8,
> {
    let rng = match_range_of(code, lines, block, m);
    code.subrange(
        rng.abs_line_range.start + rng.line_match_range.start,
        rng.abs_line_range.start + rng.line_match_range.end,
    )
}

/// What `from_regex_match` guarantees, restated as the preconditions the
/// formatters need.
pub open spec fn rng_fits(code: Seq<u8>, rng: MatchRange) -> bool {
    &&& rng.abs_line_range.wf()
    &&& rng.abs_line_range.end <= code.len()
    &&& rng.line_match_range.wf()
    &&& rng.line_match_range.end <= rng.abs_line_range.spec_len()
}

/// One printed search hit: one-based row and column, and the display
/// line with the matched span highlighted.
pub fn plain_match_line(path: &[u8], code: &[u8], rng: &MatchRange, color: bool) -> (r: Vec<u8>)
    requires
        rng_fits(code@, *rng),
        rng.start_point.row < usize::MAX,
        rng.start_point.column < usize::MAX,
    ensures
        (is_utf8(path@) || !color) && is_utf8(
            code@.subrange(
                rng.abs_line_range.start + rng.line_match_range.start,
                rng.abs_line_range.start + rng.line_match_range.end,
            ),
        ) ==> r@ == match_line_spec(
            path@,
            rng.start_point.row + 1,
            Some(rng.start_point.column + 1),
            highlighted_line(code@, *rng),
            color,
        ),
{
    let diff = CodeDiff::new_line(code, rng);
    let text = diff.with_diff_color(Color::Green);
    format_match_line(
        path,
        rng.start_point.row + 1,
        Some(rng.start_point.column + 1),
        text.as_slice(),
        color,
    )
}

/// One printed search hit, as a function of the match: the line
/// `plain_match_line` produces for the translated coordinates.
pub open spec fn plain_line_of(
    path: Seq<u8>,
    code: Seq<u8>,
    lines: Seq<usize>,
    block: SqlBlock,
    m: ByteRange,
    color: bool,
) -> Seq<u8> {
    let rng = match_range_of(code, lines, block, m);
    match_line_spec(
        path,
        rng.start_point.row + 1,
        Some(rng.start_point.column + 1),
        highlighted_line(code, rng),
        color,
    )
}

/// Every output line of a plain search over one block: one line per
/// match, in order.
pub open spec fn plain_block_lines(
    pattern: Seq<u8>,
    ignore_case: bool,
    multiline: bool,
    path: Seq<u8>,
    code: Seq<u8>,
    lines: Seq<usize>,
    block: SqlBlock,
    color: bool,
) -> Seq<Seq<u8>> {
    block_matches(pattern, ignore_case, multiline, code, block).map_values(
        |m: ByteRange| plain_line_of(path, code, lines, block, m, color),
    )
}

/// Every output line of a plain search over blocks `i`, `i + 1`, ...:
/// one line per match of every block, in order.
pub open spec fn plain_lines(
    pattern: Seq<u8>,
    ignore_case: bool,
    multiline: bool,
    path: Seq<u8>,
    code: Seq<u8>,
    lines: Seq<usize>,
    blocks: Seq<SqlBlock>,
    i: int,
    color: bool,
) -> Seq<Seq<u8>>
    decreases blocks.len() - i,
{
    if i < 0 || i >= blocks.len() {
        Seq::empty()
    } else {
        plain_block_lines(pattern, ignore_case, multiline, path, code, lines, blocks[i], color)
            + plain_lines(
            pattern,
            ignore_case,
            multiline,
            path,
            code,
            lines,
            blocks,
            i + 1,
            color,
        )
    }
}

/// Every highlighted span of one block's matches is valid UTF-8, so
/// the styling wrapper's exact contract applies to each of its lines.
pub open spec fn block_diffs_utf8(
    pattern: Seq<u8>,
    ignore_case: bool,
    multiline: bool,
    code: Seq<u8>,
    lines: Seq<usize>,
    block: SqlBlock,
) -> bool {
    forall|x: int|
        0 <= x < block_matches(pattern, ignore_case, multiline, code, block).len() ==> is_utf8(
            diff_span(
                code,
                lines,
                block,
                #[trigger] block_matches(pattern, ignore_case, multiline, code, block)[x],
            ),
        )
}

/// Every highlighted span of every match of blocks `i`, `i + 1`, ... is
/// valid UTF-8.
pub open spec fn plain_diffs_utf8(
    pattern: Seq<u8>,
    ignore_case: bool,
    multiline: bool,
    code: Seq<u8>,
    lines: Seq<usize>,
    blocks: Seq<SqlBlock>,
    i: int,
) -> bool
    decreases blocks.len() - i,
{
    if i < 0 || i >= blocks.len() {
        true
    } else {
        block_diffs_utf8(pattern, ignore_case, multiline, code, lines, blocks[i])
            && plain_diffs_utf8(pattern, ignore_case, multiline, code, lines, blocks, i + 1)
    }
}

/// Appends one block's search hits to the output: one line per match,
/// in order.
fn plain_search_block(
    re: &Pattern,
    file: &FileState,
    block: SqlBlock,
    color: bool,
    out: &mut Vec<Vec<u8>>,
)
    requires
        file.wf(),
        block.in_code(file.code@.len() as int),
    ensures
        (is_utf8(file.path@) || !color) && block_diffs_utf8(
            re.pattern_view(),
            re.ignore_case_view(),
            re.multiline_view(),
            file.code@,
            file.lines@,
            block,
        ) ==> lines_view(final(out)@) == lines_view(old(out)@) + plain_block_lines(
            re.pattern_view(),
            re.ignore_case_view(),
            re.multiline_view(),
            file.path@,
            file.code@,
            file.lines@,
            block,
            color,
        ),
{
    let ghost pat = re.pattern_view();
    let ghost ci = re.ignore_case_view();
    let ghost ml = re.multiline_view();
    let ghost guard = (is_utf8(file.path@) || !color) && block_diffs_utf8(
        pat,
        ci,
        ml,
        file.code@,
        file.lines@,
        block,
    );
    let ghost pbl = plain_block_lines(pat, ci, ml, file.path@, file.code@, file.lines@, block, color);
    let sql = block.inner_text(file.code.as_slice());
    let ms = regex_find_iter(re, sql);
    let ghost bm = block_matches(pat, ci, ml, file.code@, block);
    proof {
        assert(ms@ == bm);
        assert(pbl.len() == bm.len());
    }
    let mut k: usize = 0;
    while k < ms.len()
        invariant
            k <= ms@.len(),
            file.wf(),
            block.in_code(file.code@.len() as int),
            ms@ == bm,
            bm == block_matches(pat, ci, ml, file.code@, block),
            pbl == plain_block_lines(pat, ci, ml, file.path@, file.code@, file.lines@, block, color),
            pbl.len() == bm.len(),
            forall|x: int|
                0 <= x < ms@.len() ==> (#[trigger] ms@[x]).wf() && ms@[x].end
                    <= block.spec_inner_range().spec_len(),
            guard ==> (forall|x: int|
                0 <= x < bm.len() ==> is_utf8(
                    diff_span(file.code@, file.lines@, block, #[trigger] bm[x]),
                )),
            guard ==> is_utf8(file.path@) || !color,
            guard ==> lines_view(out@) == lines_view(old(out)@) + pbl.subrange(0, k as int),
        decreases ms@.len() - k,
    {
        let m = ms[k];
        let rng = MatchRange::from_regex_match(&block, &m, &file.lines, file.code.as_slice());
        let nlines = file.lines.len();
        proof {
            assert(rng.start_point.row < nlines);
        }
        let line = plain_match_line(file.path.as_slice(), file.code.as_slice(), &rng, color);
        proof {
            if guard {
                assert(is_utf8(diff_span(file.code@, file.lines@, block, bm[k as int])));
                assert(line@ == plain_line_of(file.path@, file.code@, file.lines@, block, m, color));
                assert(pbl[k as int] == plain_line_of(
                    file.path@,
                    file.code@,
                    file.lines@,
                    block,
                    bm[k as int],
                    color,
                ));
            }
        }
        let ghost before = out@;
        out.push(line);
        proof {
            if guard {
                let rhs = lines_view(old(out)@) + pbl.subrange(0, k + 1);
                assert forall|x: int|
                    0 <= x < lines_view(out@).len() implies lines_view(out@)[x] == rhs[x] by {
                    assert(lines_view(out@)[x] == out@[x]@);
                    if x < before.len() {
                        assert(out@[x] == before[x]);
                        assert(lines_view(before)[x] == before[x]@);
                        assert(lines_view(before)[x] == (lines_view(old(out)@) + pbl.subrange(
                            0,
                            k as int,
                        ))[x]);
                        if x < lines_view(old(out)@).len() {
                            assert(rhs[x] == lines_view(old(out)@)[x]);
                        } else {
                            let d = x - lines_view(old(out)@).len();
                            assert((lines_view(old(out)@) + pbl.subrange(0, k as int))[x]
                                == pbl.subrange(0, k as int)[d]);
                            assert(rhs[x] == pbl.subrange(0, k + 1)[d]);
                            assert(pbl.subrange(0, k as int)[d] == pbl[d]);
                            assert(pbl.subrange(0, k + 1)[d] == pbl[d]);
                        }
                    } else {
                        assert(out@[x] == line);
                        assert(rhs[x] == pbl.subrange(0, k + 1)[k as int]);
                        assert(pbl.subrange(0, k + 1)[k as int] == pbl[k as int]);
                    }
                }
                assert(lines_view(out@) =~= rhs);
            }
        }
        k = k + 1;
    }
    proof {
        if guard {
            assert(pbl.subrange(0, pbl.len() as int) =~= pbl);
            assert(lines_view(out@) =~= lines_view(old(out)@) + pbl);
        }
    }
}

/// Prints every match of every block with its file coordinates.
pub struct PlainSearch {
    pub re: Pattern,
}

impl PlainSearch {
    pub fn new_finder(re: Pattern) -> (r: PlainSearch)
        ensures
            r.re == re,
    {
        PlainSearch { re }
    }

    /// One output line per regex match of every block, in order: the
    /// file coordinates and the display line with the matched span
    /// highlighted; always goes on to the next file.
    pub fn find_in_file(&self, blocks: &Vec<SqlBlock>, file: &FileState, color: bool) -> (r: (
        Vec<Vec<u8>>,
        FindChoice,
    ))
        requires
            file.wf(),
            blocks_in_code(blocks@, file.code@.len() as int),
        ensures
            r.1 == FindChoice::Continue,
            (is_utf8(file.path@) || !color) && plain_diffs_utf8(
                self.re.pattern_view(),
                self.re.ignore_case_view(),
                self.re.multiline_view(),
                file.code@,
                file.lines@,
                blocks@,
                0,
            ) ==> lines_view(r.0@) == plain_lines(
                self.re.pattern_view(),
                self.re.ignore_case_view(),
                self.re.multiline_view(),
                file.path@,
                file.code@,
                file.lines@,
                blocks@,
                0,
                color,
            ),
    {
        let ghost pat = self.re.pattern_view();
        let ghost ci = self.re.ignore_case_view();
        let ghost ml = self.re.multiline_view();
        let ghost guard = (is_utf8(file.path@) || !color) && plain_diffs_utf8(
            pat,
            ci,
            ml,
            file.code@,
            file.lines@,
            blocks@,
            0,
        );
        let ghost total = plain_lines(
            pat,
            ci,
            ml,
            file.path@,
            file.code@,
            file.lines@,
            blocks@,
            0,
            color,
        );
        let mut out: Vec<Vec<u8>> = Vec::new();
        let mut i: usize = 0;
        while i < blocks.len()
            invariant
                i <= blocks@.len(),
                file.wf(),
                blocks_in_code(blocks@, file.code@.len() as int),
                pat == self.re.pattern_view() && ci == self.re.ignore_case_view() && ml
                    == self.re.multiline_view(),
                guard ==> plain_diffs_utf8(pat, ci, ml, file.code@, file.lines@, blocks@, 0),
                guard ==> is_utf8(file.path@) || !color,
                total == plain_lines(
                    pat,
                    ci,
                    ml,
                    file.path@,
                    file.code@,
                    file.lines@,
                    blocks@,
                    0,
                    color,
                ),
                guard ==> total == lines_view(out@) + plain_lines(
                    pat,
                    ci,
                    ml,
                    file.path@,
                    file.code@,
                    file.lines@,
                    blocks@,
                    i as int,
                    color,
                ),
                guard ==> plain_diffs_utf8(pat, ci, ml, file.code@, file.lines@, blocks@, i as int),
            decreases blocks@.len() - i,
        {
            let block = blocks[i];
            let ghost before = out@;
            plain_search_block(&self.re, file, block, color, &mut out);
            proof {
                if guard {
                    let pbl = plain_block_lines(
                        pat,
                        ci,
                        ml,
                        file.path@,
                        file.code@,
                        file.lines@,
                        block,
                        color,
                    );
                    assert(lines_view(out@) == lines_view(before) + pbl);
                    assert(plain_lines(
                        pat,
                        ci,
                        ml,
                        file.path@,
                        file.code@,
                        file.lines@,
                        blocks@,
                        i as int,
                        color,
                    ) == pbl + plain_lines(
                        pat,
                        ci,
                        ml,
                        file.path@,
                        file.code@,
                        file.lines@,
                        blocks@,
                        i + 1,
                        color,
                    ));
                    assert(total =~= lines_view(out@) + plain_lines(
                        pat,
                        ci,
                        ml,
                        file.path@,
                        file.code@,
                        file.lines@,
                        blocks@,
                        i + 1,
                        color,
                    ));
                }
            }
            i = i + 1;
        }
        proof {
            if guard {
                assert(total =~= lines_view(out@));
            }
        }
        (out, FindChoice::Continue)
    }
}

/// One printed matchless block: its one-based start line and its whole
/// inner text, with no column and no highlight.
pub fn inverse_block_line(path: &[u8], code: &[u8], block: &SqlBlock, color: bool) -> (r: Vec<u8>)
    requires
        block.in_code(code@.len() as int),
        block.string_start.point.row < usize::MAX,
    ensures
        is_utf8(path@) || !color ==> r@ == inverse_line_of(path@, code@, *block, color),
{
    let lnum = block.start_line_num();
    let text = block.inner_text(code);
    format_match_line(path, lnum, None, text, color)
}

/// One printed matchless block, as a function of the block.
pub open spec fn inverse_line_of(
    path: Seq<u8>,
    code: Seq<u8>,
    block: SqlBlock,
    color: bool,
) -> Seq<u8> {
    match_line_spec(
        path,
        block.string_start.point.row + 1,
        None,
        code.subrange(
            block.spec_inner_range().start as int,
            block.spec_inner_range().end as int,
        ),
        color,
    )
}

/// Every output line of an inverse search over blocks `i`, `i + 1`, ...:
/// exactly one line per block in which the pattern has no match at all.
pub open spec fn inverse_lines(
    pattern: Seq<u8>,
    ignore_case: bool,
    multiline: bool,
    path: Seq<u8>,
    code: Seq<u8>,
    blocks: Seq<SqlBlock>,
    i: int,
    color: bool,
) -> Seq<Seq<u8>>
    decreases blocks.len() - i,
{
    if i < 0 || i >= blocks.len() {
        Seq::empty()
    } else {
        (if block_matches(pattern, ignore_case, multiline, code, blocks[i]).len() == 0 {
            seq![inverse_line_of(path, code, blocks[i], color)]
        } else {
            Seq::empty()
        }) + inverse_lines(pattern, ignore_case, multiline, path, code, blocks, i + 1, color)
    }
}

/// Prints each block in which the pattern does not match at all.
pub struct InverseSearch {
    pub re: Pattern,
}

impl InverseSearch {
    pub fn new_finder(re: Pattern) -> (r: InverseSearch)
        ensures
            r.re == re,
    {
        InverseSearch { re }
    }

    /// Exactly one output line per block without any match — the block's
    /// start line and full inner text — and nothing for blocks with a
    /// match; always goes on.
    pub fn find_in_file(&self, blocks: &Vec<SqlBlock>, file: &FileState, color: bool) -> (r: (
        Vec<Vec<u8>>,
        FindChoice,
    ))
        requires
            file.wf(),
            blocks_in_code(blocks@, file.code@.len() as int),
        ensures
            r.1 == FindChoice::Continue,
            is_utf8(file.path@) || !color ==> lines_view(r.0@) == inverse_lines(
                self.re.pattern_view(),
                self.re.ignore_case_view(),
                self.re.multiline_view(),
                file.path@,
                file.code@,
                blocks@,
                0,
                color,
            ),
    {
        let ghost pat = self.re.pattern_view();
        let ghost ci = self.re.ignore_case_view();
        let ghost ml = self.re.multiline_view();
        let ghost guard = is_utf8(file.path@) || !color;
        let mut out: Vec<Vec<u8>> = Vec::new();
        let mut i: usize = 0;
        while i < blocks.len()
            invariant
                i <= blocks@.len(),
                file.wf(),
                blocks_in_code(blocks@, file.code@.len() as int),
                pat == self.re.pattern_view() && ci == self.re.ignore_case_view() && ml == self.re.multiline_view(),
                guard == (is_utf8(file.path@) || !color),
                guard ==> inverse_lines(pat, ci, ml, file.path@, file.code@, blocks@, 0, color)
                    == lines_view(out@) + inverse_lines(
                    pat,
                    ci,
                    ml,
                    file.path@,
                    file.code@,
                    blocks@,
                    i as int,
                    color,
                ),
            decreases blocks@.len() - i,
        {
            let block = blocks[i];
            let sql = block.inner_text(file.code.as_slice());
            let ms = regex_find_iter(&self.re, sql);
            proof {
                assert(ms@ == block_matches(pat, ci, ml, file.code@, blocks@[i as int]));
            }
            if ms.len() == 0 {
                let line = inverse_block_line(
                    file.path.as_slice(),
                    file.code.as_slice(),
                    &block,
                    color,
                );
                let ghost pre = out@;
                out.push(line);
                proof {
                    if guard {
                        assert(lines_view(out@) =~= lines_view(pre) + seq![
                            inverse_line_of(file.path@, file.code@, blocks@[i as int], color),
                        ]);
                    }
                }
            }
            i = i + 1;
        }
        proof {
            if guard {
                assert(lines_view(out@) =~= lines_view(out@) + inverse_lines(
                    pat,
                    ci,
                    ml,
                    file.path@,
                    file.code@,
                    blocks@,
                    blocks@.len() as int,
                    color,
                ));
            }
        }
        (out, FindChoice::Continue)
    }
}

pub open spec fn inner_ranges(blocks: Seq<SqlBlock>) -> Seq<ByteRange> {
    blocks.map_values(|b: SqlBlock| b.spec_inner_range())
}

/// One replace-all result per range, each computed against the original
/// text, exactly as the bulk edit substitutes them.
pub open spec fn replaced_all_texts(
    pattern: Seq<u8>,
    ignore_case: bool,
    multiline: bool,
    code: Seq<u8>,
    ranges: Seq<ByteRange>,
    rep: Seq<u8>,
) -> Seq<Seq<u8>> {
    ranges.map_values(
        |rg: ByteRange|
            re_replaced_all(
                pattern,
                ignore_case,
                multiline,
                code.subrange(rg.start as int, rg.end as int),
                rep,
            ),
    )
}

/// Replaces every match in every block and reports the block count, the
/// blocks edited in reverse source order.
pub struct Replace {
    pub re: Pattern,
    pub replace_text: Vec<u8>,
}

impl Replace {
    pub fn new_finder(re: Pattern, replace_text: Vec<u8>) -> (r: Replace)
        ensures
            r.re == re,
            r.replace_text == replace_text,
    {
        Replace { re, replace_text }
    }

    /// The file text with every block's inner range rewritten to its
    /// replace-all result, blocks applied in reverse source order, and
    /// the number of blocks processed.  Nothing is returned exactly when
    /// the blocks do not form an ordered, in-bounds sequence — the shape
    /// every extractor produces.
    pub fn find_in_file(&self, blocks: &Vec<SqlBlock>, file: &FileState) -> (r: Option<
        (Vec<u8>, usize),
    >)
        requires
            file.wf(),
        ensures
            r is Some <==> ranges_sorted_in(inner_ranges(blocks@), file.code@.len() as int),
            match r {
                Some(p) => p.1 == blocks@.len() && p.0@ == edited_suffix(
                    file.code@,
                    inner_ranges(blocks@),
                    replaced_all_texts(
                        self.re.pattern_view(),
                        self.re.ignore_case_view(),
                        self.re.multiline_view(),
                        file.code@,
                        inner_ranges(blocks@),
                        self.replace_text@,
                    ),
                    0,
                ),
                None => true,
            },
    {
        let ghost pat = self.re.pattern_view();
        let ghost ci = self.re.ignore_case_view();
        let ghost ml = self.re.multiline_view();
        let mut ranges: Vec<ByteRange> = Vec::new();
        let mut i: usize = 0;
        while i < blocks.len()
            invariant
                i <= blocks@.len(),
                ranges@ == inner_ranges(blocks@).subrange(0, i as int),
            decreases blocks@.len() - i,
        {
            ranges.push(blocks[i].inner_text_range());
            proof {
                assert(ranges@ =~= inner_ranges(blocks@).subrange(0, i + 1));
            }
            i = i + 1;
        }
        proof {
            assert(ranges@ =~= inner_ranges(blocks@));
        }

        if !check_ranges_sorted(&ranges, file.code.len()) {
            return None;
        }

        let ghost texts = replaced_all_texts(
            pat,
            ci,
            ml,
            file.code@,
            ranges@,
            self.replace_text@,
        );
        let mut reps: Vec<Vec<u8>> = Vec::new();
        let mut j: usize = 0;
        while j < ranges.len()
            invariant
                j <= ranges@.len(),
                reps@.len() == j,
                pat == self.re.pattern_view() && ci == self.re.ignore_case_view() && ml == self.re.multiline_view(),
                texts == replaced_all_texts(pat, ci, ml, file.code@, ranges@, self.replace_text@),
                ranges_sorted_in(ranges@, file.code@.len() as int),
                deep(reps@) == texts.subrange(0, j as int),
            decreases ranges@.len() - j,
        {
            let rg = ranges[j];
            let sql = &file.code.as_slice()[rg.start..rg.end];
            proof {
                assert(sql@ =~= file.code@.subrange(rg.start as int, rg.end as int));
            }
            let replaced = regex_replace_all(&self.re, sql, self.replace_text.as_slice());
            reps.push(replaced);
            proof {
                assert(deep(reps@) =~= texts.subrange(0, j + 1));
            }
            j = j + 1;
        }
        proof {
            assert(deep(reps@) =~= texts);
        }

        let new_code = apply_edits(file.code.as_slice(), &ranges, &reps);
        Some((new_code, blocks.len()))
    }
}

/// One answer of the interactive confirmation prompt.
#[derive(Clone, Copy, PartialEq, Eq, Structural, Debug)]
pub enum ConfirmAns {
    Yes,
    No,
    All,
    Quit,
}

impl ConfirmAns {
    /// Parses one prompt keystroke, either case: `y`, `n`, `a`, or `q`.
    pub fn from_char(c: char) -> (r: Option<ConfirmAns>)
        ensures
            r == (if c == 'y' || c == 'Y' {
                Some(ConfirmAns::Yes)
            } else if c == 'n' || c == 'N' {
                Some(ConfirmAns::No)
            } else if c == 'a' || c == 'A' {
                Some(ConfirmAns::All)
            } else if c == 'q' || c == 'Q' {
                Some(ConfirmAns::Quit)
            } else {
                None::<ConfirmAns>
            }),
    {
        if c == 'y' || c == 'Y' {
            Some(ConfirmAns::Yes)
        } else if c == 'n' || c == 'N' {
            Some(ConfirmAns::No)
        } else if c == 'a' || c == 'A' {
            Some(ConfirmAns::All)
        } else if c == 'q' || c == 'Q' {
            Some(ConfirmAns::Quit)
        } else {
            None
        }
    }
}

/// The per-invocation state of the interactive replace: the compiled
/// pattern, the replacement text, and the last answer given, which turns
/// into auto-acceptance once it was `All`.
pub struct ReplaceConfirm {
    pub re: Pattern,
    pub replace_text: Vec<u8>,
    pub last_ans: Option<ConfirmAns>,
}

/// The accumulating state of confirming one file: the accepted absolute
/// ranges, and a live display copy of the current block in which accepted
/// replacements are already substituted, together with the offset shift
/// that substitution has caused so far.
pub struct ConfirmSession {
    pub replacements: Vec<ByteRange>,
    pub display_sql: Vec<u8>,
    pub shift: isize,
    pub quit: bool,
}

impl ReplaceConfirm {
    pub fn new_finder(re: Pattern, replace_text: Vec<u8>) -> (r: ReplaceConfirm)
        ensures
            r.last_ans is None,
            r.re == re,
            r.replace_text@ == replace_text@,
    {
        ReplaceConfirm { re, replace_text, last_ans: None }
    }

    /// Whether every remaining match is accepted without prompting.
    pub fn auto_accept(&self) -> (r: bool)
        ensures
            r == (self.last_ans == Some(ConfirmAns::All)),
    {
        match self.last_ans {
            Some(ConfirmAns::All) => true,
            _ => false,
        }
    }

    /// Records the answer just given.
    pub fn set_answer(&mut self, ans: ConfirmAns)
        ensures
            final(self).last_ans == Some(ans),
            final(self).re == old(self).re,
            final(self).replace_text == old(self).replace_text,
    {
        self.last_ans = Some(ans);
    }

    /// The left half of the confirmation view: the block's original text
    /// with the current match highlighted in red.
    pub fn left_side_diff(&self, sql_code: &[u8], rng: &MatchRange) -> (r: Vec<u8>)
        requires
            rng.block_match_range.wf(),
            rng.block_match_range.end <= sql_code@.len(),
        ensures
            is_utf8(
                sql_code@.subrange(
                    rng.block_match_range.start as int,
                    rng.block_match_range.end as int,
                ),
            ) ==> r@ == sql_code@.subrange(0, rng.block_match_range.start as int) + painted(
                sql_code@.subrange(
                    rng.block_match_range.start as int,
                    rng.block_match_range.end as int,
                ),
                Color::Red,
            ) + sql_code@.subrange(rng.block_match_range.end as int, sql_code@.len() as int),
    {
        CodeDiff::new_block(sql_code, rng).with_diff_color(Color::Red)
    }

    /// The right half of the confirmation view: the display copy with
    /// the replacement substituted into just this match's span,
    /// highlighted in green.
    pub fn right_side_diff(&self, sql_code: &[u8], rng: &MatchRange) -> (r: Vec<u8>)
        ensures
            ({
                let d = rng.block_match_range;
                let rep = re_replaced_first(
                    self.re.pattern_view(),
                    self.re.ignore_case_view(),
                    self.re.multiline_view(),
                    sql_code@.subrange(d.start as int, d.end as int),
                    self.replace_text@,
                );
                &&& (d.start < d.end && d.end <= sql_code@.len() && is_utf8(rep)) ==> r@
                    == sql_code@.subrange(0, d.start as int) + painted(rep, Color::Green)
                    + sql_code@.subrange(d.end as int, sql_code@.len() as int)
                &&& (d.start >= d.end || d.end > sql_code@.len()) ==> r@ == sql_code@ + painted(
                    Seq::<u8>::empty(),
                    Color::Green,
                )
            }),
    {
        let parts = crate::re::replace_in_range_partitioned(
            &self.re,
            sql_code,
            rng.block_match_range,
            self.replace_text.as_slice(),
        );
        proof {
            crate::display::lemma_empty_utf8();
        }
        CodeDiff::new_raw(parts.0.as_slice(), parts.1.as_slice(), parts.2.as_slice())
            .with_diff_color(Color::Green)
    }

    /// Applies every accepted range to the real file text, later ranges
    /// first, replacing each range's matches with its replace-all
    /// result; nothing is returned exactly when the accepted ranges are
    /// not ordered and in bounds.
    pub fn process_replacements(&self, replacements: &Vec<ByteRange>, code: &[u8]) -> (r: Option<
        Vec<u8>,
    >)
        ensures
            r is Some <==> ranges_sorted_in(replacements@, code@.len() as int),
            match r {
                Some(v) => v@ == edited_suffix(
                    code@,
                    replacements@,
                    replaced_all_texts(
                        self.re.pattern_view(),
                        self.re.ignore_case_view(),
                        self.re.multiline_view(),
                        code@,
                        replacements@,
                        self.replace_text@,
                    ),
                    0,
                ),
                None => true,
            },
    {
        let ghost pat = self.re.pattern_view();
        let ghost ci = self.re.ignore_case_view();
        let ghost ml = self.re.multiline_view();
        if !check_ranges_sorted(replacements, code.len()) {
            return None;
        }
        let ghost texts = replaced_all_texts(
            pat,
            ci,
            ml,
            code@,
            replacements@,
            self.replace_text@,
        );
        let mut reps: Vec<Vec<u8>> = Vec::new();
        let mut j: usize = 0;
        while j < replacements.len()
            invariant
                j <= replacements@.len(),
                reps@.len() == j,
                pat == self.re.pattern_view() && ci == self.re.ignore_case_view() && ml == self.re.multiline_view(),
                texts == replaced_all_texts(
                    pat,
                    ci,
                    ml,
                    code@,
                    replacements@,
                    self.replace_text@,
                ),
                ranges_sorted_in(replacements@, code@.len() as int),
                deep(reps@) == texts.subrange(0, j as int),
            decreases replacements@.len() - j,
        {
            let rg = replacements[j];
            let target = &code[rg.start..rg.end];
            proof {
                assert(target@ =~= code@.subrange(rg.start as int, rg.end as int));
            }
            let replaced = regex_replace_all(&self.re, target, self.replace_text.as_slice());
            reps.push(replaced);
            proof {
                assert(deep(reps@) =~= texts.subrange(0, j + 1));
            }
            j = j + 1;
        }
        proof {
            assert(deep(reps@) =~= texts);
        }
        Some(apply_edits(code, replacements, &reps))
    }
}

/// What accepting one match does to the session: the absolute range is
/// recorded, the display copy is rewritten at the match's shifted span,
/// and the shift is advanced by the length difference when it fits the
/// machine word.
pub open spec fn accept_post(
    pre: ConfirmSession,
    post: ConfirmSession,
    pattern: Seq<u8>,
    ignore_case: bool,
    multiline: bool,
    rng: MatchRange,
    rep: Seq<u8>,
) -> bool {
    &&& post.replacements@ == pre.replacements@.push(rng.abs_match_range)
    &&& post.quit == pre.quit
    &&& post.display_sql@ == replace_in_range_spec(
        pattern,
        ignore_case,
        multiline,
        pre.display_sql@,
        crate::mapping::shifted(rng.block_match_range, pre.shift as int),
        rep,
    )
    &&& (isize::MIN < pre.shift + post.display_sql@.len() - pre.display_sql@.len() <= isize::MAX)
        ==> post.shift == pre.shift + post.display_sql@.len() - pre.display_sql@.len()
}

impl ConfirmSession {
    /// A fresh session: nothing accepted, nothing displayed, not quit.
    pub fn new() -> (r: ConfirmSession)
        ensures
            r.replacements@.len() == 0,
            r.shift == 0,
            !r.quit,
    {
        ConfirmSession { replacements: Vec::new(), display_sql: Vec::new(), shift: 0, quit: false }
    }

    /// Enters the next block: the display copy restarts from the block's
    /// original inner text with no shift; accepted ranges are kept.
    pub fn start_block(&mut self, sql: &[u8])
        ensures
            final(self).display_sql@ == sql@,
            final(self).shift == 0,
            final(self).replacements == old(self).replacements,
            final(self).quit == old(self).quit,
    {
        self.display_sql = crate::edit::splice_bytes(sql, 0, 0, &[]);
        proof {
            assert(self.display_sql@ =~= sql@);
        }
        self.shift = 0;
    }

    /// Where the current match sits in the display copy: the original
    /// coordinates moved by the shift accumulated in this block.
    pub fn display_range(&self, rng: &MatchRange) -> (r: MatchRange)
        requires
            rng.shiftable(self.shift as int),
        ensures
            r.block_match_range == crate::mapping::shifted(
                rng.block_match_range,
                self.shift as int,
            ),
            r.start_point == rng.start_point,
    {
        rng.shifted_ranged(self.shift)
    }

    /// Accepts the current match: its absolute range is recorded for the
    /// final write, and the display copy is rewritten at the match's
    /// shifted span so later matches of this block preview correctly.
    pub fn accept(&mut self, re: &Pattern, rng: &MatchRange, replace_text: &[u8])
        requires
            rng.shiftable(old(self).shift as int),
        ensures
            accept_post(
                *old(self),
                *final(self),
                re.pattern_view(),
                re.ignore_case_view(),
                re.multiline_view(),
                *rng,
                replace_text@,
            ),
    {
        self.replacements.push(rng.abs_match_range);
        let dr = rng.shifted_ranged(self.shift);
        let pre_len = self.display_sql.len();
        let newd = replace_in_range(re, self.display_sql.as_slice(), dr.block_match_range,
            replace_text);
        let new_len = newd.len();
        self.display_sql = newd;
        let s128: i128 = (self.shift as i128) + (new_len as i128) - (pre_len as i128);
        if s128 >= (isize::MIN as i128) + 1 && s128 <= isize::MAX as i128 {
            self.shift = s128 as isize;
        }
    }

    /// Routes one prompt answer for the current match: yes and all
    /// accept it, no skips it, quit stops the whole run.
    pub fn apply_answer(
        &mut self,
        ans: ConfirmAns,
        re: &Pattern,
        rng: &MatchRange,
        replace_text: &[u8],
    )
        requires
            (ans == ConfirmAns::Yes || ans == ConfirmAns::All) ==> rng.shiftable(
                old(self).shift as int,
            ),
        ensures
            match ans {
                ConfirmAns::Yes | ConfirmAns::All => accept_post(
                    *old(self),
                    *final(self),
                    re.pattern_view(),
                    re.ignore_case_view(),
                    re.multiline_view(),
                    *rng,
                    replace_text@,
                ),
                ConfirmAns::No => {
                    &&& final(self).replacements == old(self).replacements
                    &&& final(self).display_sql == old(self).display_sql
                    &&& final(self).shift == old(self).shift
                    &&& final(self).quit == old(self).quit
                },
                ConfirmAns::Quit => {
                    &&& final(self).quit
                    &&& final(self).replacements == old(self).replacements
                    &&& final(self).display_sql == old(self).display_sql
                    &&& final(self).shift == old(self).shift
                },
            },
    {
        match ans {
            ConfirmAns::Yes | ConfirmAns::All => self.accept(re, rng, replace_text),
            ConfirmAns::No => {},
            ConfirmAns::Quit => self.set_quit(),
        }
    }

    /// Records that the run is to stop after this file.
    pub fn set_quit(&mut self)
        ensures
            final(self).quit,
            final(self).replacements == old(self).replacements,
            final(self).display_sql == old(self).display_sql,
            final(self).shift == old(self).shift,
    {
        self.quit = true;
    }
}

} // verus!
