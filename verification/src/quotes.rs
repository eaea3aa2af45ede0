//! Rewriting a block's delimiters to the canonical triple-quote form.
//!
//! The end delimiter is replaced before the start delimiter, so that the
//! still-pending edit's offsets stay valid — the same reverse-order
//! invariant that governs bulk edits, applied within one block.

use vstd::prelude::*;

use crate::block::{ByteRange, Position, SqlBlock};
use crate::edit::{lemma_edit_keeps_prefix, splice_bytes, spliced};
use crate::extract::blocks_sorted;

verus! {

/// The canonical delimiter: three double-quote bytes.
pub open spec fn triple_quote() -> Seq<u8> {
    seq![34u8, 34u8, 34u8]
}

pub open spec fn is_f_string_spec(s: Seq<u8>) -> bool {
    s.len() > 0 && s[0] == 102u8
}

/// Whether delimiter text starts with the format-string prefix `f`.
pub fn is_f_string(code: &[u8]) -> (r: bool)
    ensures
        r == is_f_string_spec(code@),
{
    code.len() > 0 && code[0] == 102u8
}

/// Where the quote characters of the start delimiter begin: one byte
/// later when the delimiter carries the `f` prefix, which is preserved.
pub open spec fn quote_start(code: Seq<u8>, block: SqlBlock) -> int {
    let s = block.string_start.byte_range;
    if s.end - s.start > 0 && code[s.start as int] == 102u8 {
        s.start + 1
    } else {
        s.start as int
    }
}

/// The block needs no rewrite: its quote characters already are the
/// canonical triple quote.
pub open spec fn already_canonical(code: Seq<u8>, block: SqlBlock) -> bool {
    code.subrange(quote_start(code, block), block.string_start.byte_range.end as int)
        == triple_quote()
}

/// The file text after rewriting one block's delimiters: the end
/// delimiter replaced first, then the quote part of the start delimiter.
pub open spec fn normalized(code: Seq<u8>, block: SqlBlock) -> Seq<u8> {
    let mid = spliced(
        code,
        block.string_end.byte_range.start as int,
        block.string_end.byte_range.end as int,
        triple_quote(),
    );
    spliced(mid, quote_start(code, block), block.string_start.byte_range.end as int, triple_quote())
}

/// Rewrites the block's delimiters to the canonical triple-quote form,
/// keeping a format prefix; reports whether anything changed.  An
/// already-canonical block is left byte-for-byte untouched.
pub fn replace_quotes(code: &mut Vec<u8>, block: &SqlBlock) -> (changed: bool)
    requires
        block.in_code(old(code)@.len() as int),
    ensures
        changed == !already_canonical(old(code)@, *block),
        !changed ==> final(code)@ == old(code)@,
        changed ==> final(code)@ == normalized(old(code)@, *block),
{
    let s_rng = block.string_start.byte_range;
    let e_rng = block.string_end.byte_range;
    let qs: usize = if s_rng.end - s_rng.start > 0 && code[s_rng.start] == 102u8 {
        s_rng.start + 1
    } else {
        s_rng.start
    };
    assert(qs == quote_start(code@, *block));

    let canonical = s_rng.end - qs == 3 && code[qs] == 34u8 && code[qs + 1] == 34u8 && code[qs + 2]
        == 34u8;
    proof {
        let sub = code@.subrange(qs as int, s_rng.end as int);
        if canonical {
            assert(sub =~= triple_quote());
        } else {
            if already_canonical(code@, *block) {
                assert(sub.len() == 3);
                assert(sub[0] == 34u8 && sub[1] == 34u8 && sub[2] == 34u8);
                assert(code@[qs as int] == 34u8);
                assert(code@[qs + 1] == 34u8);
                assert(code@[qs + 2] == 34u8);
            }
        }
    }
    if canonical {
        return false;
    }

    let mut t: Vec<u8> = Vec::new();
    t.push(34u8);
    t.push(34u8);
    t.push(34u8);
    proof {
        assert(t@ =~= triple_quote());
    }

    let mid = splice_bytes(code.as_slice(), e_rng.start, e_rng.end, t.as_slice());
    proof {
        lemma_edit_keeps_prefix(code@, e_rng.start as int, e_rng.end as int, triple_quote());
        assert(s_rng.end <= e_rng.start);
        assert(mid@.subrange(0, e_rng.start as int)
            =~= code@.subrange(0, e_rng.start as int));
    }
    let out = splice_bytes(mid.as_slice(), qs, s_rng.end, t.as_slice());
    *code = out;
    true
}

/// The block as it stands after normalization: three quote bytes at the
/// (prefix-preserving) start, and three at the end delimiter's shifted
/// position.
pub open spec fn normalized_block(code: Seq<u8>, block: SqlBlock) -> SqlBlock {
    let qs = quote_start(code, block);
    let delta = 3 - (block.string_start.byte_range.end - qs);
    SqlBlock {
        string_start: Position {
            byte_range: ByteRange {
                start: block.string_start.byte_range.start,
                end: (qs + 3) as usize,
            },
            point: block.string_start.point,
        },
        string_end: Position {
            byte_range: ByteRange {
                start: (block.string_end.byte_range.start + delta) as usize,
                end: (block.string_end.byte_range.start + delta + 3) as usize,
            },
            point: block.string_end.point,
        },
    }
}

/// Idempotence of quote normalization: after one rewrite the block's new
/// delimiters are canonical, so normalizing again reports no change and
/// leaves the bytes as they are — normalizing twice equals normalizing
/// once.
pub proof fn lemma_normalize_idempotent(code: Seq<u8>, block: SqlBlock)
    requires
        block.in_code(code.len() as int),
        code.len() + 6 <= usize::MAX,
    ensures
        normalized_block(code, block).in_code(normalized(code, block).len() as int),
        already_canonical(normalized(code, block), normalized_block(code, block)),
{
    let s = block.string_start.byte_range;
    let e = block.string_end.byte_range;
    let qs = quote_start(code, block);
    let t = triple_quote();
    let mid = spliced(code, e.start as int, e.end as int, t);
    let out = spliced(mid, qs, s.end as int, t);
    let nb = normalized_block(code, block);
    lemma_edit_keeps_prefix(code, e.start as int, e.end as int, t);
    lemma_edit_keeps_prefix(mid, qs, s.end as int, t);
    assert(out.len() == mid.len() - (s.end - qs) + 3);
    assert(out.subrange(0, qs) =~= mid.subrange(0, qs));
    assert(mid.subrange(0, qs) =~= code.subrange(0, qs));
    assert(out.subrange(qs, qs + 3) =~= t);
    assert(quote_start(out, nb) == qs) by {
        if s.end - s.start > 0 && code[s.start as int] == 102u8 {
            assert(out[s.start as int] == out.subrange(0, qs)[s.start as int]);
            assert(code[s.start as int] == code.subrange(0, qs)[s.start as int]);
            assert(out[s.start as int] == code[s.start as int]);
        } else {
            assert(out[s.start as int] == out.subrange(qs, qs + 3)[0]);
            assert(out[s.start as int] == t[0]);
        }
    }
    assert(out.subrange(quote_start(out, nb), nb.string_start.byte_range.end as int) =~= t);
}

/// Prefix preservation: every byte before the quote part of the start
/// delimiter — the format prefix included — survives normalization
/// unchanged.
pub proof fn lemma_prefix_preserved(code: Seq<u8>, block: SqlBlock)
    requires
        block.in_code(code.len() as int),
    ensures
        normalized(code, block).subrange(0, quote_start(code, block)) == code.subrange(
            0,
            quote_start(code, block),
        ),
        normalized(code, block).len() >= quote_start(code, block),
{
    let s = block.string_start.byte_range;
    let e = block.string_end.byte_range;
    let qs = quote_start(code, block);
    let t = triple_quote();
    let mid = spliced(code, e.start as int, e.end as int, t);
    lemma_edit_keeps_prefix(code, e.start as int, e.end as int, t);
    lemma_edit_keeps_prefix(mid, qs, s.end as int, t);
    assert(normalized(code, block).subrange(0, qs) =~= mid.subrange(0, qs));
    assert(mid.subrange(0, qs) =~= code.subrange(0, qs));
}

// ---------------------------------------------------------------------
// Whole-file normalization, blocks processed in reverse source order.
// ---------------------------------------------------------------------

pub open spec fn normalize_step(code: Seq<u8>, block: SqlBlock) -> Seq<u8> {
    if already_canonical(code, block) {
        code
    } else {
        normalized(code, block)
    }
}

/// The file text after normalizing blocks `j`, `j + 1`, ... of `blocks`,
/// later blocks first.
pub open spec fn norm_suffix(code: Seq<u8>, blocks: Seq<SqlBlock>, j: int) -> Seq<u8>
    decreases blocks.len() - j,
{
    if j < 0 || j >= blocks.len() {
        code
    } else {
        normalize_step(norm_suffix(code, blocks, j + 1), blocks[j])
    }
}

/// How many of blocks `j`, `j + 1`, ... the normalization changes.
pub open spec fn norm_count(code: Seq<u8>, blocks: Seq<SqlBlock>, j: int) -> int
    decreases blocks.len() - j,
{
    if j < 0 || j >= blocks.len() {
        0
    } else {
        norm_count(code, blocks, j + 1) + if already_canonical(
            norm_suffix(code, blocks, j + 1),
            blocks[j],
        ) {
            0int
        } else {
            1int
        }
    }
}

spec fn suffix_lo(blocks: Seq<SqlBlock>, j: int, n: int) -> int {
    if j < blocks.len() {
        blocks[j].string_start.byte_range.start as int
    } else {
        n
    }
}

/// Normalizing the blocks after `j` never moves a byte that sits before
/// block `j`: the reverse-order invariant for whole files.
proof fn lemma_norm_suffix_prefix(code: Seq<u8>, blocks: Seq<SqlBlock>, j: int)
    requires
        0 <= j <= blocks.len(),
        forall|k: int| 0 <= k < blocks.len() ==> (#[trigger] blocks[k]).in_code(code.len() as int),
        blocks_sorted(blocks),
    ensures
        norm_suffix(code, blocks, j).len() >= suffix_lo(blocks, j, code.len() as int),
        norm_suffix(code, blocks, j).subrange(0, suffix_lo(blocks, j, code.len() as int))
            == code.subrange(0, suffix_lo(blocks, j, code.len() as int)),
        j < blocks.len() ==> blocks[j].in_code(norm_suffix(code, blocks, j + 1).len() as int),
    decreases blocks.len() - j,
{
    if j < blocks.len() {
        lemma_norm_suffix_prefix(code, blocks, j + 1);
        let rest = norm_suffix(code, blocks, j + 1);
        let b = blocks[j];
        let lo1 = suffix_lo(blocks, j + 1, code.len() as int);
        assert(b.string_end.byte_range.end <= lo1);
        assert(b.in_code(rest.len() as int));
        let s = b.string_start.byte_range;
        let e = b.string_end.byte_range;
        let qs = quote_start(rest, b);
        let t = triple_quote();
        let cur = norm_suffix(code, blocks, j);
        if !already_canonical(rest, b) {
            let mid = spliced(rest, e.start as int, e.end as int, t);
            lemma_edit_keeps_prefix(rest, e.start as int, e.end as int, t);
            lemma_edit_keeps_prefix(mid, qs, s.end as int, t);
            assert(cur.subrange(0, qs) =~= mid.subrange(0, qs));
            assert(mid.subrange(0, qs) =~= rest.subrange(0, qs));
            assert(cur.len() >= qs);
        }
        assert(s.start <= qs);
        assert(cur.subrange(0, s.start as int) =~= rest.subrange(0, s.start as int)) by {
            if !already_canonical(rest, b) {
                assert(cur.subrange(0, qs) == rest.subrange(0, qs));
                assert forall|x: int| 0 <= x < s.start implies cur.subrange(0, s.start as int)[x]
                    == rest.subrange(0, s.start as int)[x] by {
                    assert(cur.subrange(0, qs)[x] == rest.subrange(0, qs)[x]);
                }
            }
        }
        assert(rest.subrange(0, s.start as int) =~= code.subrange(0, s.start as int)) by {
            assert(s.start <= lo1);
            assert forall|x: int| 0 <= x < s.start implies rest.subrange(0, s.start as int)[x]
                == code.subrange(0, s.start as int)[x] by {
                assert(rest.subrange(0, lo1)[x] == code.subrange(0, lo1)[x]);
            }
        }
        assert(cur.subrange(0, suffix_lo(blocks, j, code.len() as int)) =~= code.subrange(
            0,
            suffix_lo(blocks, j, code.len() as int),
        ));
    }
}

/// Normalizes every block of one file, in reverse source order, and
/// counts the blocks that changed.
pub fn normalize_file(code: &mut Vec<u8>, blocks: &Vec<SqlBlock>) -> (count: usize)
    requires
        forall|k: int|
            0 <= k < blocks@.len() ==> (#[trigger] blocks@[k]).in_code(old(code)@.len() as int),
        blocks_sorted(blocks@),
    ensures
        final(code)@ == norm_suffix(old(code)@, blocks@, 0),
        count == norm_count(old(code)@, blocks@, 0),
{
    let ghost code0 = code@;
    let mut count: usize = 0;
    let mut j: usize = blocks.len();
    while j > 0
        invariant
            j <= blocks@.len(),
            blocks@.len() <= usize::MAX,
            code@ == norm_suffix(code0, blocks@, j as int),
            count == norm_count(code0, blocks@, j as int),
            count <= blocks@.len() - j,
            forall|k: int|
                0 <= k < blocks@.len() ==> (#[trigger] blocks@[k]).in_code(code0.len() as int),
            blocks_sorted(blocks@),
        decreases j,
    {
        j = j - 1;
        proof {
            lemma_norm_suffix_prefix(code0, blocks@, j as int);
        }
        let changed = replace_quotes(code, &blocks[j]);
        if changed {
            count = count + 1;
        }
    }
    count
}

} // verus!
